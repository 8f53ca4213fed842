//! The delta engine: from a change set and two snapshots to a package.

use vstd::prelude::*;
use crate::bytes::append_bytes;
use crate::dds_differ::{create_diff, raw_subtract_applies, sub_bytes, texture_header_len};
use crate::errors::{cause_missing, report_view, ErrorView, PatchError};
use crate::generic::{generic_delta, generic_diff};
use crate::hash::{sha256_digest, sha256_of};
use crate::map_struct::{names_view, ChangeSetView, PatchMapStructure};
use crate::package::{delta_paths, deltas_view, DeltaRecord, DeltaView, Package, PackageView, Strategy, FORMAT_VERSION};
use crate::tree::FileTree;

verus! {

/// The record of an added file: its content, as it stands.
pub open spec fn literal_record(path: Seq<char>, new: Seq<u8>) -> DeltaView {
    DeltaView { path, strategy: Strategy::Literal, payload: new, header: Seq::empty() }
}

/// The record of a changed file, given the digest of its old content.
///
/// The strategy follows from the two contents alone. Where raw subtraction
/// applies, the payload is the digest and the difference of the pixel
/// regions, and the header is that of the new file. Everywhere else the
/// payload is the digest and the generic delta, and there is no header.
pub open spec fn changed_record_with(
    path: Seq<char>,
    digest: Seq<u8>,
    old: Seq<u8>,
    new: Seq<u8>,
) -> DeltaView {
    if raw_subtract_applies(old, new) {
        let h = texture_header_len(new)->0;
        DeltaView {
            path,
            strategy: Strategy::RawSubtract,
            payload: digest + sub_bytes(new.skip(h), old.skip(h)),
            header: new.take(h),
        }
    } else {
        DeltaView {
            path,
            strategy: Strategy::GenericBinary,
            payload: digest + generic_delta(old, new),
            header: Seq::empty(),
        }
    }
}

/// The record of a changed file: [`changed_record_with`] the SHA-256
/// digest of the old content.
pub open spec fn changed_record(path: Seq<char>, old: Seq<u8>, new: Seq<u8>) -> DeltaView {
    changed_record_with(path, sha256_of(old), old, new)
}

/// The records and the report for the changed paths, in order: a record
/// for each path that both snapshots hold, a missing-file error for each
/// other path.
pub open spec fn build_changed(
    paths: Seq<Seq<char>>,
    a: Map<Seq<char>, Seq<u8>>,
    b: Map<Seq<char>, Seq<u8>>,
) -> (Seq<DeltaView>, Seq<ErrorView>)
    decreases paths.len(),
{
    if paths.len() == 0 {
        (Seq::empty(), Seq::empty())
    } else {
        let (records, report) = build_changed(paths.drop_last(), a, b);
        let p = paths.last();
        if a.contains_key(p) && b.contains_key(p) {
            (records.push(changed_record(p, a[p], b[p])), report)
        } else {
            (records, report.push(ErrorView::IoError(p, cause_missing())))
        }
    }
}

/// The records and the report for the added paths, in order: a literal
/// record for each path that the new snapshot holds, a missing-file error
/// for each other path.
pub open spec fn build_added(paths: Seq<Seq<char>>, b: Map<Seq<char>, Seq<u8>>) -> (
    Seq<DeltaView>,
    Seq<ErrorView>,
)
    decreases paths.len(),
{
    if paths.len() == 0 {
        (Seq::empty(), Seq::empty())
    } else {
        let (records, report) = build_added(paths.drop_last(), b);
        let p = paths.last();
        if b.contains_key(p) {
            (records.push(literal_record(p, b[p])), report)
        } else {
            (records, report.push(ErrorView::IoError(p, cause_missing())))
        }
    }
}

/// The package of a change set between snapshot `a` and snapshot `b`, and
/// the report of the paths that were left out.
///
/// The entries are the records of the changed paths followed by those of
/// the added paths; the removed paths are those of the change set; the
/// label is that of the new version.
pub open spec fn build_package(
    cs: ChangeSetView,
    a: Map<Seq<char>, Seq<u8>>,
    b: Map<Seq<char>, Seq<u8>>,
) -> (PackageView, Seq<ErrorView>) {
    let changed = build_changed(cs.changed, a, b);
    let added = build_added(cs.added, b);
    (
        PackageView {
            format_version: FORMAT_VERSION,
            new_version: cs.new_version,
            entries: changed.0 + added.0,
            removed: cs.removed,
        },
        changed.1 + added.1,
    )
}

/// With nothing reported, the records of the changed paths stand for those
/// paths, each once and in order.
pub proof fn lemma_build_changed_paths(
    paths: Seq<Seq<char>>,
    a: Map<Seq<char>, Seq<u8>>,
    b: Map<Seq<char>, Seq<u8>>,
)
    ensures
        build_changed(paths, a, b).1.len() == 0 ==> delta_paths(build_changed(paths, a, b).0)
            == paths,
    decreases paths.len(),
{
    if paths.len() > 0 {
        let front = paths.drop_last();
        let p = paths.last();
        lemma_build_changed_paths(front, a, b);
        if build_changed(paths, a, b).1.len() == 0 {
            let before = build_changed(front, a, b);
            assert(a.contains_key(p) && b.contains_key(p));
            let record = changed_record(p, a[p], b[p]);
            assert(build_changed(paths, a, b).0 == before.0.push(record));
            assert(delta_paths(before.0.push(record)) =~= delta_paths(before.0).push(p));
            assert(front.push(p) =~= paths);
        }
    } else {
        assert(delta_paths(build_changed(paths, a, b).0) =~= paths);
    }
}

/// With nothing reported, the records of the added paths stand for those
/// paths, each once and in order.
pub proof fn lemma_build_added_paths(paths: Seq<Seq<char>>, b: Map<Seq<char>, Seq<u8>>)
    ensures
        build_added(paths, b).1.len() == 0 ==> delta_paths(build_added(paths, b).0) == paths,
    decreases paths.len(),
{
    if paths.len() > 0 {
        let front = paths.drop_last();
        let p = paths.last();
        lemma_build_added_paths(front, b);
        if build_added(paths, b).1.len() == 0 {
            let before = build_added(front, b);
            assert(b.contains_key(p));
            let record = literal_record(p, b[p]);
            assert(build_added(paths, b).0 == before.0.push(record));
            assert(delta_paths(before.0.push(record)) =~= delta_paths(before.0).push(p));
            assert(front.push(p) =~= paths);
        }
    } else {
        assert(delta_paths(build_added(paths, b).0) =~= paths);
    }
}

/// A package that was built with nothing reported covers its change set
/// exactly: its entries stand for the changed paths followed by the added
/// paths, and for nothing else.
pub proof fn lemma_build_coverage(
    cs: ChangeSetView,
    a: Map<Seq<char>, Seq<u8>>,
    b: Map<Seq<char>, Seq<u8>>,
)
    ensures
        build_package(cs, a, b).0.removed == cs.removed,
        build_package(cs, a, b).1.len() == 0 ==> delta_paths(build_package(cs, a, b).0.entries)
            == cs.changed + cs.added,
{
    lemma_build_changed_paths(cs.changed, a, b);
    lemma_build_added_paths(cs.added, b);
    if build_package(cs, a, b).1.len() == 0 {
        let changed = build_changed(cs.changed, a, b);
        let added = build_added(cs.added, b);
        assert(delta_paths(changed.0 + added.0) =~= delta_paths(changed.0) + delta_paths(added.0));
    }
}

/// Computes the delta record of a changed file from its old and its new
/// content.
pub fn diff_files(relative_path: &str, old: &[u8], new: &[u8]) -> (record: DeltaRecord)
    ensures
        record@ == changed_record(relative_path@, old@, new@),
{
    changed_delta(relative_path, sha256_digest(old), old, new)
}

/// Computes the delta record of a changed file, given the digest of its
/// old content: the payload starts with `digest`.
pub fn changed_delta(relative_path: &str, digest: Vec<u8>, old: &[u8], new: &[u8]) -> (record:
    DeltaRecord)
    ensures
        record@ == changed_record_with(relative_path@, digest@, old@, new@),
{
    let mut payload = digest;
    match create_diff(old, new) {
        Some((header, diff)) => {
            append_bytes(&mut payload, diff.as_slice());
            DeltaRecord {
                relative_path: relative_path.to_owned(),
                strategy: Strategy::RawSubtract,
                payload,
                header,
            }
        },
        None => {
            let patch = generic_diff(old, new);
            append_bytes(&mut payload, patch.as_slice());
            DeltaRecord {
                relative_path: relative_path.to_owned(),
                strategy: Strategy::GenericBinary,
                payload,
                header: Vec::new(),
            }
        },
    }
}

/// The delta record of an added file.
pub fn literal_delta(relative_path: &str, new: &[u8]) -> (record: DeltaRecord)
    ensures
        record@ == literal_record(relative_path@, new@),
{
    let mut payload: Vec<u8> = Vec::new();
    append_bytes(&mut payload, new);
    let record = DeltaRecord {
        relative_path: relative_path.to_owned(),
        strategy: Strategy::Literal,
        payload,
        header: Vec::new(),
    };
    assert(record@.payload =~= new@);
    record
}

/// Builds the package of a change set.
///
/// `tree_a` holds the files of the old snapshot, `tree_b` those of the new
/// one. Every changed path that both trees hold and every added path that
/// `tree_b` holds gets its record; a path whose file is missing is left
/// out of the package and listed in the report, and the batch goes on. With
/// an empty report the entries cover the changed and the added paths, each
/// once and in order, and nothing else.
pub fn diff_from_map(map: &PatchMapStructure, tree_a: &FileTree, tree_b: &FileTree) -> (out: (
    Package,
    Vec<PatchError>,
))
    ensures
        out.0@ == build_package(map@, tree_a@, tree_b@).0,
        report_view(out.1@) == build_package(map@, tree_a@, tree_b@).1,
        out.1@.len() == 0 ==> delta_paths(out.0@.entries) == map@.changed + map@.added,
        out.0@.removed == map@.removed,
{
    proof {
        lemma_build_coverage(map@, tree_a@, tree_b@);
    }
    let ghost cs = map@;
    let ghost a = tree_a@;
    let ghost b = tree_b@;
    let mut entries: Vec<DeltaRecord> = Vec::new();
    let mut report: Vec<PatchError> = Vec::new();
    let mut i: usize = 0;
    assert(cs.changed.take(0) =~= Seq::empty());
    assert(deltas_view(entries@) =~= build_changed(cs.changed.take(0), a, b).0);
    assert(report_view(report@) =~= build_changed(cs.changed.take(0), a, b).1);
    while i < map.changed_files.len()
        invariant
            i <= map.changed_files.len(),
            cs == map@,
            a == tree_a@,
            b == tree_b@,
            deltas_view(entries@) == build_changed(cs.changed.take(i as int), a, b).0,
            report_view(report@) == build_changed(cs.changed.take(i as int), a, b).1,
        decreases map.changed_files.len() - i,
    {
        let ghost now = cs.changed.take(i + 1);
        assert(now.drop_last() =~= cs.changed.take(i as int));
        assert(now.last() == map.changed_files[i as int]@);
        let path = map.changed_files[i].as_str();
        match (tree_a.get(path), tree_b.get(path)) {
            (Some(old), Some(new)) => {
                entries.push(diff_files(path, old.as_slice(), new.as_slice()));
                assert(deltas_view(entries@) =~= build_changed(now, a, b).0);
            },
            _ => {
                report.push(PatchError::IoError(path.to_owned(), "missing file".to_owned()));
                assert(report_view(report@) =~= build_changed(now, a, b).1);
            },
        }
        i += 1;
    }
    assert(cs.changed.take(map.changed_files.len() as int) =~= cs.changed);
    let ghost changed = build_changed(cs.changed, a, b);
    let mut j: usize = 0;
    assert(cs.added.take(0) =~= Seq::empty());
    assert(deltas_view(entries@) =~= changed.0 + build_added(cs.added.take(0), b).0);
    assert(report_view(report@) =~= changed.1 + build_added(cs.added.take(0), b).1);
    while j < map.added_files.len()
        invariant
            j <= map.added_files.len(),
            cs == map@,
            b == tree_b@,
            deltas_view(entries@) == changed.0 + build_added(cs.added.take(j as int), b).0,
            report_view(report@) == changed.1 + build_added(cs.added.take(j as int), b).1,
        decreases map.added_files.len() - j,
    {
        let ghost now = cs.added.take(j + 1);
        assert(now.drop_last() =~= cs.added.take(j as int));
        assert(now.last() == map.added_files[j as int]@);
        let path = map.added_files[j].as_str();
        let ghost before = build_added(cs.added.take(j as int), b);
        let ghost had_entries = deltas_view(entries@);
        let ghost had_report = report_view(report@);
        match tree_b.get(path) {
            Some(new) => {
                let record = literal_delta(path, new.as_slice());
                assert(build_added(now, b).0 == before.0.push(record@));
                entries.push(record);
                assert(deltas_view(entries@) =~= had_entries.push(record@));
                assert(deltas_view(entries@) =~= changed.0 + build_added(now, b).0);
            },
            None => {
                let error = PatchError::IoError(path.to_owned(), "missing file".to_owned());
                assert(build_added(now, b).1 == before.1.push(error@));
                report.push(error);
                assert(report_view(report@) =~= had_report.push(error@));
                assert(report_view(report@) =~= changed.1 + build_added(now, b).1);
            },
        }
        j += 1;
    }
    assert(cs.added.take(map.added_files.len() as int) =~= cs.added);
    let mut removed: Vec<String> = Vec::new();
    let mut k: usize = 0;
    while k < map.removed_files.len()
        invariant
            k <= map.removed_files.len(),
            cs == map@,
            names_view(removed@) == cs.removed.take(k as int),
        decreases map.removed_files.len() - k,
    {
        let ghost had = names_view(removed@);
        let name = map.removed_files[k].clone();
        assert(cs.removed[k as int] == name@);
        removed.push(name);
        assert(names_view(removed@) =~= had.push(cs.removed[k as int]));
        assert(names_view(removed@) =~= cs.removed.take(k + 1));
        k += 1;
    }
    assert(cs.removed.take(map.removed_files.len() as int) =~= cs.removed);
    let package = Package {
        format_version: FORMAT_VERSION,
        new_version: map.version.1.clone(),
        entries,
        removed,
    };
    (package, report)
}

} // verus!
