//! The patch applier: from a snapshot and a package to the next snapshot.

use vstd::prelude::*;
use vstd::slice::slice_subrange;
use crate::bytes::{copy_range, starts_with};
use crate::codec::{decode_package, encode_package};
use crate::dds_differ::{add_bytes, gzip_chunks, header_len, load_diff, patch_image, save_diff, texture_header_len, unpacked};
use crate::differ::{lemma_index_domain, lemma_index_value};
use crate::errors::{cause_missing, report_view, ErrorView, PatchError};
use crate::generic::{patch_file, replay};
use crate::hash::{digests, file_hash, sha256_digest, sha256_of};
use crate::map_struct::{record_paths, FileStructure, ManifestView};
use crate::package::{DeltaRecord, DeltaView, Package, PackageView, Strategy, FORMAT_VERSION};
use crate::tree::FileTree;
use crate::wire::{encodable, parse_package, ser_package};

verus! {

/// The content that a raw-subtraction record gives on a base, once the
/// digest at the front of its payload is taken off: the kept header and
/// the pixel region of the base with the difference added back. The base
/// has to be a texture whose header is as long as the kept one and whose
/// pixel region is as long as the difference; a record that does not match
/// its base in this is corrupt.
pub open spec fn apply_raw(base: Seq<u8>, header: Seq<u8>, diff: Seq<u8>) -> Result<
    Seq<u8>,
    ErrorView,
> {
    if texture_header_len(base) == Some(header.len() as int) && base.len() - header.len()
        == diff.len() {
        Ok(header + add_bytes(base.skip(header.len() as int), diff))
    } else {
        Err(ErrorView::CorruptPackage)
    }
}

/// The content that a generic record gives on a base, once the digest at
/// the front of its payload is taken off.
pub open spec fn apply_generic(base: Seq<u8>, patch: Seq<u8>) -> Result<Seq<u8>, ErrorView> {
    match replay(base, patch) {
        Some(new) => Ok(new),
        None => Err(ErrorView::CorruptPackage),
    }
}

/// The content that a record gives, applied to the file that stands at its
/// path.
///
/// A literal record gives its payload, whatever stands at the path. Any
/// other record needs a base: without one it is a missing-file error. Its
/// payload has to start with the digest of the base, else the base is not
/// the one that the delta was made from. What follows the digest is
/// applied by the strategy of the record.
pub open spec fn apply_record(base: Option<Seq<u8>>, e: DeltaView) -> Result<Seq<u8>, ErrorView> {
    if e.strategy == Strategy::Literal {
        Ok(e.payload)
    } else {
        match base {
            None => Err(ErrorView::IoError(e.path, cause_missing())),
            Some(b) => apply_to_base(b, sha256_of(b), e),
        }
    }
}

/// The content that a record which is not literal gives on a base with
/// the given digest.
pub open spec fn apply_to_base(base: Seq<u8>, digest: Seq<u8>, e: DeltaView) -> Result<
    Seq<u8>,
    ErrorView,
> {
    if !digest.is_prefix_of(e.payload) {
        Err(ErrorView::BaseMismatch(e.path))
    } else if e.strategy == Strategy::RawSubtract {
        apply_raw(base, e.header, e.payload.skip(digest.len() as int))
    } else {
        apply_generic(base, e.payload.skip(digest.len() as int))
    }
}

/// `tree` without the files at `paths`.
pub open spec fn remove_all(tree: Map<Seq<char>, Seq<u8>>, paths: Seq<Seq<char>>) -> Map<
    Seq<char>,
    Seq<u8>,
>
    decreases paths.len(),
{
    if paths.len() == 0 {
        tree
    } else {
        remove_all(tree, paths.drop_last()).remove(paths.last())
    }
}

/// The tree and the report after the records were applied in order. A
/// record that fails leaves the tree as it was and adds its error to the
/// report; the records behind it are applied all the same.
pub open spec fn apply_entries(tree: Map<Seq<char>, Seq<u8>>, entries: Seq<DeltaView>) -> (
    Map<Seq<char>, Seq<u8>>,
    Seq<ErrorView>,
)
    decreases entries.len(),
{
    if entries.len() == 0 {
        (tree, Seq::empty())
    } else {
        let (before, report) = apply_entries(tree, entries.drop_last());
        let e = entries.last();
        match apply_record(before.get(e.path), e) {
            Ok(content) => (before.insert(e.path, content), report),
            Err(error) => (before, report.push(error)),
        }
    }
}

/// The tree and the report after a package was applied.
///
/// A package of another format version is refused and changes nothing.
/// Otherwise the removed paths are deleted, then the records are applied
/// in order.
pub open spec fn apply_package(tree: Map<Seq<char>, Seq<u8>>, p: PackageView) -> (
    Map<Seq<char>, Seq<u8>>,
    Seq<ErrorView>,
) {
    if p.format_version != FORMAT_VERSION {
        (tree, seq![ErrorView::UnsupportedFormatVersion])
    } else {
        apply_entries(remove_all(tree, p.removed), p.entries)
    }
}

/// The base of a record, taken by its view.
pub open spec fn base_view(base: Option<&Vec<u8>>) -> Option<Seq<u8>> {
    match base {
        Some(b) => Some(b@),
        None => None,
    }
}

/// Applies one record to the file that stands at its path, `None` where
/// there is none.
///
/// Returns the new content of the file. The errors are: a missing-file
/// `IoError` where a record that needs a base has none; `BaseMismatch`
/// where the payload does not start with the digest of the base;
/// `CorruptPackage` where the base passes that test and the record still
/// cannot be applied to it.
pub fn apply_delta(base: Option<&Vec<u8>>, record: &DeltaRecord) -> (r: Result<Vec<u8>, PatchError>)
    ensures
        match r {
            Ok(content) => apply_record(base_view(base), record@) == Ok::<Seq<u8>, ErrorView>(
                content@,
            ),
            Err(e) => apply_record(base_view(base), record@) == Err::<Seq<u8>, ErrorView>(e@),
        },
{
    match record.strategy {
        Strategy::Literal => {
            let content = copy_range(record.payload.as_slice(), 0, record.payload.len());
            assert(content@ =~= record@.payload);
            return Ok(content);
        },
        _ => {},
    }
    match base {
        Some(b) => apply_checked(b.as_slice(), sha256_digest(b.as_slice()).as_slice(), record),
        None => Err(PatchError::IoError(record.relative_path.clone(), "missing file".to_owned())),
    }
}

/// Applies a record that is not literal to its base, given the digest of
/// the base.
///
/// `BaseMismatch` where the payload does not start with `digest`. Behind
/// the digest, a raw-subtraction record is `CorruptPackage` unless the
/// base is a texture whose header is as long as the kept one and whose
/// pixel region is as long as the difference; a generic record is
/// `CorruptPackage` where its replay rejects the stream.
pub fn apply_checked(base: &[u8], digest: &[u8], record: &DeltaRecord) -> (r: Result<
    Vec<u8>,
    PatchError,
>)
    ensures
        match r {
            Ok(content) => apply_to_base(base@, digest@, record@) == Ok::<Seq<u8>, ErrorView>(
                content@,
            ),
            Err(e) => apply_to_base(base@, digest@, record@) == Err::<Seq<u8>, ErrorView>(e@),
        },
{
    if !starts_with(record.payload.as_slice(), digest) {
        return Err(PatchError::BaseMismatch(record.relative_path.clone()));
    }
    let body = slice_subrange(record.payload.as_slice(), digest.len(), record.payload.len());
    assert(body@ =~= record@.payload.skip(digest@.len() as int));
    match record.strategy {
        Strategy::RawSubtract => {
            match header_len(base) {
                Some(h) => {
                    if h == record.header.len() && base.len() - h == body.len() {
                        let pixels = slice_subrange(base, h, base.len());
                        assert(pixels@ =~= base@.skip(h as int));
                        Ok(patch_image(record.header.as_slice(), pixels, body))
                    } else {
                        Err(PatchError::CorruptPackage)
                    }
                },
                None => Err(PatchError::CorruptPackage),
            }
        },
        _ => patch_file(base, body),
    }
}

/// Applies a package to a snapshot.
///
/// The files at the removed paths are deleted; a path that holds no file
/// is passed over. Then each record is applied to the file at its path,
/// in the order of the package, and its result is put at that path. A
/// record that fails changes nothing and adds its error to the report that
/// is returned; the other records are applied all the same. A package of
/// another format version than [`FORMAT_VERSION`] changes nothing and is
/// reported as `UnsupportedFormatVersion`.
pub fn patch_via_map(tree: &mut FileTree, package: &Package) -> (report: Vec<PatchError>)
    ensures
        final(tree)@ == apply_package(old(tree)@, package@).0,
        report_view(report@) == apply_package(old(tree)@, package@).1,
{
    let ghost start = tree@;
    let ghost p = package@;
    let mut report: Vec<PatchError> = Vec::new();
    if package.format_version != FORMAT_VERSION {
        report.push(PatchError::UnsupportedFormatVersion);
        assert(report_view(report@) =~= seq![ErrorView::UnsupportedFormatVersion]);
        return report;
    }
    let mut k: usize = 0;
    assert(p.removed.take(0) =~= Seq::empty());
    while k < package.removed.len()
        invariant
            k <= package.removed.len(),
            p == package@,
            report@.len() == 0,
            tree@ == remove_all(start, p.removed.take(k as int)),
        decreases package.removed.len() - k,
    {
        let ghost now = p.removed.take(k + 1);
        assert(now.drop_last() =~= p.removed.take(k as int));
        assert(now.last() == package.removed[k as int]@);
        tree.remove(package.removed[k].as_str());
        k += 1;
    }
    assert(p.removed.take(package.removed.len() as int) =~= p.removed);
    let ghost cleared = tree@;
    let mut i: usize = 0;
    assert(p.entries.take(0) =~= Seq::empty());
    assert(report_view(report@) =~= apply_entries(cleared, p.entries.take(0)).1);
    while i < package.entries.len()
        invariant
            i <= package.entries.len(),
            p == package@,
            tree@ == apply_entries(cleared, p.entries.take(i as int)).0,
            report_view(report@) == apply_entries(cleared, p.entries.take(i as int)).1,
        decreases package.entries.len() - i,
    {
        let ghost now = p.entries.take(i + 1);
        assert(now.drop_last() =~= p.entries.take(i as int));
        assert(now.last() == package.entries[i as int]@);
        let ghost had_report = report_view(report@);
        let record = &package.entries[i];
        let outcome = apply_delta(tree.get(record.relative_path.as_str()), record);
        match outcome {
            Ok(content) => {
                tree.insert(record.relative_path.clone(), content);
            },
            Err(error) => {
                let ghost ev = error@;
                report.push(error);
                assert(report_view(report@) =~= had_report.push(ev));
            },
        }
        i += 1;
    }
    assert(p.entries.take(package.entries.len() as int) =~= p.entries);
    report
}

/// The tree holds as many files as the manifest has records, and for each
/// record a file at its path with its hash.
pub open spec fn matches_manifest(tree: Map<Seq<char>, Seq<u8>>, m: ManifestView) -> bool {
    &&& tree.len() == m.files.len()
    &&& forall|i: int|
        0 <= i < m.files.len() ==> tree.contains_key((#[trigger] m.files[i]).path) && file_hash(
            tree[m.files[i].path],
        ) == m.files[i].hash
}

/// For a well-formed manifest and a tree of finitely many files,
/// [`matches_manifest`] says that the manifest of the tree is the given
/// one: the same paths with the same hashes.
pub proof fn lemma_matches_manifest(tree: Map<Seq<char>, Seq<u8>>, m: ManifestView)
    requires
        m.wf(),
        tree.dom().finite(),
    ensures
        matches_manifest(tree, m) <==> digests(tree) == m.index(),
{
    let paths = record_paths(m.files);
    assert(paths.no_duplicates());
    paths.unique_seq_to_set();
    vstd::seq_lib::seq_to_set_is_finite(paths);
    assert forall|p: Seq<char>| m.index().contains_key(p) <==> paths.to_set().contains(p) by {
        lemma_index_domain(m.files, p);
    }
    assert(m.index().dom() =~= paths.to_set());
    assert(digests(tree).dom() =~= tree.dom());
    if matches_manifest(tree, m) {
        assert forall|p: Seq<char>| paths.to_set().contains(p) implies tree.dom().contains(p) by {
            let i = choose|i: int| 0 <= i < paths.len() && paths[i] == p;
            assert(m.files[i].path == p);
        }
        vstd::set_lib::lemma_subset_equality(paths.to_set(), tree.dom());
        assert forall|p: Seq<char>| tree.contains_key(p) implies digests(tree)[p]
            == m.index()[p] by {
            let i = choose|i: int| 0 <= i < paths.len() && paths[i] == p;
            assert(m.files[i].path == p);
            lemma_index_value(m.files, i);
        }
        assert(digests(tree) =~= m.index());
    }
    if digests(tree) == m.index() {
        assert(tree.dom() =~= paths.to_set());
        assert forall|i: int| 0 <= i < m.files.len() implies tree.contains_key(
            (#[trigger] m.files[i]).path,
        ) && file_hash(tree[m.files[i].path]) == m.files[i].hash by {
            lemma_index_value(m.files, i);
            assert(paths[i] == m.files[i].path);
            assert(paths.to_set().contains(paths[i]));
            assert(digests(tree)[m.files[i].path] == file_hash(tree[m.files[i].path]));
        }
    }
}

/// Checks a snapshot against a manifest by hashing its files again.
///
/// Returns whether the snapshot holds as many files as the manifest has
/// records, and for each record a file at its path with its hash. For a
/// well-formed manifest this says that the manifest of the snapshot is the
/// given one.
pub fn verify_tree(tree: &FileTree, manifest: &FileStructure) -> (ok: bool)
    ensures
        ok == matches_manifest(tree@, manifest@),
        manifest.wf() && tree@.dom().finite() ==> (ok <==> digests(tree@) == manifest@.index()),
{
    proof {
        if manifest.wf() && tree@.dom().finite() {
            lemma_matches_manifest(tree@, manifest@);
        }
    }
    if tree.len() != manifest.files.len() {
        return false;
    }
    let mut i: usize = 0;
    while i < manifest.files.len()
        invariant
            i <= manifest.files.len(),
            tree@.len() == manifest@.files.len(),
            manifest.wf() && tree@.dom().finite() ==> (matches_manifest(tree@, manifest@)
                <==> digests(tree@) == manifest@.index()),
            forall|k: int|
                0 <= k < i ==> tree@.contains_key((#[trigger] manifest@.files[k]).path)
                    && file_hash(tree@[manifest@.files[k].path]) == manifest@.files[k].hash,
        decreases manifest.files.len() - i,
    {
        let record = &manifest.files[i];
        assert(manifest@.files[i as int] == record@);
        match tree.get(record.file_name.as_str()) {
            Some(content) => {
                let digest = sha256_digest(content.as_slice());
                let hash = crate::hash::hex_encode(digest.as_slice());
                if hash != record.hash {
                    return false;
                }
            },
            None => {
                return false;
            },
        }
        i += 1;
    }
    true
}

/// Writes a package to the bytes of a patch file: the wire layout of the
/// package, compressed chunk by chunk. The errors are those of
/// [`encode_package`].
pub fn write_patch_file(package: &Package) -> (r: Result<Vec<u8>, PatchError>)
    ensures
        r is Ok <==> encodable(package@),
        r matches Ok(file) ==> file@ == gzip_chunks(ser_package(package@)),
        r matches Err(e) ==> e@ == if package.format_version != FORMAT_VERSION {
            ErrorView::UnsupportedFormatVersion
        } else {
            ErrorView::CorruptPackage
        },
{
    match encode_package(package) {
        Ok(bytes) => Ok(save_diff(bytes.as_slice())),
        Err(e) => Err(e),
    }
}

/// Reads a package from the bytes of a patch file.
///
/// A file that the decompressor rejects is a `CorruptPackage`. Any other
/// file is read as [`decode_package`] reads what [`load_diff`] gives; so
/// an empty file, which holds no package, is a `CorruptPackage` too.
pub fn parse_patch_file(file: &[u8]) -> (r: Result<Package, PatchError>)
    ensures
        match unpacked(file@) {
            None => r matches Err(e) && e@ == ErrorView::CorruptPackage,
            Some(bytes) => match r {
                Ok(package) => parse_package(bytes) == Ok::<PackageView, ErrorView>(package@),
                Err(e) => parse_package(bytes) == Err::<PackageView, ErrorView>(e@),
            },
        },
{
    match load_diff(file) {
        Some(bytes) => decode_package(bytes.as_slice()),
        None => Err(PatchError::CorruptPackage),
    }
}

} // verus!
