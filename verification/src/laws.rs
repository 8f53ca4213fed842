//! What holds of the stages taken together: an update that is built from
//! two snapshots and applied to the old one gives the new one.

use vstd::prelude::*;
use crate::dds_differ::{lemma_subtract_add_round_trip, raw_subtract_applies, sub_bytes, texture_header_len};
use crate::diff_files::{build_added, build_changed, build_package, changed_record, literal_record};
use crate::generic::generic_delta;
use crate::differ::{diff_manifests, lemma_changed_from_list, lemma_changed_member, lemma_diff_wf, lemma_index_domain, lemma_index_value, lemma_missing_member};
use crate::errors::ErrorView;
use crate::generic::lemma_generic_round_trip;
use crate::hash::{describes, digests, file_hash, lemma_scan_distinct, lemma_scan_wf, scan_entries, sha256_of, WalkEntryView};
use crate::paths::normalized;
use crate::map_struct::{distinct, record_paths, ManifestView, RecordView};
use crate::package::{delta_paths, DeltaView};
use crate::patch_files::{apply_entries, apply_package, apply_record, remove_all};

verus! {

/// The walk lists the snapshot: each of its regular files brings what the
/// snapshot holds under its normalized path, as bytes or as the hash of
/// those bytes; no two of them share a normalized path; and every file of
/// the snapshot is among them.
pub open spec fn walk_of(entries: Seq<WalkEntryView>, tree: Map<Seq<char>, Seq<u8>>) -> bool {
    &&& forall|i: int|
        0 <= i < entries.len() && (#[trigger] entries[i]).is_regular_file ==> tree.contains_key(
            normalized(entries[i].path),
        ) && entries[i].content.hash() == Some(file_hash(tree[normalized(entries[i].path)]))
    &&& forall|i: int, j: int|
        0 <= i < j < entries.len() && (#[trigger] entries[i]).is_regular_file
            && (#[trigger] entries[j]).is_regular_file ==> normalized(entries[i].path)
            != normalized(entries[j].path)
    &&& forall|p: Seq<char>| #[trigger]
        tree.contains_key(p) ==> exists|i: int|
            0 <= i < entries.len() && (#[trigger] entries[i]).is_regular_file && normalized(
                entries[i].path,
            ) == p
}

/// Of a walk whose regular files are readable and distinct, every record
/// is that of a regular file, and every regular file has its record;
/// where all entries are regular files, nothing is reported.
proof fn lemma_scan_faithful(entries: Seq<WalkEntryView>, tree: Map<Seq<char>, Seq<u8>>)
    requires
        forall|i: int|
            0 <= i < entries.len() && (#[trigger] entries[i]).is_regular_file ==> tree.contains_key(
                normalized(entries[i].path),
            ) && entries[i].content.hash() == Some(file_hash(tree[normalized(entries[i].path)])),
        forall|i: int, j: int|
            0 <= i < j < entries.len() && (#[trigger] entries[i]).is_regular_file
                && (#[trigger] entries[j]).is_regular_file ==> normalized(entries[i].path)
                != normalized(entries[j].path),
    ensures
        (forall|i: int| 0 <= i < entries.len() ==> (#[trigger] entries[i]).is_regular_file)
            ==> scan_entries(entries).1.len() == 0,
        forall|k: int|
            0 <= k < scan_entries(entries).0.len() ==> {
                let r = #[trigger] scan_entries(entries).0[k];
                &&& tree.contains_key(r.path)
                &&& r.hash == file_hash(tree[r.path])
                &&& exists|i: int|
                    0 <= i < entries.len() && (#[trigger] entries[i]).is_regular_file && normalized(
                        entries[i].path,
                    ) == r.path
            },
        forall|i: int|
            0 <= i < entries.len() && (#[trigger] entries[i]).is_regular_file ==> record_paths(
                scan_entries(entries).0,
            ).contains(normalized(entries[i].path)),
    decreases entries.len(),
{
    if entries.len() > 0 {
        let front = entries.drop_last();
        let n = entries.len() - 1;
        let e = entries.last();
        assert forall|i: int| 0 <= i < front.len() && (#[trigger] front[i]).is_regular_file implies
            tree.contains_key(normalized(front[i].path)) && front[i].content.hash() == Some(
            file_hash(tree[normalized(front[i].path)]),
        ) by {
            assert(front[i] == entries[i]);
        }
        assert forall|i: int, j: int|
            0 <= i < j < front.len() && (#[trigger] front[i]).is_regular_file
                && (#[trigger] front[j]).is_regular_file implies normalized(front[i].path)
                != normalized(front[j].path) by {
            assert(front[i] == entries[i]);
            assert(front[j] == entries[j]);
        }
        lemma_scan_faithful(front, tree);
        if forall|i: int| 0 <= i < entries.len() ==> (#[trigger] entries[i]).is_regular_file {
            assert forall|i: int| 0 <= i < front.len() implies (#[trigger] front[i]).is_regular_file by {
                assert(front[i] == entries[i]);
            }
        }
        let before = scan_entries(front).0;
        let all = scan_entries(entries).0;
        let path = normalized(e.path);
        assert(entries[n] == e);
        if e.is_regular_file {
            assert(!record_paths(before).contains(path)) by {
                if record_paths(before).contains(path) {
                    let k = choose|k: int| 0 <= k < before.len() && record_paths(before)[k] == path;
                    let r = before[k];
                    let i = choose|i: int|
                        0 <= i < front.len() && (#[trigger] front[i]).is_regular_file && normalized(
                            front[i].path,
                        ) == r.path;
                    assert(front[i] == entries[i]);
                }
            }
            assert(all == before.push(RecordView { path, hash: file_hash(tree[path]) }));
        } else {
            assert(all == before);
        }
        assert forall|k: int| 0 <= k < all.len() implies {
            let r = #[trigger] all[k];
            &&& tree.contains_key(r.path)
            &&& r.hash == file_hash(tree[r.path])
            &&& exists|i: int|
                0 <= i < entries.len() && (#[trigger] entries[i]).is_regular_file && normalized(
                    entries[i].path,
                ) == r.path
        } by {
            if k < before.len() {
                let r = before[k];
                assert(all[k] == r);
                let i = choose|i: int|
                    0 <= i < front.len() && (#[trigger] front[i]).is_regular_file && normalized(
                        front[i].path,
                    ) == r.path;
                assert(front[i] == entries[i]);
            }
        }
        assert forall|i: int|
            0 <= i < entries.len() && (#[trigger] entries[i]).is_regular_file implies record_paths(
            all,
        ).contains(normalized(entries[i].path)) by {
            if i < n {
                assert(front[i] == entries[i]);
                let q = normalized(entries[i].path);
                let k = choose|k: int| 0 <= k < before.len() && record_paths(before)[k] == q;
                assert(record_paths(all)[k] == q);
            } else {
                assert(record_paths(all)[before.len() as int] == path);
            }
        }
    }
}

/// The manifest that is built from a walk of a snapshot describes the
/// snapshot; where the walk yields regular files only, nothing is
/// reported.
pub proof fn lemma_walked_manifest_describes(
    version: Seq<char>,
    entries: Seq<WalkEntryView>,
    tree: Map<Seq<char>, Seq<u8>>,
)
    requires
        walk_of(entries, tree),
    ensures
        describes(ManifestView { version, files: scan_entries(entries).0 }, tree),
        (forall|i: int| 0 <= i < entries.len() ==> (#[trigger] entries[i]).is_regular_file)
            ==> scan_entries(entries).1.len() == 0,
{
    lemma_scan_faithful(entries, tree);
    lemma_scan_wf(version, entries);
    lemma_scan_distinct(entries);
    let records = scan_entries(entries).0;
    let m = ManifestView { version, files: records };
    assert forall|p: Seq<char>| m.index().contains_key(p) <==> tree.contains_key(p) by {
        lemma_index_domain(records, p);
        if record_paths(records).contains(p) {
            let k = choose|k: int| 0 <= k < records.len() && record_paths(records)[k] == p;
            assert(records[k].path == p);
        }
        if tree.contains_key(p) {
            let i = choose|i: int|
                0 <= i < entries.len() && (#[trigger] entries[i]).is_regular_file && normalized(
                    entries[i].path,
                ) == p;
        }
    }
    assert forall|p: Seq<char>| m.index().contains_key(p) implies m.index()[p] == digests(
        tree,
    )[p] by {
        lemma_index_domain(records, p);
        let k = choose|k: int| 0 <= k < records.len() && record_paths(records)[k] == p;
        assert(records[k].path == p);
        lemma_index_value(records, k);
    }
    assert(m.index() =~= digests(tree));
}

/// A literal record gives its content, whatever it is applied to.
pub proof fn lemma_literal_applies(base: Option<Seq<u8>>, path: Seq<char>, new: Seq<u8>)
    ensures
        apply_record(base, literal_record(path, new)) == Ok::<Seq<u8>, ErrorView>(new),
{
}

/// The record of a changed file, applied to the old content, gives the new
/// content: by raw subtraction for a pair of textures of one layout, by the
/// generic strategy for any other pair.
pub proof fn lemma_changed_applies(path: Seq<char>, old: Seq<u8>, new: Seq<u8>)
    ensures
        apply_record(Some(old), changed_record(path, old, new)) == Ok::<Seq<u8>, ErrorView>(new),
{
    let e = changed_record(path, old, new);
    let digest = sha256_of(old);
    assert(e.payload.subrange(0, digest.len() as int) =~= digest);
    assert(digest.is_prefix_of(e.payload));
    if raw_subtract_applies(old, new) {
        let h = texture_header_len(new)->0;
        let body = sub_bytes(new.skip(h), old.skip(h));
        assert(e.payload.skip(digest.len() as int) =~= body);
        lemma_subtract_add_round_trip(old.skip(h), new.skip(h));
        assert(e.header.len() == h);
        assert(new.take(h) + new.skip(h) =~= new);
    } else {
        lemma_generic_round_trip(old, new);
        assert(e.payload.skip(digest.len() as int) =~= generic_delta(old, new));
    }
}

/// Where both snapshots hold every changed path, each gets its record and
/// nothing is reported.
pub proof fn lemma_build_changed_complete(
    paths: Seq<Seq<char>>,
    a: Map<Seq<char>, Seq<u8>>,
    b: Map<Seq<char>, Seq<u8>>,
)
    requires
        forall|i: int|
            0 <= i < paths.len() ==> a.contains_key(#[trigger] paths[i]) && b.contains_key(
                paths[i],
            ),
    ensures
        build_changed(paths, a, b).1.len() == 0,
        build_changed(paths, a, b).0.len() == paths.len(),
        forall|i: int|
            0 <= i < paths.len() ==> #[trigger] build_changed(paths, a, b).0[i] == changed_record(
                paths[i],
                a[paths[i]],
                b[paths[i]],
            ),
    decreases paths.len(),
{
    if paths.len() > 0 {
        let front = paths.drop_last();
        assert forall|i: int| 0 <= i < front.len() implies a.contains_key(#[trigger] front[i])
            && b.contains_key(front[i]) by {
            assert(front[i] == paths[i]);
        }
        lemma_build_changed_complete(front, a, b);
        assert(a.contains_key(paths[paths.len() - 1]));
    }
}

/// Where the new snapshot holds every added path, each gets its record and
/// nothing is reported.
pub proof fn lemma_build_added_complete(paths: Seq<Seq<char>>, b: Map<Seq<char>, Seq<u8>>)
    requires
        forall|i: int| 0 <= i < paths.len() ==> b.contains_key(#[trigger] paths[i]),
    ensures
        build_added(paths, b).1.len() == 0,
        build_added(paths, b).0.len() == paths.len(),
        forall|i: int|
            0 <= i < paths.len() ==> #[trigger] build_added(paths, b).0[i] == literal_record(
                paths[i],
                b[paths[i]],
            ),
    decreases paths.len(),
{
    if paths.len() > 0 {
        let front = paths.drop_last();
        assert forall|i: int| 0 <= i < front.len() implies b.contains_key(#[trigger] front[i]) by {
            assert(front[i] == paths[i]);
        }
        lemma_build_added_complete(front, b);
        assert(b.contains_key(paths[paths.len() - 1]));
    }
}

/// Removing a list of paths takes exactly those paths away.
pub proof fn lemma_remove_all(tree: Map<Seq<char>, Seq<u8>>, paths: Seq<Seq<char>>)
    ensures
        forall|q: Seq<char>| #[trigger]
            remove_all(tree, paths).contains_key(q) <==> tree.contains_key(q) && !paths.contains(q),
        forall|q: Seq<char>| #[trigger]
            remove_all(tree, paths).contains_key(q) ==> remove_all(tree, paths)[q] == tree[q],
    decreases paths.len(),
{
    if paths.len() > 0 {
        let front = paths.drop_last();
        lemma_remove_all(tree, front);
        let prev = remove_all(tree, front);
        let now = remove_all(tree, paths);
        assert(now == prev.remove(paths.last()));
        assert forall|q: Seq<char>| #[trigger]
            now.contains_key(q) <==> tree.contains_key(q) && !paths.contains(q) by {
            assert(prev.contains_key(q) <==> tree.contains_key(q) && !front.contains(q));
            if paths.contains(q) {
                let i = choose|i: int| 0 <= i < paths.len() && paths[i] == q;
                if i < front.len() {
                    assert(front[i] == q);
                }
            }
            if front.contains(q) {
                let i = choose|i: int| 0 <= i < front.len() && front[i] == q;
                assert(paths[i] == q);
            }
            assert(paths[paths.len() - 1] == paths.last());
        }
        assert forall|q: Seq<char>| #[trigger] now.contains_key(q) implies now[q] == tree[q] by {
            assert(prev.contains_key(q));
        }
    }
}

/// Records with distinct paths, each of which succeeds on the tree as it
/// stands, all succeed when applied in order: the tree holds their results
/// at their paths and is unchanged elsewhere, and nothing is reported.
pub proof fn lemma_apply_succeeds(
    tree: Map<Seq<char>, Seq<u8>>,
    entries: Seq<DeltaView>,
    contents: Seq<Seq<u8>>,
)
    requires
        entries.len() == contents.len(),
        distinct(delta_paths(entries)),
        forall|i: int|
            0 <= i < entries.len() ==> apply_record(
                tree.get((#[trigger] entries[i]).path),
                entries[i],
            ) == Ok::<Seq<u8>, ErrorView>(contents[i]),
    ensures
        apply_entries(tree, entries).1.len() == 0,
        forall|q: Seq<char>| #[trigger]
            apply_entries(tree, entries).0.contains_key(q) <==> tree.contains_key(q) || delta_paths(
                entries,
            ).contains(q),
        forall|i: int|
            0 <= i < entries.len() ==> apply_entries(tree, entries).0[(#[trigger] entries[i]).path]
                == contents[i],
        forall|q: Seq<char>|
            tree.contains_key(q) && !delta_paths(entries).contains(q) ==> #[trigger] apply_entries(
                tree,
                entries,
            ).0[q] == tree[q],
    decreases entries.len(),
{
    if entries.len() > 0 {
        let front = entries.drop_last();
        let cfront = contents.drop_last();
        let e = entries.last();
        let n = entries.len() - 1;
        let paths = delta_paths(entries);
        let fpaths = delta_paths(front);
        assert forall|i: int, j: int| 0 <= i < j < fpaths.len() implies fpaths[i] != fpaths[j] by {
            assert(paths[i] != paths[j]);
        }
        assert forall|i: int| 0 <= i < front.len() implies apply_record(
            tree.get((#[trigger] front[i]).path),
            front[i],
        ) == Ok::<Seq<u8>, ErrorView>(cfront[i]) by {
            assert(front[i] == entries[i]);
        }
        lemma_apply_succeeds(tree, front, cfront);
        let before = apply_entries(tree, front).0;
        assert(!fpaths.contains(e.path)) by {
            if fpaths.contains(e.path) {
                let k = choose|k: int| 0 <= k < fpaths.len() && fpaths[k] == e.path;
                assert(paths[k] != paths[n]);
            }
        }
        assert(before.get(e.path) == tree.get(e.path));
        assert(entries[n] == e);
        let after = before.insert(e.path, contents[n]);
        assert(apply_entries(tree, entries).0 == after);
        assert forall|q: Seq<char>| #[trigger]
            after.contains_key(q) <==> tree.contains_key(q) || paths.contains(q) by {
            assert(paths[n] == e.path);
            if fpaths.contains(q) {
                let k = choose|k: int| 0 <= k < fpaths.len() && fpaths[k] == q;
                assert(paths[k] == q);
            }
            if paths.contains(q) {
                let k = choose|k: int| 0 <= k < paths.len() && paths[k] == q;
                if k < n {
                    assert(fpaths[k] == q);
                }
            }
        }
        assert forall|i: int| 0 <= i < entries.len() implies after[(#[trigger] entries[i]).path]
            == contents[i] by {
            if i < n {
                assert(paths[i] != paths[n]);
                assert(front[i] == entries[i]);
                assert(before[front[i].path] == cfront[i]);
            }
        }
        assert forall|q: Seq<char>| tree.contains_key(q) && !paths.contains(q) implies after[q]
            == tree[q] by {
            assert(paths[n] == e.path);
            if fpaths.contains(q) {
                let k = choose|k: int| 0 <= k < fpaths.len() && fpaths[k] == q;
                assert(paths[k] == q);
            }
        }
    }
}

/// An update built from two snapshots and applied to the old one gives the
/// new one.
///
/// Let `ma` describe snapshot `a` and `mb` describe snapshot `b`. The
/// package built from their change set leaves no file out: its entries are
/// the changed paths followed by the added paths, its removed paths are
/// those of the change set. Applied to `a`, it reports nothing, puts the
/// content that `b` holds at every changed and every added path, and gives
/// a tree whose manifest is that of `b`: the same paths with the same
/// hashes.
pub proof fn lemma_update_reproduces(
    a: Map<Seq<char>, Seq<u8>>,
    b: Map<Seq<char>, Seq<u8>>,
    ma: ManifestView,
    mb: ManifestView,
)
    requires
        describes(ma, a),
        describes(mb, b),
    ensures
        ({
            let cs = diff_manifests(ma, mb);
            let built = build_package(cs, a, b);
            let applied = apply_package(a, built.0);
            &&& built.1.len() == 0
            &&& delta_paths(built.0.entries) == cs.changed + cs.added
            &&& built.0.removed == cs.removed
            &&& applied.1.len() == 0
            &&& forall|p: Seq<char>|
                cs.changed.contains(p) || cs.added.contains(p) ==> #[trigger] applied.0[p] == b[p]
            &&& digests(applied.0) == mb.index()
        }),
{
    let cs = diff_manifests(ma, mb);
    let built = build_package(cs, a, b);
    let applied = apply_package(a, built.0);
    lemma_diff_wf(ma, mb);
    assert(ma.index().dom() =~= a.dom());
    assert(mb.index().dom() =~= b.dom());

    // where the paths of the change set stand
    assert forall|p: Seq<char>| cs.changed.contains(p) implies a.contains_key(p) && b.contains_key(
        p,
    ) by {
        lemma_changed_from_list(ma.files, mb.index(), p);
        lemma_index_domain(ma.files, p);
        assert(ma.index().dom().contains(p));
        assert(mb.index().dom().contains(p));
    }
    assert forall|p: Seq<char>| cs.added.contains(p) implies b.contains_key(p) && !a.contains_key(
        p,
    ) by {
        lemma_missing_member(mb.files, ma.index(), p);
        lemma_index_domain(mb.files, p);
        assert(mb.index().dom().contains(p));
        assert(!ma.index().dom().contains(p));
    }
    assert forall|p: Seq<char>| cs.removed.contains(p) implies a.contains_key(p) && !b.contains_key(
        p,
    ) by {
        lemma_missing_member(ma.files, mb.index(), p);
        lemma_index_domain(ma.files, p);
        assert(ma.index().dom().contains(p));
        assert(!mb.index().dom().contains(p));
    }

    // the package leaves nothing out
    assert forall|i: int| 0 <= i < cs.changed.len() implies a.contains_key(
        #[trigger] cs.changed[i],
    ) && b.contains_key(cs.changed[i]) by {
        assert(cs.changed.contains(cs.changed[i]));
    }
    assert forall|i: int| 0 <= i < cs.added.len() implies b.contains_key(
        #[trigger] cs.added[i],
    ) by {
        assert(cs.added.contains(cs.added[i]));
    }
    lemma_build_changed_complete(cs.changed, a, b);
    lemma_build_added_complete(cs.added, b);
    let changed = build_changed(cs.changed, a, b).0;
    let added = build_added(cs.added, b).0;
    let entries = built.0.entries;
    assert(entries == changed + added);
    let paths = delta_paths(entries);
    assert(paths =~= cs.changed + cs.added) by {
        assert forall|i: int| 0 <= i < paths.len() implies paths[i] == (cs.changed + cs.added)[i] by {
            if i < changed.len() {
                assert(entries[i] == changed[i]);
            } else {
                assert(entries[i] == added[i - changed.len()]);
            }
        }
    }
    assert(built.1 =~= Seq::<ErrorView>::empty());

    // every record succeeds on the tree without the removed files
    let cleared = remove_all(a, cs.removed);
    lemma_remove_all(a, cs.removed);
    let contents = Seq::new(entries.len(), |i: int| b[paths[i]]);
    assert forall|i: int, j: int| 0 <= i < j < paths.len() implies paths[i] != paths[j] by {
        if j < cs.changed.len() {
            assert(cs.changed[i] != cs.changed[j]);
        } else if i >= cs.changed.len() {
            assert(cs.added[i - cs.changed.len()] != cs.added[j - cs.changed.len()]);
        } else {
            assert(cs.changed.contains(cs.changed[i]));
            assert(cs.added.contains(cs.added[j - cs.changed.len()]));
        }
    }
    assert forall|i: int| 0 <= i < entries.len() implies apply_record(
        cleared.get((#[trigger] entries[i]).path),
        entries[i],
    ) == Ok::<Seq<u8>, ErrorView>(contents[i]) by {
        if i < changed.len() {
            let p = cs.changed[i];
            assert(entries[i] == changed[i]);
            assert(cs.changed.contains(p));
            assert(!cs.removed.contains(p));
            assert(cleared.contains_key(p));
            assert(cleared.get(p) == Some(a[p]));
            lemma_changed_applies(p, a[p], b[p]);
        } else {
            let p = cs.added[i - changed.len()];
            assert(entries[i] == added[i - changed.len()]);
            lemma_literal_applies(cleared.get(p), p, b[p]);
        }
    }
    lemma_apply_succeeds(cleared, entries, contents);
    let tree = applied.0;
    assert(tree == apply_entries(cleared, entries).0);
    assert(applied.1 =~= Seq::<ErrorView>::empty());

    assert forall|p: Seq<char>| cs.changed.contains(p) || cs.added.contains(p) implies tree[p]
        == b[p] by {
        let both = cs.changed + cs.added;
        if cs.changed.contains(p) {
            let i = choose|i: int| 0 <= i < cs.changed.len() && cs.changed[i] == p;
            assert(both[i] == p);
            assert(entries[i].path == p);
        } else {
            let i = choose|i: int| 0 <= i < cs.added.len() && cs.added[i] == p;
            assert(both[cs.changed.len() + i] == p);
            assert(entries[cs.changed.len() + i].path == p);
        }
    }

    // the manifest of the result is that of the new snapshot
    assert forall|q: Seq<char>| paths.contains(q) <==> cs.changed.contains(q) || cs.added.contains(
        q,
    ) by {
        let both = cs.changed + cs.added;
        if both.contains(q) {
            let i = choose|i: int| 0 <= i < both.len() && both[i] == q;
            if i < cs.changed.len() {
                assert(cs.changed[i] == q);
            } else {
                assert(cs.added[i - cs.changed.len()] == q);
            }
        }
        if cs.changed.contains(q) {
            let i = choose|i: int| 0 <= i < cs.changed.len() && cs.changed[i] == q;
            assert(both[i] == q);
        }
        if cs.added.contains(q) {
            let i = choose|i: int| 0 <= i < cs.added.len() && cs.added[i] == q;
            assert(both[cs.changed.len() + i] == q);
        }
    }
    assert forall|q: Seq<char>| tree.contains_key(q) <==> b.contains_key(q) by {
        lemma_missing_member(ma.files, mb.index(), q);
        lemma_missing_member(mb.files, ma.index(), q);
        lemma_index_domain(ma.files, q);
        lemma_index_domain(mb.files, q);
        assert(ma.index().dom().contains(q) <==> a.contains_key(q));
        assert(mb.index().dom().contains(q) <==> b.contains_key(q));
    }
    assert forall|q: Seq<char>| tree.contains_key(q) implies file_hash(tree[q]) == file_hash(
        b[q],
    ) by {
        if cs.changed.contains(q) || cs.added.contains(q) {
        } else {
            assert(!paths.contains(q));
            assert(cleared.contains_key(q));
            assert(tree[q] == cleared[q]);
            assert(cleared[q] == a[q]);
            // present on both sides and not listed as changed: the hashes agree
            lemma_index_domain(ma.files, q);
            assert(ma.index().dom().contains(q));
            let i = choose|i: int| 0 <= i < ma.files.len() && record_paths(ma.files)[i] == q;
            lemma_index_value(ma.files, i);
            lemma_changed_member(ma.files, mb.index(), q);
            assert(mb.index().dom().contains(q));
            assert(ma.files[i].path == q);
            assert(ma.index()[q] == file_hash(a[q]));
            assert(mb.index()[q] == file_hash(b[q]));
        }
    }
    assert(digests(tree) =~= digests(b));
}

} // verus!
