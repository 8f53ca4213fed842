//! The manifest differ: the mathematical definition of a change set and the
//! facts that hold of it.

use vstd::prelude::*;
use crate::map_struct::{distinct, index_of, record_paths, ChangeSetView, ManifestView, RecordView};

verus! {

/// The paths of those records of `files`, in order, that `other` does not
/// hold.
pub open spec fn paths_missing(files: Seq<RecordView>, other: Map<Seq<char>, Seq<char>>) -> Seq<
    Seq<char>,
>
    decreases files.len(),
{
    if files.len() == 0 {
        Seq::empty()
    } else {
        let before = paths_missing(files.drop_last(), other);
        let r = files.last();
        if other.contains_key(r.path) {
            before
        } else {
            before.push(r.path)
        }
    }
}

/// The paths of those records of `files`, in order, that `other` holds with
/// another hash.
pub open spec fn paths_changed(files: Seq<RecordView>, other: Map<Seq<char>, Seq<char>>) -> Seq<
    Seq<char>,
>
    decreases files.len(),
{
    if files.len() == 0 {
        Seq::empty()
    } else {
        let before = paths_changed(files.drop_last(), other);
        let r = files.last();
        if other.contains_key(r.path) && other[r.path] != r.hash {
            before.push(r.path)
        } else {
            before
        }
    }
}

/// The change set that leads from manifest `old` to manifest `new`.
pub open spec fn diff_manifests(old: ManifestView, new: ManifestView) -> ChangeSetView {
    ChangeSetView {
        old_version: old.version,
        new_version: new.version,
        changed: paths_changed(old.files, new.index()),
        removed: paths_missing(old.files, new.index()),
        added: paths_missing(new.files, old.index()),
    }
}

/// The index of a record list holds exactly the paths of the list.
pub proof fn lemma_index_domain(files: Seq<RecordView>, p: Seq<char>)
    ensures
        index_of(files).contains_key(p) <==> record_paths(files).contains(p),
    decreases files.len(),
{
    if files.len() == 0 {
    } else {
        let front = files.drop_last();
        lemma_index_domain(front, p);
        let r = files.last();
        if record_paths(files).contains(p) {
            let i = choose|i: int| 0 <= i < files.len() && record_paths(files)[i] == p;
            if i < front.len() {
                assert(record_paths(front)[i] == p);
            }
        }
        if record_paths(front).contains(p) {
            let i = choose|i: int| 0 <= i < front.len() && record_paths(front)[i] == p;
            assert(record_paths(files)[i] == p);
        }
        if r.path == p {
            assert(record_paths(files)[files.len() - 1] == p);
        }
    }
}

/// In a list without duplicate paths the index gives each record its own
/// hash.
pub proof fn lemma_index_value(files: Seq<RecordView>, i: int)
    requires
        distinct(record_paths(files)),
        0 <= i < files.len(),
    ensures
        index_of(files).contains_key(files[i].path),
        index_of(files)[files[i].path] == files[i].hash,
    decreases files.len(),
{
    let front = files.drop_last();
    let r = files.last();
    assert forall|a: int, b: int| 0 <= a < b < front.len() implies record_paths(front)[a]
        != record_paths(front)[b] by {
        assert(record_paths(files)[a] != record_paths(files)[b]);
    }
    if i < front.len() {
        lemma_index_value(front, i);
        assert(record_paths(files)[i] != record_paths(files)[files.len() - 1]);
    } else {
        lemma_index_domain(front, r.path);
        if record_paths(front).contains(r.path) {
            let k = choose|k: int| 0 <= k < front.len() && record_paths(front)[k] == r.path;
            assert(record_paths(files)[k] != record_paths(files)[files.len() - 1]);
        }
    }
}

/// A path is listed by [`paths_missing`] exactly when the list holds it and
/// the other index does not.
pub proof fn lemma_missing_member(
    files: Seq<RecordView>,
    other: Map<Seq<char>, Seq<char>>,
    p: Seq<char>,
)
    ensures
        paths_missing(files, other).contains(p) <==> record_paths(files).contains(p)
            && !other.contains_key(p),
    decreases files.len(),
{
    if files.len() == 0 {
    } else {
        let front = files.drop_last();
        let r = files.last();
        lemma_missing_member(front, other, p);
        let before = paths_missing(front, other);
        let all = paths_missing(files, other);
        if record_paths(files).contains(p) {
            let i = choose|i: int| 0 <= i < files.len() && record_paths(files)[i] == p;
            if i < front.len() {
                assert(record_paths(front)[i] == p);
            }
        }
        if record_paths(front).contains(p) {
            let i = choose|i: int| 0 <= i < front.len() && record_paths(front)[i] == p;
            assert(record_paths(files)[i] == p);
        }
        assert(record_paths(files)[files.len() - 1] == r.path);
        if other.contains_key(r.path) {
        } else {
            assert(all == before.push(r.path));
            if before.contains(p) {
                let i = choose|i: int| 0 <= i < before.len() && before[i] == p;
                assert(all[i] == p);
            }
            assert(all[before.len() as int] == r.path);
            if all.contains(p) {
                let i = choose|i: int| 0 <= i < all.len() && all[i] == p;
                if i < before.len() {
                    assert(before[i] == p);
                }
            }
        }
    }
}

/// A path is listed by [`paths_changed`] exactly when some record of the
/// list has it and the other index holds it with another hash.
pub proof fn lemma_changed_member(
    files: Seq<RecordView>,
    other: Map<Seq<char>, Seq<char>>,
    p: Seq<char>,
)
    ensures
        paths_changed(files, other).contains(p) <==> other.contains_key(p) && exists|i: int|
            0 <= i < files.len() && #[trigger] files[i].path == p && files[i].hash != other[p],
    decreases files.len(),
{
    if files.len() == 0 {
    } else {
        let front = files.drop_last();
        let r = files.last();
        lemma_changed_member(front, other, p);
        let before = paths_changed(front, other);
        let all = paths_changed(files, other);
        let hit = |l: Seq<RecordView>|
            exists|i: int| 0 <= i < l.len() && #[trigger] l[i].path == p && l[i].hash != other[p];
        if hit(front) {
            let i = choose|i: int|
                0 <= i < front.len() && #[trigger] front[i].path == p && front[i].hash != other[p];
            assert(files[i].path == p && files[i].hash != other[p]);
        }
        if hit(files) {
            let i = choose|i: int|
                0 <= i < files.len() && #[trigger] files[i].path == p && files[i].hash != other[p];
            if i < front.len() {
                assert(front[i].path == p && front[i].hash != other[p]);
            }
        }
        if other.contains_key(r.path) && other[r.path] != r.hash {
            assert(all == before.push(r.path));
            if before.contains(p) {
                let i = choose|i: int| 0 <= i < before.len() && before[i] == p;
                assert(all[i] == p);
            }
            assert(all[before.len() as int] == r.path);
            assert(files[files.len() - 1].path == r.path);
            if all.contains(p) {
                let i = choose|i: int| 0 <= i < all.len() && all[i] == p;
                if i < before.len() {
                    assert(before[i] == p);
                }
            }
        } else {
            assert(files[files.len() - 1] == r);
        }
    }
}

/// Every path listed by [`paths_changed`] is a path of the list.
pub proof fn lemma_changed_from_list(
    files: Seq<RecordView>,
    other: Map<Seq<char>, Seq<char>>,
    p: Seq<char>,
)
    requires
        paths_changed(files, other).contains(p),
    ensures
        record_paths(files).contains(p),
        other.contains_key(p),
{
    lemma_changed_member(files, other, p);
    let i = choose|i: int|
        0 <= i < files.len() && #[trigger] files[i].path == p && files[i].hash != other[p];
    assert(record_paths(files)[i] == p);
}

/// The front of a list without duplicate paths has no duplicate paths.
pub proof fn lemma_distinct_front(files: Seq<RecordView>)
    requires
        distinct(record_paths(files)),
        files.len() > 0,
    ensures
        distinct(record_paths(files.drop_last())),
{
    let front = files.drop_last();
    assert forall|a: int, b: int| 0 <= a < b < front.len() implies record_paths(front)[a]
        != record_paths(front)[b] by {
        assert(record_paths(files)[a] != record_paths(files)[b]);
    }
}

/// From a list without duplicate paths, [`paths_missing`] and
/// [`paths_changed`] select without duplicates.
pub proof fn lemma_selection_distinct(files: Seq<RecordView>, other: Map<Seq<char>, Seq<char>>)
    requires
        distinct(record_paths(files)),
    ensures
        distinct(paths_missing(files, other)),
        distinct(paths_changed(files, other)),
    decreases files.len(),
{
    if files.len() == 0 {
    } else {
        let front = files.drop_last();
        let r = files.last();
        lemma_distinct_front(files);
        lemma_selection_distinct(front, other);
        lemma_missing_member(front, other, r.path);
        if paths_changed(front, other).contains(r.path) {
            lemma_changed_from_list(front, other, r.path);
        }
        if record_paths(front).contains(r.path) {
            let k = choose|k: int| 0 <= k < front.len() && record_paths(front)[k] == r.path;
            assert(record_paths(files)[k] != record_paths(files)[files.len() - 1]);
        }
        let m = paths_missing(front, other);
        let c = paths_changed(front, other);
        assert(!m.contains(r.path));
        assert(!c.contains(r.path));
        assert forall|a: int, b: int| 0 <= a < b < m.push(r.path).len() implies m.push(r.path)[a]
            != m.push(r.path)[b] by {
            if b == m.len() {
                assert(m[a] == m.push(r.path)[a]);
                assert(m.contains(m[a]));
            }
        }
        assert forall|a: int, b: int| 0 <= a < b < c.push(r.path).len() implies c.push(r.path)[a]
            != c.push(r.path)[b] by {
            if b == c.len() {
                assert(c[a] == c.push(r.path)[a]);
                assert(c.contains(c[a]));
            }
        }
    }
}

/// No path of a change set stands in two of its lists, whatever the two
/// manifests hold.
pub proof fn lemma_diff_disjoint(old: ManifestView, new: ManifestView)
    ensures
        ({
            let cs = diff_manifests(old, new);
            &&& forall|p: Seq<char>| !(cs.changed.contains(p) && cs.removed.contains(p))
            &&& forall|p: Seq<char>| !(cs.changed.contains(p) && cs.added.contains(p))
            &&& forall|p: Seq<char>| !(cs.removed.contains(p) && cs.added.contains(p))
        }),
{
    let cs = diff_manifests(old, new);
    assert forall|p: Seq<char>| !(cs.changed.contains(p) && cs.removed.contains(p)) by {
        lemma_missing_member(old.files, new.index(), p);
        if cs.changed.contains(p) {
            lemma_changed_from_list(old.files, new.index(), p);
        }
    }
    assert forall|p: Seq<char>| !(cs.changed.contains(p) && cs.added.contains(p)) by {
        lemma_missing_member(new.files, old.index(), p);
        lemma_index_domain(old.files, p);
        if cs.changed.contains(p) {
            lemma_changed_from_list(old.files, new.index(), p);
        }
    }
    assert forall|p: Seq<char>| !(cs.removed.contains(p) && cs.added.contains(p)) by {
        lemma_missing_member(old.files, new.index(), p);
        lemma_missing_member(new.files, old.index(), p);
        lemma_index_domain(old.files, p);
    }
}

/// The change set between two well-formed manifests is well formed.
pub proof fn lemma_diff_wf(old: ManifestView, new: ManifestView)
    requires
        old.wf(),
        new.wf(),
    ensures
        diff_manifests(old, new).wf(),
{
    lemma_diff_disjoint(old, new);
    lemma_selection_distinct(old.files, new.index());
    lemma_selection_distinct(new.files, old.index());
}

/// A well-formed manifest differs from itself in nothing: the three lists
/// of the change set are empty.
pub proof fn lemma_diff_same(m: ManifestView)
    requires
        m.wf(),
    ensures
        diff_manifests(m, m).changed.len() == 0,
        diff_manifests(m, m).removed.len() == 0,
        diff_manifests(m, m).added.len() == 0,
{
    let cs = diff_manifests(m, m);
    if cs.removed.len() > 0 {
        let p = cs.removed[0];
        assert(cs.removed.contains(p));
        lemma_missing_member(m.files, m.index(), p);
        lemma_index_domain(m.files, p);
    }
    if cs.changed.len() > 0 {
        let p = cs.changed[0];
        assert(cs.changed.contains(p));
        lemma_changed_member(m.files, m.index(), p);
        let i = choose|i: int|
            0 <= i < m.files.len() && #[trigger] m.files[i].path == p && m.files[i].hash
                != m.index()[p];
        lemma_index_value(m.files, i);
    }
}

} // verus!
