//! The records exchanged between the stages: manifests and change sets.

use vstd::prelude::*;
use crate::paths::is_normal;

verus! {

/// One file of a snapshot: its normalized path relative to the snapshot root
/// and the lower-case hexadecimal SHA-256 digest of its content.
#[derive(Debug, Clone, PartialEq, Eq)]
pub struct HashOutput {
    pub file_name: String,
    pub hash: String,
}

/// Mathematical value of a [`HashOutput`].
pub ghost struct RecordView {
    pub path: Seq<char>,
    pub hash: Seq<char>,
}

impl View for HashOutput {
    type V = RecordView;

    open spec fn view(&self) -> RecordView {
        RecordView { path: self.file_name@, hash: self.hash@ }
    }
}

/// A manifest: the version label of a snapshot and one record per file.
///
/// A manifest is well formed when every path is in normal form and no
/// path occurs twice, see [`FileStructure::wf`].
#[derive(Debug, Clone, PartialEq, Eq)]
pub struct FileStructure {
    pub version: String,
    pub files: Vec<HashOutput>,
}

/// Mathematical value of a [`FileStructure`].
pub ghost struct ManifestView {
    pub version: Seq<char>,
    pub files: Seq<RecordView>,
}

/// The records of `files`, each taken by its view, in order.
pub open spec fn records_view(files: Seq<HashOutput>) -> Seq<RecordView> {
    Seq::new(files.len(), |i: int| files[i]@)
}

/// The strings of `names`, each taken by its view, in order.
pub open spec fn names_view(names: Seq<String>) -> Seq<Seq<char>> {
    Seq::new(names.len(), |i: int| names[i]@)
}

/// No value occurs at two positions of `s`.
pub open spec fn distinct<T>(s: Seq<T>) -> bool {
    forall|i: int, j: int| 0 <= i < j < s.len() ==> s[i] != s[j]
}

/// The paths of `files`, in order.
pub open spec fn record_paths(files: Seq<RecordView>) -> Seq<Seq<char>> {
    Seq::new(files.len(), |i: int| files[i].path)
}

/// The path-to-hash index of a record list. Where a path occurs more than
/// once, its first record decides.
pub open spec fn index_of(files: Seq<RecordView>) -> Map<Seq<char>, Seq<char>>
    decreases files.len(),
{
    if files.len() == 0 {
        Map::empty()
    } else {
        let before = index_of(files.drop_last());
        let r = files.last();
        if before.contains_key(r.path) {
            before
        } else {
            before.insert(r.path, r.hash)
        }
    }
}

impl View for FileStructure {
    type V = ManifestView;

    open spec fn view(&self) -> ManifestView {
        ManifestView { version: self.version@, files: records_view(self.files@) }
    }
}

impl ManifestView {
    /// Every path is in normal form, and no path is listed twice.
    pub open spec fn wf(self) -> bool {
        &&& distinct(record_paths(self.files))
        &&& forall|i: int| 0 <= i < self.files.len() ==> is_normal((#[trigger] self.files[i]).path)
    }

    /// The manifest as a map from path to hash.
    pub open spec fn index(self) -> Map<Seq<char>, Seq<char>> {
        index_of(self.files)
    }
}

impl FileStructure {
    /// The manifest invariant: every path is in normal form, and no path
    /// is listed twice.
    pub open spec fn wf(&self) -> bool {
        self@.wf()
    }

    /// An empty manifest for the snapshot labelled `version`.
    pub fn new(version: String) -> (m: FileStructure)
        ensures
            m@.version == version@,
            m@.files.len() == 0,
            m.wf(),
    {
        FileStructure { version, files: Vec::new() }
    }
}

/// A change set: what separates an old manifest from a new one.
///
/// `version` holds the old and the new version label. A path is listed under
/// `changed_files` when both manifests hold it with different hashes, under
/// `removed_files` when only the old one holds it, under `added_files` when
/// only the new one does. A path that both hold with the same hash is listed
/// nowhere.
#[derive(Debug, PartialEq, Eq)]
pub struct PatchMapStructure {
    pub version: (String, String),
    pub changed_files: Vec<String>,
    pub removed_files: Vec<String>,
    pub added_files: Vec<String>,
}

/// Mathematical value of a [`PatchMapStructure`].
pub ghost struct ChangeSetView {
    pub old_version: Seq<char>,
    pub new_version: Seq<char>,
    pub changed: Seq<Seq<char>>,
    pub removed: Seq<Seq<char>>,
    pub added: Seq<Seq<char>>,
}

impl View for PatchMapStructure {
    type V = ChangeSetView;

    open spec fn view(&self) -> ChangeSetView {
        ChangeSetView {
            old_version: self.version.0@,
            new_version: self.version.1@,
            changed: names_view(self.changed_files@),
            removed: names_view(self.removed_files@),
            added: names_view(self.added_files@),
        }
    }
}

impl ChangeSetView {
    /// No path is listed twice, neither within one list nor across two.
    pub open spec fn wf(self) -> bool {
        &&& distinct(self.changed)
        &&& distinct(self.removed)
        &&& distinct(self.added)
        &&& forall|p: Seq<char>| !(self.changed.contains(p) && self.removed.contains(p))
        &&& forall|p: Seq<char>| !(self.changed.contains(p) && self.added.contains(p))
        &&& forall|p: Seq<char>| !(self.removed.contains(p) && self.added.contains(p))
    }
}

impl PatchMapStructure {
    /// The change-set invariant: the three lists are duplicate free and
    /// pairwise disjoint.
    pub open spec fn wf(&self) -> bool {
        self@.wf()
    }

    /// An empty change set between the two version labels.
    pub fn new(old_version: String, new_version: String) -> (cs: PatchMapStructure)
        ensures
            cs@.old_version == old_version@,
            cs@.new_version == new_version@,
            cs@.changed.len() == 0,
            cs@.removed.len() == 0,
            cs@.added.len() == 0,
            cs.wf(),
    {
        PatchMapStructure {
            version: (old_version, new_version),
            changed_files: Vec::new(),
            removed_files: Vec::new(),
            added_files: Vec::new(),
        }
    }
}

} // verus!
