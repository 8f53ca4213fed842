//! Manifests: hashing the files of a snapshot and comparing two manifests.

use vstd::prelude::*;
use vstd::hash_map::StringHashMap;
use crate::differ::{diff_manifests, lemma_diff_disjoint, lemma_diff_same, lemma_diff_wf, paths_changed, paths_missing};
use crate::errors::{cause_duplicate, cause_not_regular, cause_unreadable, report_view, ErrorView, PatchError};
use crate::map_struct::{distinct, index_of, names_view, record_paths, records_view, FileStructure, HashOutput, ManifestView, PatchMapStructure, RecordView};
use crate::paths::{is_normal, is_normal_path, lemma_normalized_is_normal, normalized, trim_relative_path};

verus! {

/// The hasher of the `crypto_hash` crate. Its state is not looked into.
#[verifier::external_type_specification]
#[verifier::external_body]
pub struct ExHasher(crypto_hash::Hasher);

/// The SHA-256 digest of `data`.
pub uninterp spec fn sha256_of(data: Seq<u8>) -> Seq<u8>;

/// The bytes that a hasher has been given since it was made.
pub uninterp spec fn absorbed(hasher: crypto_hash::Hasher) -> Seq<u8>;

/// The digit of `n` in base 16, in lower case.
pub open spec fn hex_digit(n: int) -> char {
    seq!['0', '1', '2', '3', '4', '5', '6', '7', '8', '9', 'a', 'b', 'c', 'd', 'e', 'f'][n]
}

/// `bytes` in hexadecimal: two lower-case digits for each byte, the high
/// one first.
pub open spec fn hex_of(bytes: Seq<u8>) -> Seq<char>
    decreases bytes.len(),
{
    if bytes.len() == 0 {
        Seq::empty()
    } else {
        hex_of(bytes.drop_last()).push(hex_digit(bytes.last() as int / 16)).push(
            hex_digit(bytes.last() as int % 16),
        )
    }
}

/// The content hash that a manifest records of a file.
pub open spec fn file_hash(content: Seq<u8>) -> Seq<char> {
    hex_of(sha256_of(content))
}

/// The hash that a manifest records for each file of a snapshot.
pub open spec fn digests(tree: Map<Seq<char>, Seq<u8>>) -> Map<Seq<char>, Seq<char>> {
    tree.map_values(|content: Seq<u8>| file_hash(content))
}

/// The manifest lists the files of the snapshot, each once and with the
/// hash of its content.
pub open spec fn describes(m: ManifestView, tree: Map<Seq<char>, Seq<u8>>) -> bool {
    m.wf() && m.index() == digests(tree)
}

/// `crypto_hash::digest` with `Algorithm::SHA256`: the digest of `data`.
/// The crate panics where the hash backend of the system fails.
#[verifier::external_body]
pub(crate) fn sha256_digest(data: &[u8]) -> (digest: Vec<u8>)
    ensures
        digest@ == sha256_of(data@),
{
    crypto_hash::digest(crypto_hash::Algorithm::SHA256, data)
}

/// `crypto_hash::Hasher::new` with `Algorithm::SHA256`: a hasher that has
/// been given nothing. The crate panics where the hash backend of the
/// system fails.
#[verifier::external_body]
fn hasher_start() -> (hasher: crypto_hash::Hasher)
    ensures
        absorbed(hasher) == Seq::<u8>::empty(),
{
    crypto_hash::Hasher::new(crypto_hash::Algorithm::SHA256)
}

/// `write_all` of the hasher's `std::io::Write`: where it reports success,
/// the hasher has been given `chunk` after what it had.
#[verifier::external_body]
fn hasher_write(hasher: &mut crypto_hash::Hasher, chunk: &[u8]) -> (ok: bool)
    ensures
        ok ==> absorbed(*final(hasher)) == absorbed(*old(hasher)) + chunk@,
{
    std::io::Write::write_all(hasher, chunk).is_ok()
}

/// `crypto_hash::Hasher::finish`: the SHA-256 digest of all that the hasher
/// has been given. The crate panics where the hash backend of the system
/// fails.
#[verifier::external_body]
fn hasher_finish(hasher: crypto_hash::Hasher) -> (digest: Vec<u8>)
    ensures
        digest@ == sha256_of(absorbed(hasher)),
{
    let mut hasher = hasher;
    hasher.finish()
}

/// `hex::encode`: two lower-case hexadecimal digits for each byte.
#[verifier::external_body]
pub(crate) fn hex_encode(bytes: &[u8]) -> (text: String)
    ensures
        text@ == hex_of(bytes@),
{
    hex::encode(bytes)
}

/// Hashes a file that is read piece by piece, so that no file has to be
/// held in memory as a whole: `feed` each piece, then `finish`.
pub struct FileHasher {
    inner: crypto_hash::Hasher,
    spent: bool,
}

impl FileHasher {
    /// The bytes fed so far.
    pub closed spec fn fed(&self) -> Seq<u8> {
        absorbed(self.inner)
    }

    /// A hasher that has been fed nothing and is not spent.
    pub fn new() -> (hasher: FileHasher)
        ensures
            hasher.fed() == Seq::<u8>::empty(),
            !hasher.spent(),
    {
        FileHasher { inner: hasher_start(), spent: false }
    }

    /// Feeds the next piece of the file. An empty piece is always taken.
    /// Any other piece is handed to the hash backend, which may refuse
    /// it: the hasher is spent from then on, and takes no piece any more.
    /// Returns whether the piece was taken.
    pub fn feed(&mut self, chunk: &[u8]) -> (ok: bool)
        ensures
            ok ==> final(self).fed() == old(self).fed() + chunk@,
            final(self).spent() == !ok,
            old(self).spent() ==> !ok && final(self).fed() == old(self).fed(),
            !old(self).spent() && chunk@.len() == 0 ==> ok,
    {
        if self.spent {
            return false;
        }
        if chunk.len() == 0 {
            assert(self.fed() =~= self.fed() + chunk@);
            return true;
        }
        let ok = hasher_write(&mut self.inner, chunk);
        if !ok {
            self.spent = true;
        }
        ok
    }

    /// Ends the file: the hash that a manifest records of it.
    pub fn finish(self) -> (hash: String)
        ensures
            hash@ == file_hash(self.fed()),
    {
        let digest = hasher_finish(self.inner);
        hex_encode(digest.as_slice())
    }

    /// The hash backend has refused a piece: what was fed is not known to
    /// be what the caller handed over.
    pub closed spec fn spent(&self) -> bool {
        self.spent
    }
}

/// The manifest record of a file that is held in memory: the normal form of
/// its path and the hexadecimal SHA-256 digest of its content.
pub fn hash_file(relative_path: &str, content: &[u8]) -> (record: HashOutput)
    ensures
        record@.path == normalized(relative_path@),
        record@.hash == file_hash(content@),
        is_normal(record@.path),
{
    let digest = sha256_digest(content);
    HashOutput { file_name: trim_relative_path(relative_path), hash: hex_encode(digest.as_slice()) }
}

/// What is known of the content of a walked file.
#[derive(Debug, Clone, PartialEq, Eq)]
pub enum FileContent {
    /// The file could not be read.
    Unreadable,
    /// The bytes of the file, still to be hashed.
    Bytes(Vec<u8>),
    /// The hash of the file, as [`FileHasher::finish`] gave it.
    Digest(String),
}

/// Mathematical value of a [`FileContent`].
pub ghost enum ContentView {
    Unreadable,
    Bytes(Seq<u8>),
    Digest(Seq<char>),
}

impl View for FileContent {
    type V = ContentView;

    open spec fn view(&self) -> ContentView {
        match self {
            FileContent::Unreadable => ContentView::Unreadable,
            FileContent::Bytes(bytes) => ContentView::Bytes(bytes@),
            FileContent::Digest(hash) => ContentView::Digest(hash@),
        }
    }
}

impl ContentView {
    /// The hash that is recorded for the content, `None` for a file that
    /// could not be read.
    pub open spec fn hash(self) -> Option<Seq<char>> {
        match self {
            ContentView::Unreadable => None,
            ContentView::Bytes(bytes) => Some(file_hash(bytes)),
            ContentView::Digest(hash) => Some(hash),
        }
    }
}

/// What a directory walk yields for one entry: its path relative to the
/// root, whether it is a regular file, and what is known of its content.
#[derive(Debug, Clone, PartialEq, Eq)]
pub struct WalkEntry {
    pub relative_path: String,
    pub is_regular_file: bool,
    pub content: FileContent,
}

/// Mathematical value of a [`WalkEntry`].
pub ghost struct WalkEntryView {
    pub path: Seq<char>,
    pub is_regular_file: bool,
    pub content: ContentView,
}

impl View for WalkEntry {
    type V = WalkEntryView;

    open spec fn view(&self) -> WalkEntryView {
        WalkEntryView {
            path: self.relative_path@,
            is_regular_file: self.is_regular_file,
            content: self.content@,
        }
    }
}

/// The entries of `entries`, each taken by its view, in order.
pub open spec fn entries_view(entries: Seq<WalkEntry>) -> Seq<WalkEntryView> {
    Seq::new(entries.len(), |i: int| entries[i]@)
}

/// The records and the report that a walk gives.
///
/// The entries are taken in order, each under its normalized path. One
/// that is no regular file is reported as such. A regular file that could
/// not be read is reported as unreadable. A regular file whose path was
/// recorded before is reported as a duplicate. Every other regular file is
/// recorded with its hash.
pub open spec fn scan_entries(entries: Seq<WalkEntryView>) -> (Seq<RecordView>, Seq<ErrorView>)
    decreases entries.len(),
{
    if entries.len() == 0 {
        (Seq::empty(), Seq::empty())
    } else {
        let (records, report) = scan_entries(entries.drop_last());
        let e = entries.last();
        let path = normalized(e.path);
        if !e.is_regular_file {
            (records, report.push(ErrorView::IoError(path, cause_not_regular())))
        } else if e.content.hash() is None {
            (records, report.push(ErrorView::IoError(path, cause_unreadable())))
        } else if record_paths(records).contains(path) {
            (records, report.push(ErrorView::IoError(path, cause_duplicate())))
        } else {
            (records.push(RecordView { path, hash: e.content.hash()->0 }), report)
        }
    }
}

/// The records that a walk gives never share a path.
pub proof fn lemma_scan_distinct(entries: Seq<WalkEntryView>)
    ensures
        distinct(record_paths(scan_entries(entries).0)),
    decreases entries.len(),
{
    if entries.len() > 0 {
        lemma_scan_distinct(entries.drop_last());
        let (records, report) = scan_entries(entries.drop_last());
        let e = entries.last();
        let path = normalized(e.path);
        if e.is_regular_file && e.content.hash() is Some && !record_paths(records).contains(path) {
            let all = records.push(RecordView { path, hash: e.content.hash()->0 });
            assert forall|i: int, j: int| 0 <= i < j < all.len() implies record_paths(all)[i]
                != record_paths(all)[j] by {
                assert(record_paths(all)[i] == record_paths(records)[i]);
                if j < records.len() {
                    assert(record_paths(all)[j] == record_paths(records)[j]);
                } else {
                    assert(record_paths(records).contains(record_paths(records)[i]));
                }
            }
        }
    }
}

/// The records that a walk gives all have paths in normal form.
pub proof fn lemma_scan_normal(entries: Seq<WalkEntryView>)
    ensures
        forall|i: int|
            0 <= i < scan_entries(entries).0.len() ==> is_normal(
                (#[trigger] scan_entries(entries).0[i]).path,
            ),
    decreases entries.len(),
{
    if entries.len() > 0 {
        lemma_scan_normal(entries.drop_last());
        lemma_normalized_is_normal(entries.last().path);
        let before = scan_entries(entries.drop_last()).0;
        let all = scan_entries(entries).0;
        assert forall|i: int| 0 <= i < all.len() implies is_normal((#[trigger] all[i]).path) by {
            if i < before.len() {
                assert(all[i] == before[i]);
            }
        }
    }
}

/// The manifest that a walk gives is well formed.
pub proof fn lemma_scan_wf(version: Seq<char>, entries: Seq<WalkEntryView>)
    ensures
        (ManifestView { version, files: scan_entries(entries).0 }).wf(),
{
    lemma_scan_distinct(entries);
    lemma_scan_normal(entries);
}

/// Builds the manifest of a snapshot from what a walk of its root yielded.
///
/// Returns the manifest, labelled `version`, and the report of the entries
/// that were skipped: those that are no regular files, the files that
/// could not be read, and the files whose path was met before. Every other
/// file is recorded once, under its normalized path, in the order of the
/// walk: with the hash of its bytes where the entry holds them, with the
/// hash that the entry brings where it was hashed before. The manifest is
/// well formed. The skipped entries never fail a run.
pub fn hash_aircraft(version: &str, entries: &Vec<WalkEntry>) -> (out: (
    FileStructure,
    Vec<PatchError>,
))
    ensures
        out.0@.version == version@,
        out.0@.files == scan_entries(entries_view(entries@)).0,
        report_view(out.1@) == scan_entries(entries_view(entries@)).1,
        out.0.wf(),
{
    let ghost all = entries_view(entries@);
    let mut files: Vec<HashOutput> = Vec::new();
    let mut report: Vec<PatchError> = Vec::new();
    let mut seen: StringHashMap<bool> = StringHashMap::new();
    let mut i: usize = 0;
    assert(records_view(files@) =~= scan_entries(all.take(0)).0);
    assert(report_view(report@) =~= scan_entries(all.take(0)).1);
    while i < entries.len()
        invariant
            i <= entries.len(),
            all == entries_view(entries@),
            records_view(files@) == scan_entries(all.take(i as int)).0,
            report_view(report@) == scan_entries(all.take(i as int)).1,
            forall|p: Seq<char>|
                seen@.contains_key(p) <==> #[trigger] record_paths(records_view(files@)).contains(
                    p,
                ),
        decreases entries.len() - i,
    {
        let ghost before = all.take(i as int);
        let ghost now = all.take(i + 1);
        assert(now.drop_last() =~= before);
        assert(now.last() == entries[i as int]@);
        let entry = &entries[i];
        let path = trim_relative_path(entry.relative_path.as_str());
        if !entry.is_regular_file {
            report.push(PatchError::IoError(path, "not a regular file".to_owned()));
            assert(report_view(report@) =~= scan_entries(now).1);
        } else {
            let hash = match &entry.content {
                FileContent::Unreadable => None,
                FileContent::Bytes(bytes) => {
                    let digest = sha256_digest(bytes.as_slice());
                    Some(hex_encode(digest.as_slice()))
                },
                FileContent::Digest(hash) => Some(hash.clone()),
            };
            match hash {
                None => {
                    report.push(PatchError::IoError(path, "unreadable file".to_owned()));
                    assert(report_view(report@) =~= scan_entries(now).1);
                },
                Some(hash) => {
                    if seen.contains_key(path.as_str()) {
                        report.push(PatchError::IoError(path, "duplicate path".to_owned()));
                        assert(report_view(report@) =~= scan_entries(now).1);
                    } else {
                        let ghost old_records = records_view(files@);
                        seen.insert(path.clone(), true);
                        files.push(HashOutput { file_name: path, hash });
                        assert(records_view(files@) =~= scan_entries(now).0);
                        assert forall|p: Seq<char>|
                            seen@.contains_key(p) <==> #[trigger] record_paths(
                                records_view(files@),
                            ).contains(p) by {
                            let new_paths = record_paths(records_view(files@));
                            let old_paths = record_paths(old_records);
                            assert(new_paths =~= old_paths.push(path@));
                            if old_paths.contains(p) {
                                let k = choose|k: int| 0 <= k < old_paths.len() && old_paths[k] == p;
                                assert(new_paths[k] == p);
                            }
                            assert(new_paths[old_paths.len() as int] == path@);
                            if new_paths.contains(p) {
                                let k = choose|k: int| 0 <= k < new_paths.len() && new_paths[k] == p;
                                if k < old_paths.len() {
                                    assert(old_paths[k] == p);
                                }
                            }
                        }
                    }
                },
            }
        }
        i += 1;
    }
    assert(all.take(entries.len() as int) =~= all);
    proof {
        lemma_scan_wf(version@, all);
    }
    (FileStructure { version: version.to_owned(), files }, report)
}

/// Checks the manifest invariant on a manifest that came from outside:
/// `CorruptManifest` exactly where a path is not in normal form or is
/// listed twice.
pub fn check_manifest(manifest: &FileStructure) -> (r: Result<(), PatchError>)
    ensures
        r is Ok <==> manifest.wf(),
        r matches Err(e) ==> e@ == ErrorView::CorruptManifest,
{
    let ghost files = records_view(manifest.files@);
    let ghost paths = record_paths(files);
    let mut seen: StringHashMap<usize> = StringHashMap::new();
    let mut i: usize = 0;
    while i < manifest.files.len()
        invariant
            i <= manifest.files.len(),
            files == records_view(manifest.files@),
            paths == record_paths(files),
            forall|a: int, b: int| 0 <= a < b < i ==> paths[a] != paths[b],
            forall|k: int| 0 <= k < i ==> is_normal((#[trigger] files[k]).path),
            forall|p: Seq<char>| #[trigger]
                seen@.contains_key(p) ==> seen@[p] < i && paths[seen@[p] as int] == p,
            forall|k: int| 0 <= k < i ==> seen@.contains_key(#[trigger] paths[k]),
        decreases manifest.files.len() - i,
    {
        let name = &manifest.files[i].file_name;
        assert(paths[i as int] == name@);
        assert(files[i as int].path == name@);
        if !is_normal_path(name.as_str()) {
            return Err(PatchError::CorruptManifest);
        }
        match seen.get(name.as_str()) {
            Some(at) => {
                assert(paths[*at as int] == paths[i as int]);
                return Err(PatchError::CorruptManifest);
            },
            None => {},
        }
        seen.insert(name.clone(), i);
        i += 1;
    }
    Ok(())
}

/// `positions` gives each path of `files` the place of its first record,
/// and holds no other path.
pub open spec fn is_position_index(
    positions: Map<Seq<char>, usize>,
    files: Seq<RecordView>,
) -> bool {
    &&& positions.dom() == index_of(files).dom()
    &&& forall|p: Seq<char>| #[trigger]
        positions.contains_key(p) ==> {
            &&& positions[p] < files.len()
            &&& files[positions[p] as int].path == p
            &&& files[positions[p] as int].hash == index_of(files)[p]
        }
}

/// Builds the path index of a record list in one pass.
fn index_records(files: &Vec<HashOutput>) -> (positions: StringHashMap<usize>)
    ensures
        is_position_index(positions@, records_view(files@)),
{
    let ghost all = records_view(files@);
    let mut positions: StringHashMap<usize> = StringHashMap::new();
    let mut i: usize = 0;
    assert(positions@.dom() =~= index_of(all.take(0)).dom());
    while i < files.len()
        invariant
            i <= files.len(),
            all == records_view(files@),
            is_position_index(positions@, all.take(i as int)),
        decreases files.len() - i,
    {
        let ghost before = all.take(i as int);
        let ghost now = all.take(i + 1);
        assert(now.drop_last() =~= before);
        assert(now.last() == files[i as int]@);
        let known = positions.contains_key(files[i].file_name.as_str());
        if !known {
            positions.insert(files[i].file_name.clone(), i);
            assert(positions@.dom() =~= index_of(now).dom());
        }
        assert forall|p: Seq<char>| #[trigger] positions@.contains_key(p) implies {
            &&& positions@[p] < now.len()
            &&& now[positions@[p] as int].path == p
            &&& now[positions@[p] as int].hash == index_of(now)[p]
        } by {
            if before.len() > 0 && index_of(before).contains_key(p) {
                assert(now[positions@[p] as int] == before[positions@[p] as int]);
            }
        }
        i += 1;
    }
    assert(all.take(files.len() as int) =~= all);
    positions
}

/// Compares two manifests.
///
/// Returns the change set that leads from `old` to `new`: the paths that
/// `new` holds with another hash, in the order of `old`; the paths that only
/// `old` holds, in its order; the paths that only `new` holds, in its
/// order. Each manifest is indexed by path once, and every path is looked
/// up in the index of the other. The three lists never share a path. Two
/// well-formed manifests give a well-formed change set, and a well-formed
/// manifest compared with an equal one gives three empty lists.
pub fn compare_hash(old: &FileStructure, new: &FileStructure) -> (cs: PatchMapStructure)
    ensures
        cs@ == diff_manifests(old@, new@),
        forall|p: Seq<char>| !(cs@.changed.contains(p) && cs@.removed.contains(p)),
        forall|p: Seq<char>| !(cs@.changed.contains(p) && cs@.added.contains(p)),
        forall|p: Seq<char>| !(cs@.removed.contains(p) && cs@.added.contains(p)),
        old.wf() && new.wf() ==> cs.wf(),
        old.wf() && old@ == new@ ==> cs@.changed.len() == 0 && cs@.removed.len() == 0
            && cs@.added.len() == 0,
{
    let ghost old_files = records_view(old.files@);
    let ghost new_files = records_view(new.files@);
    let old_index = index_records(&old.files);
    let new_index = index_records(&new.files);
    let mut changed: Vec<String> = Vec::new();
    let mut removed: Vec<String> = Vec::new();
    let mut added: Vec<String> = Vec::new();

    let mut i: usize = 0;
    assert(names_view(changed@) =~= paths_changed(old_files.take(0), index_of(new_files)));
    assert(names_view(removed@) =~= paths_missing(old_files.take(0), index_of(new_files)));
    while i < old.files.len()
        invariant
            i <= old.files.len(),
            old_files == records_view(old.files@),
            new_files == records_view(new.files@),
            is_position_index(new_index@, new_files),
            names_view(changed@) == paths_changed(old_files.take(i as int), index_of(new_files)),
            names_view(removed@) == paths_missing(old_files.take(i as int), index_of(new_files)),
        decreases old.files.len() - i,
    {
        let ghost now = old_files.take(i + 1);
        assert(now.drop_last() =~= old_files.take(i as int));
        assert(now.last() == old.files[i as int]@);
        let entry = &old.files[i];
        match new_index.get(entry.file_name.as_str()) {
            Some(at) => {
                assert(new_index@.contains_key(entry.file_name@));
                assert(new_files[*at as int] == new.files[*at as int]@);
                if new.files[*at].hash != entry.hash {
                    changed.push(entry.file_name.clone());
                    assert(names_view(changed@) =~= paths_changed(now, index_of(new_files)));
                }
            },
            None => {
                removed.push(entry.file_name.clone());
                assert(names_view(removed@) =~= paths_missing(now, index_of(new_files)));
            },
        }
        i += 1;
    }
    assert(old_files.take(old.files.len() as int) =~= old_files);

    let mut j: usize = 0;
    assert(names_view(added@) =~= paths_missing(new_files.take(0), index_of(old_files)));
    while j < new.files.len()
        invariant
            j <= new.files.len(),
            old_files == records_view(old.files@),
            new_files == records_view(new.files@),
            is_position_index(old_index@, old_files),
            names_view(added@) == paths_missing(new_files.take(j as int), index_of(old_files)),
        decreases new.files.len() - j,
    {
        let ghost now = new_files.take(j + 1);
        assert(now.drop_last() =~= new_files.take(j as int));
        assert(now.last() == new.files[j as int]@);
        let entry = &new.files[j];
        if !old_index.contains_key(entry.file_name.as_str()) {
            added.push(entry.file_name.clone());
            assert(names_view(added@) =~= paths_missing(now, index_of(old_files)));
        }
        j += 1;
    }
    assert(new_files.take(new.files.len() as int) =~= new_files);

    let cs = PatchMapStructure {
        version: (old.version.clone(), new.version.clone()),
        changed_files: changed,
        removed_files: removed,
        added_files: added,
    };
    proof {
        assert(cs@.changed == paths_changed(old_files, index_of(new_files)));
        assert(cs@ == diff_manifests(old@, new@));
        lemma_diff_disjoint(old@, new@);
        if old.wf() && new.wf() {
            lemma_diff_wf(old@, new@);
        }
        if old.wf() && old@ == new@ {
            lemma_diff_same(old@);
        }
    }
    cs
}

} // verus!
