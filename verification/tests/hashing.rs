use asset_delta::errors::{run_failed, PatchError};
use asset_delta::hash::{
    check_manifest, hash_aircraft, hash_file, FileContent, FileHasher, WalkEntry,
};
use asset_delta::map_struct::{FileStructure, HashOutput};

fn entry(path: &str, regular: bool, content: Option<&[u8]>) -> WalkEntry {
    WalkEntry {
        relative_path: path.to_string(),
        is_regular_file: regular,
        content: match content {
            Some(c) => FileContent::Bytes(c.to_vec()),
            None => FileContent::Unreadable,
        },
    }
}

#[test]
fn hash_of_known_content() {
    let record = hash_file("a.txt", b"abc");
    assert_eq!(record.file_name, "a.txt");
    assert_eq!(
        record.hash,
        "ba7816bf8f01cfea414140de5dae2223b00361a396177a9cb410ff61f20015ad"
    );
}

#[test]
fn hash_of_empty_content() {
    let record = hash_file("empty", b"");
    assert_eq!(
        record.hash,
        "e3b0c44298fc1c149afbf4c8996fb92427ae41e4649b934ca495991b7852b855"
    );
}

#[test]
fn hash_normalizes_the_path() {
    let record = hash_file("\\textures\\wing.dds", b"abc");
    assert_eq!(record.file_name, "textures/wing.dds");
}

#[test]
fn streamed_hash_equals_whole_hash() {
    let data: Vec<u8> = (0..200_000u32).map(|i| (i % 251) as u8).collect();
    let mut hasher = FileHasher::new();
    for chunk in data.chunks(65536) {
        assert!(hasher.feed(chunk));
    }
    let streamed = hasher.finish();
    let whole = hash_file("big.bin", &data);
    assert_eq!(streamed, whole.hash);
}

#[test]
fn streamed_hash_of_nothing() {
    let hasher = FileHasher::new();
    assert_eq!(
        hasher.finish(),
        "e3b0c44298fc1c149afbf4c8996fb92427ae41e4649b934ca495991b7852b855"
    );
}

#[test]
fn manifest_lists_regular_files_in_walk_order() {
    let entries = vec![
        entry("sub", false, None),
        entry("sub\\b.txt", true, Some(b"b")),
        entry("a.txt", true, Some(b"abc")),
    ];
    let (manifest, report) = hash_aircraft("1.0", &entries);
    assert_eq!(manifest.version, "1.0");
    assert_eq!(
        report,
        vec![PatchError::IoError("sub".to_string(), "not a regular file".to_string())]
    );
    assert!(!run_failed(&report));
    assert_eq!(
        manifest.files,
        vec![hash_file("sub/b.txt", b"b"), hash_file("a.txt", b"abc")]
    );
}

#[test]
fn manifest_reports_unreadable_files_and_goes_on() {
    let entries = vec![
        entry("locked.bin", true, None),
        entry("a.txt", true, Some(b"abc")),
    ];
    let (manifest, report) = hash_aircraft("1.0", &entries);
    assert_eq!(manifest.files, vec![hash_file("a.txt", b"abc")]);
    assert_eq!(
        report,
        vec![PatchError::IoError(
            "locked.bin".to_string(),
            "unreadable file".to_string()
        )]
    );
}

#[test]
fn manifest_records_a_path_once() {
    let entries = vec![
        entry("dir/a.txt", true, Some(b"first")),
        entry("dir\\a.txt", true, Some(b"second")),
    ];
    let (manifest, report) = hash_aircraft("1.0", &entries);
    assert_eq!(manifest.files, vec![hash_file("dir/a.txt", b"first")]);
    assert_eq!(
        report,
        vec![PatchError::IoError(
            "dir/a.txt".to_string(),
            "duplicate path".to_string()
        )]
    );
    assert_eq!(check_manifest(&manifest), Ok(()));
}

#[test]
fn manifest_of_an_empty_walk() {
    let (manifest, report) = hash_aircraft("0", &Vec::new());
    assert!(manifest.files.is_empty());
    assert!(report.is_empty());
}

#[test]
fn duplicate_paths_make_a_manifest_corrupt() {
    let record = HashOutput { file_name: "a".to_string(), hash: "00".to_string() };
    let other = HashOutput { file_name: "a".to_string(), hash: "11".to_string() };
    let manifest = FileStructure { version: "1".to_string(), files: vec![record, other] };
    assert_eq!(check_manifest(&manifest), Err(PatchError::CorruptManifest));
}

#[test]
fn empty_manifest_is_well_formed() {
    let manifest = FileStructure::new("1".to_string());
    assert_eq!(manifest.version, "1");
    assert_eq!(check_manifest(&manifest), Ok(()));
}

#[test]
fn manifest_takes_hashes_that_were_made_before() {
    let mut hasher = FileHasher::new();
    assert!(hasher.feed(b"ab"));
    assert!(hasher.feed(b"c"));
    let streamed = hasher.finish();
    let entries = vec![
        WalkEntry {
            relative_path: "\\big.bin".to_string(),
            is_regular_file: true,
            content: FileContent::Digest(streamed),
        },
        entry("small.txt", true, Some(b"abc")),
    ];
    let (manifest, report) = hash_aircraft("2", &entries);
    assert!(report.is_empty());
    assert_eq!(
        manifest.files,
        vec![hash_file("big.bin", b"abc"), hash_file("small.txt", b"abc")]
    );
}

#[test]
fn a_path_that_is_not_normal_makes_a_manifest_corrupt() {
    for path in ["dir\\a", "/a", "a/", ""] {
        let record = HashOutput { file_name: path.to_string(), hash: "00".to_string() };
        let manifest = FileStructure { version: "1".to_string(), files: vec![record] };
        let expected = if path.is_empty() { Ok(()) } else { Err(PatchError::CorruptManifest) };
        assert_eq!(check_manifest(&manifest), expected, "path {:?}", path);
    }
}

#[test]
fn an_empty_piece_is_taken_and_changes_nothing() {
    let mut hasher = FileHasher::new();
    assert!(hasher.feed(b""));
    assert!(hasher.feed(b"abc"));
    assert!(hasher.feed(b""));
    assert_eq!(hasher.finish(), hash_file("a", b"abc").hash);
}
