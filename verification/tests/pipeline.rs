use asset_delta::diff_files::{changed_delta, diff_files, diff_from_map, literal_delta};
use asset_delta::errors::{run_failed, PatchError};
use asset_delta::hash::{compare_hash, hash_aircraft, hash_file, FileContent, WalkEntry};
use asset_delta::map_struct::{FileStructure, PatchMapStructure};
use asset_delta::package::{DeltaRecord, Package, Strategy, FORMAT_VERSION};
use asset_delta::patch_files::{
    apply_checked, apply_delta, parse_patch_file, patch_via_map, verify_tree, write_patch_file,
};
use asset_delta::tree::FileTree;

fn sample(len: usize, seed: u32) -> Vec<u8> {
    let mut state = seed;
    (0..len)
        .map(|_| {
            state = state.wrapping_mul(1664525).wrapping_add(1013904223);
            (state >> 24) as u8
        })
        .collect()
}

fn texture(seed: u32, pixels: usize) -> Vec<u8> {
    let mut file = b"DDS ".to_vec();
    file.extend_from_slice(&124u32.to_le_bytes());
    file.resize(128, 0);
    file[80] = 0x40;
    file[12] = seed as u8;
    file.extend_from_slice(&sample(pixels, seed));
    file
}

fn snapshot(files: &[(&str, Vec<u8>)]) -> (FileTree, FileStructure, Vec<WalkEntry>) {
    let mut tree = FileTree::new();
    let mut entries = Vec::new();
    for (path, content) in files {
        tree.insert(path.to_string(), content.clone());
        entries.push(WalkEntry {
            relative_path: path.to_string(),
            is_regular_file: true,
            content: FileContent::Bytes(content.clone()),
        });
    }
    let (manifest, report) = hash_aircraft("v", &entries);
    assert!(report.is_empty());
    (tree, manifest, entries)
}

fn update(old: &[(&str, Vec<u8>)], new: &[(&str, Vec<u8>)]) -> (PatchMapStructure, Package, FileTree) {
    let (mut tree_a, manifest_a, _) = snapshot(old);
    let (tree_b, manifest_b, _) = snapshot(new);
    let cs = compare_hash(&manifest_a, &manifest_b);
    let (package, report) = diff_from_map(&cs, &tree_a, &tree_b);
    assert!(report.is_empty());
    let file = write_patch_file(&package).unwrap();
    let received = parse_patch_file(&file).unwrap();
    assert_eq!(received, package);
    let report = patch_via_map(&mut tree_a, &received);
    assert!(report.is_empty());
    assert!(!run_failed(&report));
    assert_eq!(tree_a.len(), new.len());
    for (path, content) in new {
        assert_eq!(tree_a.get(path), Some(content));
    }
    assert!(verify_tree(&tree_a, &manifest_b));
    (cs, package, tree_a)
}

fn strategies(package: &Package) -> Vec<(String, Strategy)> {
    package.entries.iter().map(|e| (e.relative_path.clone(), e.strategy)).collect()
}

#[test]
fn a_changed_texture_and_an_added_text() {
    let a_txt = b"unchanged".to_vec();
    let old = vec![("a.txt", a_txt.clone()), ("b.dds", texture(1, 4_000))];
    let mut b_new = texture(1, 4_000);
    b_new[200] = b_new[200].wrapping_add(3);
    b_new[13] = 77;
    let new = vec![
        ("a.txt", a_txt),
        ("b.dds", b_new),
        ("c.txt", b"brand new".to_vec()),
    ];
    let (cs, package, _) = update(&old, &new);
    assert_eq!(cs.changed_files, vec!["b.dds".to_string()]);
    assert_eq!(cs.added_files, vec!["c.txt".to_string()]);
    assert!(cs.removed_files.is_empty());
    assert_eq!(
        strategies(&package),
        vec![
            ("b.dds".to_string(), Strategy::RawSubtract),
            ("c.txt".to_string(), Strategy::Literal),
        ]
    );
    assert_eq!(package.entries[0].header, new[1].1[..128].to_vec());
    assert_eq!(package.entries[1].payload, b"brand new".to_vec());
    assert!(package.removed.is_empty());
}

#[test]
fn a_removed_file_leaves_an_empty_tree() {
    let old = vec![("a.txt", b"content".to_vec())];
    let new: Vec<(&str, Vec<u8>)> = vec![];
    let (cs, package, tree) = update(&old, &new);
    assert_eq!(cs.removed_files, vec!["a.txt".to_string()]);
    assert!(package.entries.is_empty());
    assert_eq!(package.removed, vec!["a.txt".to_string()]);
    assert_eq!(tree.len(), 0);
    assert!(!tree.contains("a.txt"));
}

#[test]
fn added_changed_and_removed_together() {
    let old = vec![
        ("keep.bin", sample(500, 1)),
        ("edit.bin", sample(9_000, 2)),
        ("tex/wing.dds", texture(3, 2_000)),
        ("tex/resized.dds", texture(4, 1_000)),
        ("gone.txt", b"bye".to_vec()),
        ("was_texture.dds", texture(5, 300)),
    ];
    let mut edit = sample(9_000, 2);
    edit.splice(4_000..4_010, b"spliced in".iter().cloned());
    edit.extend_from_slice(b"tail");
    let mut wing = texture(3, 2_000);
    for i in 300..340 {
        wing[i] ^= 0x55;
    }
    let new = vec![
        ("keep.bin", sample(500, 1)),
        ("edit.bin", edit),
        ("tex/wing.dds", wing),
        ("tex/resized.dds", texture(4, 1_200)),
        ("fresh/new.txt", b"hello".to_vec()),
        ("fresh/empty", Vec::new()),
        ("was_texture.dds", b"now plain text".to_vec()),
    ];
    let (cs, package, _) = update(&old, &new);
    assert_eq!(cs.removed_files, vec!["gone.txt".to_string()]);
    assert_eq!(
        strategies(&package),
        vec![
            ("edit.bin".to_string(), Strategy::GenericBinary),
            ("tex/wing.dds".to_string(), Strategy::RawSubtract),
            ("tex/resized.dds".to_string(), Strategy::GenericBinary),
            ("was_texture.dds".to_string(), Strategy::GenericBinary),
            ("fresh/new.txt".to_string(), Strategy::Literal),
            ("fresh/empty".to_string(), Strategy::Literal),
        ]
    );
    let edit_entry = &package.entries[0];
    assert!(edit_entry.payload.len() <= 9_004 + 24 + 32);
}

#[test]
fn equal_snapshots_need_an_empty_package() {
    let files = vec![("a", sample(100, 1)), ("b", sample(100, 2))];
    let (cs, package, _) = update(&files, &files);
    assert!(cs.changed_files.is_empty());
    assert!(package.entries.is_empty());
    assert!(package.removed.is_empty());
}

#[test]
fn from_nothing_to_something_and_back() {
    let files = vec![("a", sample(100, 1)), ("d/b", Vec::new())];
    let none: Vec<(&str, Vec<u8>)> = vec![];
    update(&none, &files);
    update(&files, &none);
}

#[test]
fn a_changed_record_starts_with_the_digest_of_the_old_content() {
    let old = b"old content".to_vec();
    let new = b"new content".to_vec();
    let record = diff_files("f.txt", &old, &new);
    assert_eq!(record.relative_path, "f.txt");
    assert_eq!(record.strategy, Strategy::GenericBinary);
    assert!(record.header.is_empty());
    assert_eq!(
        hex::encode(&record.payload[..32]),
        hash_file("f.txt", &old).hash
    );
    assert_eq!(apply_delta(Some(&old), &record), Ok(new));
}

#[test]
fn a_raw_record_keeps_the_new_header() {
    let old = texture(1, 64);
    let mut new = texture(1, 64);
    new[130] = new[130].wrapping_sub(1);
    new[20] = 9;
    let record = diff_files("t.dds", &old, &new);
    assert_eq!(record.strategy, Strategy::RawSubtract);
    assert_eq!(record.header, new[..128].to_vec());
    assert_eq!(record.payload.len(), 32 + 64);
    let mut expected = vec![0u8; 64];
    expected[2] = 255;
    assert_eq!(record.payload[32..].to_vec(), expected);
    assert_eq!(apply_delta(Some(&old), &record), Ok(new));
}

#[test]
fn a_literal_record_needs_no_base() {
    let record = literal_delta("n.txt", b"new");
    assert_eq!(record.strategy, Strategy::Literal);
    assert_eq!(apply_delta(None, &record), Ok(b"new".to_vec()));
    assert_eq!(apply_delta(Some(&b"anything".to_vec()), &record), Ok(b"new".to_vec()));
}

#[test]
fn another_base_is_a_mismatch() {
    let old = sample(1_000, 1);
    let new = sample(1_000, 2);
    let other = sample(1_000, 3);
    let record = diff_files("f.bin", &old, &new);
    assert_eq!(
        apply_delta(Some(&other), &record),
        Err(PatchError::BaseMismatch("f.bin".to_string()))
    );
    let raw = diff_files("t.dds", &texture(1, 64), &texture(2, 64));
    assert_eq!(raw.strategy, Strategy::RawSubtract);
    assert_eq!(
        apply_delta(Some(&texture(3, 64)), &raw),
        Err(PatchError::BaseMismatch("t.dds".to_string()))
    );
}

#[test]
fn a_payload_without_digest_is_a_mismatch() {
    let record = DeltaRecord {
        relative_path: "f".to_string(),
        strategy: Strategy::GenericBinary,
        payload: vec![1, 2, 3],
        header: Vec::new(),
    };
    assert_eq!(
        apply_delta(Some(&b"base".to_vec()), &record),
        Err(PatchError::BaseMismatch("f".to_string()))
    );
}

#[test]
fn a_missing_base_is_reported() {
    let record = diff_files("f.bin", b"old", b"new");
    assert_eq!(
        apply_delta(None, &record),
        Err(PatchError::IoError("f.bin".to_string(), "missing file".to_string()))
    );
}

#[test]
fn a_raw_record_that_does_not_fit_its_base_is_corrupt() {
    let old = texture(1, 64);
    let new = texture(2, 64);
    let mut record = diff_files("t.dds", &old, &new);
    record.payload.pop();
    assert_eq!(apply_delta(Some(&old), &record), Err(PatchError::CorruptPackage));
    let mut short_header = diff_files("t.dds", &old, &new);
    short_header.header.pop();
    assert_eq!(apply_delta(Some(&old), &short_header), Err(PatchError::CorruptPackage));
}

#[test]
fn a_raw_record_on_a_base_that_is_no_texture_is_corrupt() {
    let base = b"plain".to_vec();
    let mut payload = hex::decode(hash_file("x", &base).hash).unwrap();
    payload.extend_from_slice(&[1, 2, 3]);
    let record = DeltaRecord {
        relative_path: "x".to_string(),
        strategy: Strategy::RawSubtract,
        payload,
        header: vec![0; 128],
    };
    assert_eq!(apply_delta(Some(&base), &record), Err(PatchError::CorruptPackage));
}

#[test]
fn a_generic_record_with_a_broken_stream_is_corrupt() {
    let old = sample(200, 1);
    let mut record = diff_files("f", &old, &sample(300, 2));
    record.payload.truncate(32 + 10);
    assert_eq!(apply_delta(Some(&old), &record), Err(PatchError::CorruptPackage));
}

#[test]
fn a_failing_record_does_not_stop_the_batch() {
    let mut tree = FileTree::new();
    tree.insert("a".to_string(), b"a-old".to_vec());
    tree.insert("c".to_string(), b"c-other".to_vec());
    tree.insert("gone".to_string(), b"x".to_vec());
    let package = Package {
        format_version: FORMAT_VERSION,
        new_version: "2".to_string(),
        entries: vec![
            diff_files("a", b"a-old", b"a-new"),
            diff_files("b", b"b-old", b"b-new"),
            diff_files("c", b"c-old", b"c-new"),
            literal_delta("d", b"d-new"),
        ],
        removed: vec!["gone".to_string(), "never there".to_string()],
    };
    let report = patch_via_map(&mut tree, &package);
    assert_eq!(
        report,
        vec![
            PatchError::IoError("b".to_string(), "missing file".to_string()),
            PatchError::BaseMismatch("c".to_string()),
        ]
    );
    assert!(run_failed(&report));
    assert_eq!(tree.get("a"), Some(&b"a-new".to_vec()));
    assert_eq!(tree.get("b"), None);
    assert_eq!(tree.get("c"), Some(&b"c-other".to_vec()));
    assert_eq!(tree.get("d"), Some(&b"d-new".to_vec()));
    assert!(!tree.contains("gone"));
    assert_eq!(tree.len(), 3);
}

#[test]
fn removing_twice_is_no_error() {
    let mut tree = FileTree::new();
    tree.insert("a".to_string(), b"x".to_vec());
    let package = Package {
        format_version: FORMAT_VERSION,
        new_version: "2".to_string(),
        entries: Vec::new(),
        removed: vec!["a".to_string()],
    };
    assert!(patch_via_map(&mut tree, &package).is_empty());
    assert!(patch_via_map(&mut tree, &package).is_empty());
    assert_eq!(tree.len(), 0);
}

#[test]
fn a_package_of_another_format_version_changes_nothing() {
    let mut tree = FileTree::new();
    tree.insert("a".to_string(), b"x".to_vec());
    let package = Package {
        format_version: FORMAT_VERSION + 1,
        new_version: "2".to_string(),
        entries: vec![literal_delta("b", b"y")],
        removed: vec!["a".to_string()],
    };
    let report = patch_via_map(&mut tree, &package);
    assert_eq!(report, vec![PatchError::UnsupportedFormatVersion]);
    assert!(run_failed(&report));
    assert_eq!(tree.get("a"), Some(&b"x".to_vec()));
    assert_eq!(tree.len(), 1);
}

#[test]
fn files_missing_at_diff_time_are_left_out_and_reported() {
    let mut tree_a = FileTree::new();
    let mut tree_b = FileTree::new();
    tree_a.insert("both".to_string(), b"1".to_vec());
    tree_b.insert("both".to_string(), b"2".to_vec());
    tree_a.insert("only_a".to_string(), b"1".to_vec());
    tree_b.insert("only_b".to_string(), b"2".to_vec());
    tree_b.insert("new".to_string(), b"n".to_vec());
    let mut cs = PatchMapStructure::new("1".to_string(), "2".to_string());
    cs.changed_files = vec![
        "only_a".to_string(),
        "both".to_string(),
        "only_b".to_string(),
        "neither".to_string(),
    ];
    cs.added_files = vec!["lost".to_string(), "new".to_string()];
    cs.removed_files = vec!["old".to_string()];
    let (package, report) = diff_from_map(&cs, &tree_a, &tree_b);
    assert_eq!(package.format_version, FORMAT_VERSION);
    assert_eq!(package.new_version, "2");
    assert_eq!(package.removed, vec!["old".to_string()]);
    assert_eq!(
        strategies(&package),
        vec![
            ("both".to_string(), Strategy::GenericBinary),
            ("new".to_string(), Strategy::Literal),
        ]
    );
    let missing = |p: &str| PatchError::IoError(p.to_string(), "missing file".to_string());
    assert_eq!(
        report,
        vec![missing("only_a"), missing("only_b"), missing("neither"), missing("lost")]
    );
    assert!(!run_failed(&report));
}

#[test]
fn a_tree_is_checked_against_a_manifest() {
    let files = vec![("a", sample(10, 1)), ("b", sample(10, 2))];
    let (mut tree, manifest, _) = snapshot(&files);
    assert!(verify_tree(&tree, &manifest));
    tree.insert("c".to_string(), Vec::new());
    assert!(!verify_tree(&tree, &manifest));
    tree.remove("c");
    tree.insert("a".to_string(), sample(10, 3));
    assert!(!verify_tree(&tree, &manifest));
    tree.remove("a");
    assert!(!verify_tree(&tree, &manifest));
    tree.insert("x".to_string(), sample(10, 1));
    assert!(!verify_tree(&tree, &manifest));
}

#[test]
fn an_empty_tree_matches_an_empty_manifest() {
    assert!(verify_tree(&FileTree::new(), &FileStructure::new("0".to_string())));
}

#[test]
fn the_package_does_not_depend_on_the_order_of_insertion() {
    let mut a1 = FileTree::new();
    let mut a2 = FileTree::new();
    let mut b = FileTree::new();
    a1.insert("x".to_string(), b"1".to_vec());
    a1.insert("y".to_string(), b"2".to_vec());
    a2.insert("y".to_string(), b"2".to_vec());
    a2.insert("x".to_string(), b"1".to_vec());
    b.insert("x".to_string(), b"3".to_vec());
    b.insert("y".to_string(), b"4".to_vec());
    let mut cs = PatchMapStructure::new("1".to_string(), "2".to_string());
    cs.changed_files = vec!["x".to_string(), "y".to_string()];
    assert_eq!(diff_from_map(&cs, &a1, &b), diff_from_map(&cs, &a2, &b));
}

#[test]
fn a_changed_record_is_headed_by_the_digest_it_is_given() {
    let old = texture(1, 8);
    let mut new = texture(1, 8);
    new[128] = new[128].wrapping_add(5);
    let raw = changed_delta("t.dds", b"DIGEST".to_vec(), &old, &new);
    assert_eq!(raw.relative_path, "t.dds");
    assert_eq!(raw.strategy, Strategy::RawSubtract);
    assert_eq!(raw.header, new[..128].to_vec());
    assert_eq!(raw.payload, b"DIGEST\x05\0\0\0\0\0\0\0".to_vec());
    let generic = changed_delta("f", Vec::new(), b"", b"xy");
    assert_eq!(generic.strategy, Strategy::GenericBinary);
    assert!(generic.header.is_empty());
    let mut expected = vec![0u8; 24];
    expected[8] = 2;
    expected.extend_from_slice(b"xy");
    assert_eq!(generic.payload, expected);
}

#[test]
fn a_record_is_applied_behind_the_digest_it_is_checked_against() {
    let old = texture(1, 8);
    let mut new = texture(1, 8);
    new[130] = new[130].wrapping_sub(1);
    new[9] = 1;
    let record = changed_delta("t.dds", b"DIGEST".to_vec(), &old, &new);
    assert_eq!(apply_checked(&old, b"DIGEST", &record), Ok(new));
    assert_eq!(
        apply_checked(&old, b"OTHER", &record),
        Err(PatchError::BaseMismatch("t.dds".to_string()))
    );
    assert_eq!(apply_checked(&old, b"DIG", &record), Err(PatchError::CorruptPackage));
    let generic = changed_delta("f", b"D".to_vec(), b"old", b"new");
    assert_eq!(apply_checked(b"old", b"D", &generic), Ok(b"new".to_vec()));
    assert_eq!(apply_checked(b"old", b"", &generic), Err(PatchError::CorruptPackage));
}
