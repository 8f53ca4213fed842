use asset_delta::hash::compare_hash;
use asset_delta::map_struct::{FileStructure, HashOutput, PatchMapStructure};

fn manifest(version: &str, files: &[(&str, &str)]) -> FileStructure {
    FileStructure {
        version: version.to_string(),
        files: files
            .iter()
            .map(|(name, hash)| HashOutput { file_name: name.to_string(), hash: hash.to_string() })
            .collect(),
    }
}

fn names(list: &[&str]) -> Vec<String> {
    list.iter().map(|s| s.to_string()).collect()
}

#[test]
fn new_change_set_is_empty() {
    let cs = PatchMapStructure::new("1.0".to_string(), "1.1".to_string());
    assert_eq!(cs.version, ("1.0".to_string(), "1.1".to_string()));
    assert!(cs.changed_files.is_empty());
    assert!(cs.removed_files.is_empty());
    assert!(cs.added_files.is_empty());
}

#[test]
fn changed_and_added_are_told_apart() {
    let old = manifest("1.0", &[("a.txt", "H1"), ("b.dds", "H2")]);
    let new = manifest("1.1", &[("a.txt", "H1"), ("b.dds", "H3"), ("c.txt", "H4")]);
    let cs = compare_hash(&old, &new);
    assert_eq!(cs.version, ("1.0".to_string(), "1.1".to_string()));
    assert_eq!(cs.changed_files, names(&["b.dds"]));
    assert_eq!(cs.added_files, names(&["c.txt"]));
    assert_eq!(cs.removed_files, names(&[]));
}

#[test]
fn a_file_that_is_gone_is_removed() {
    let old = manifest("1.0", &[("a.txt", "H1")]);
    let new = manifest("1.1", &[]);
    let cs = compare_hash(&old, &new);
    assert_eq!(cs.removed_files, names(&["a.txt"]));
    assert!(cs.changed_files.is_empty());
    assert!(cs.added_files.is_empty());
}

#[test]
fn a_manifest_differs_from_itself_in_nothing() {
    let m = manifest("1.0", &[("a", "1"), ("b", "2"), ("c/d", "3")]);
    let cs = compare_hash(&m, &m.clone());
    assert!(cs.changed_files.is_empty());
    assert!(cs.removed_files.is_empty());
    assert!(cs.added_files.is_empty());
}

#[test]
fn empty_manifests_differ_in_nothing() {
    let cs = compare_hash(&manifest("a", &[]), &manifest("b", &[]));
    assert!(cs.changed_files.is_empty());
    assert!(cs.removed_files.is_empty());
    assert!(cs.added_files.is_empty());
}

#[test]
fn disjoint_manifests_are_all_removed_and_all_added() {
    let old = manifest("1", &[("a", "1"), ("b", "2")]);
    let new = manifest("2", &[("c", "1"), ("d", "2")]);
    let cs = compare_hash(&old, &new);
    assert_eq!(cs.removed_files, names(&["a", "b"]));
    assert_eq!(cs.added_files, names(&["c", "d"]));
    assert!(cs.changed_files.is_empty());
}

#[test]
fn the_three_lists_share_no_path() {
    let old = manifest("1", &[("a", "1"), ("b", "2"), ("c", "3"), ("d", "4")]);
    let new = manifest("2", &[("d", "4"), ("c", "9"), ("e", "5"), ("a", "7")]);
    let cs = compare_hash(&old, &new);
    assert_eq!(cs.changed_files, names(&["a", "c"]));
    assert_eq!(cs.removed_files, names(&["b"]));
    assert_eq!(cs.added_files, names(&["e"]));
    for p in &cs.changed_files {
        assert!(!cs.removed_files.contains(p));
        assert!(!cs.added_files.contains(p));
    }
    for p in &cs.removed_files {
        assert!(!cs.added_files.contains(p));
    }
}

#[test]
fn the_order_of_the_new_manifest_does_not_change_the_lists_of_the_old() {
    let old = manifest("1", &[("a", "1"), ("b", "2"), ("c", "3")]);
    let new1 = manifest("2", &[("a", "x"), ("b", "y"), ("z", "0")]);
    let new2 = manifest("2", &[("z", "0"), ("b", "y"), ("a", "x")]);
    let cs1 = compare_hash(&old, &new1);
    let cs2 = compare_hash(&old, &new2);
    assert_eq!(cs1, cs2);
}

#[test]
fn the_first_record_of_a_repeated_path_decides() {
    let old = manifest("1", &[("a", "1")]);
    let new = manifest("2", &[("a", "1"), ("a", "2")]);
    let cs = compare_hash(&old, &new);
    assert!(cs.changed_files.is_empty());
    assert!(cs.added_files.is_empty());
}
