use asset_delta::tree::FileTree;

#[test]
fn a_new_tree_is_empty() {
    let tree = FileTree::new();
    assert_eq!(tree.len(), 0);
    assert!(!tree.contains("a"));
    assert_eq!(tree.get("a"), None);
}

#[test]
fn a_file_is_found_under_its_path() {
    let mut tree = FileTree::new();
    tree.insert("dir/a".to_string(), vec![1, 2]);
    tree.insert("b".to_string(), Vec::new());
    assert_eq!(tree.len(), 2);
    assert!(tree.contains("dir/a"));
    assert_eq!(tree.get("dir/a"), Some(&vec![1, 2]));
    assert_eq!(tree.get("b"), Some(&Vec::new()));
    assert_eq!(tree.get("dir"), None);
}

#[test]
fn a_file_takes_the_place_of_the_one_before() {
    let mut tree = FileTree::new();
    tree.insert("a".to_string(), vec![1]);
    tree.insert("a".to_string(), vec![2]);
    assert_eq!(tree.len(), 1);
    assert_eq!(tree.get("a"), Some(&vec![2]));
}

#[test]
fn removing_takes_one_file_away() {
    let mut tree = FileTree::new();
    tree.insert("a".to_string(), vec![1]);
    tree.insert("b".to_string(), vec![2]);
    tree.remove("a");
    tree.remove("missing");
    assert_eq!(tree.len(), 1);
    assert!(!tree.contains("a"));
    assert_eq!(tree.get("b"), Some(&vec![2]));
}
