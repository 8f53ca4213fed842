use asset_delta::paths::{chars_of, is_normal_path, trim_relative_path};

#[test]
fn normalize_turns_backslashes_into_slashes() {
    assert_eq!(trim_relative_path("textures\\wing\\left.dds"), "textures/wing/left.dds");
}

#[test]
fn normalize_trims_separators_at_both_ends() {
    assert_eq!(trim_relative_path("/a/b/"), "a/b");
    assert_eq!(trim_relative_path("\\\\a\\b\\\\"), "a/b");
    assert_eq!(trim_relative_path("//a"), "a");
}

#[test]
fn normalize_keeps_inner_separators() {
    assert_eq!(trim_relative_path("a//b"), "a//b");
}

#[test]
fn normalize_leaves_a_normal_path_alone() {
    assert_eq!(trim_relative_path("a/b.txt"), "a/b.txt");
}

#[test]
fn normalize_of_separators_only_is_empty() {
    assert_eq!(trim_relative_path("/\\/"), "");
    assert_eq!(trim_relative_path(""), "");
}

#[test]
fn normalize_keeps_unicode() {
    assert_eq!(trim_relative_path("\\modèles\\飛行機.dds"), "modèles/飛行機.dds");
}

#[test]
fn normalize_is_idempotent_on_samples() {
    for p in ["a\\b", "/x/", "plain", "\\\\", "é/ü\\"] {
        let once = trim_relative_path(p);
        assert_eq!(trim_relative_path(&once), once);
    }
}

#[test]
fn normalize_keeps_the_directories() {
    assert_eq!(trim_relative_path("dir\\sub\\file.txt"), "dir/sub/file.txt");
    assert_eq!(
        trim_relative_path("SimObjects\\Airplanes\\model.cfg"),
        "SimObjects/Airplanes/model.cfg"
    );
    assert_eq!(trim_relative_path("a/b/model.cfg"), "a/b/model.cfg");
}

#[test]
fn normalize_of_a_trailing_backslash_keeps_the_directory() {
    assert_eq!(trim_relative_path("dir\\"), "dir");
}

#[test]
fn normalize_counts_characters_not_bytes() {
    assert_eq!(trim_relative_path("дом\\файл"), "дом/файл");
}

#[test]
fn normal_form_is_recognized() {
    for p in ["", "a", "a/b", "a//b", "é/ü.txt"] {
        assert!(is_normal_path(p), "{:?}", p);
        assert_eq!(trim_relative_path(p), p);
    }
    for p in ["/a", "a/", "a\\b", "\\", "/"] {
        assert!(!is_normal_path(p), "{:?}", p);
        assert!(is_normal_path(&trim_relative_path(p)));
    }
}

#[test]
fn chars_are_listed_in_order() {
    assert_eq!(chars_of("aé飛"), vec!['a', 'é', '飛']);
}
