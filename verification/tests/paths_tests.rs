use project_scaffold::paths::{
    canonicalize, clean_path, find_project_root, normalize_path, parent_of, segment_is_root,
    sibling_path, to_backslashes,
};

#[test]
fn canonicalize_is_idempotent_on_samples() {
    let samples = [
        "/a/b/b/c",
        "a\\b\\\\c",
        "",
        "/",
        "projects/maya/maya/scenes",
        "/x/y/z/",
        "weird//..//name",
    ];
    for s in samples {
        let once = canonicalize(s, false);
        let twice = canonicalize(once.as_str(), false);
        assert_eq!(once, twice);
    }
}

#[test]
fn canonicalize_is_idempotent_with_drive() {
    let samples = ["C:\\projects\\maya", "T:::/x//y", "d/e/f"];
    for s in samples {
        let once = canonicalize(s, true);
        let twice = canonicalize(once.as_str(), true);
        assert_eq!(once, twice);
    }
}

#[test]
fn canonicalize_collapses_duplicates() {
    assert_eq!(canonicalize("/a/b/b/c", false), canonicalize("/a/b/c", false));
    assert_eq!(canonicalize("/a/b/b/c", false), "/a/b/c");
}

#[test]
fn canonicalize_examples() {
    assert_eq!(canonicalize("", false), "");
    assert_eq!(canonicalize("///", false), "");
    assert_eq!(canonicalize("a\\b", false), "/a/b");
    assert_eq!(canonicalize("C::/projects//maya", true), "C:/projects/maya");
    assert_eq!(canonicalize("C/projects", true), "C:/projects");
    assert_eq!(canonicalize("C:\\x\\x\\y", true), "C:/x/y");
}

#[test]
fn normalize_path_examples() {
    assert_eq!(normalize_path("a\\b\\"), "a/b");
    assert_eq!(normalize_path("/x/y///"), "/x/y");
    assert_eq!(normalize_path("a//b"), "a//b");
    assert_eq!(normalize_path(""), "");
    assert_eq!(normalize_path("/"), "");
}

#[test]
fn clean_path_examples() {
    assert_eq!(clean_path("/a/b/b/c"), "a/b/c");
    assert_eq!(clean_path("T:::/x//x/y"), "T:/x/y");
    assert_eq!(clean_path(""), "");
    assert_eq!(clean_path("abc"), "abc");
    // The first segment joins the collapse like any other.
    assert_eq!(clean_path("/a/a/b"), "a/b");
}

#[test]
fn root_pattern_detection() {
    assert!(segment_is_root("ABC_123"));
    assert!(!segment_is_root("AB_1234"));
    assert!(!segment_is_root("ABCDEFG"));
    assert!(segment_is_root("abc_xyz"));
    assert!(!segment_is_root("ABC_12"));
    assert!(!segment_is_root("ABC_1234"));
    assert!(!segment_is_root(""));
}

#[test]
fn find_project_root_picks_nearest() {
    assert_eq!(
        find_project_root("T:/proj/ABC_123/maya/scenes"),
        Some("T:/proj/ABC_123".to_string())
    );
    assert_eq!(
        find_project_root("AAA_111/x/BBB_222/y"),
        Some("AAA_111/x/BBB_222".to_string())
    );
    assert_eq!(find_project_root("a/b/c"), None);
    assert_eq!(find_project_root(""), None);
}

#[test]
fn sibling_path_examples() {
    assert_eq!(sibling_path("a/b/c", "n"), "a/b/n");
    assert_eq!(sibling_path("c", "n"), "n");
    assert_eq!(sibling_path("/b", "n"), "/n");
}

#[test]
fn parent_of_examples() {
    assert_eq!(parent_of("a/b/c"), "a/b");
    assert_eq!(parent_of("a"), "");
    assert_eq!(parent_of(""), "");
}

#[test]
fn to_backslashes_examples() {
    assert_eq!(to_backslashes("a/b/c"), "a\\b\\c");
    assert_eq!(to_backslashes("plain"), "plain");
}
