use walls::paths::{join, path_starts_with, paths_equal};

#[test]
fn joining_follows_path_rules() {
    assert_eq!(join("/home/u", "x"), "/home/u/x");
    assert_eq!(join("/home/u/", "x"), "/home/u/x");
    assert_eq!(join("", "x"), "x");
    assert_eq!(join("/home/u", "/etc"), "/etc");
    assert_eq!(join("/home/u", ""), "/home/u/");
}

#[test]
fn path_comparisons_use_components() {
    assert!(paths_equal("/a/b/", "/a//b"));
    assert!(paths_equal("./a", "./a/."));
    assert!(!paths_equal("./a", "a"));
    assert!(!paths_equal("/a/../b", "/b"));
    assert!(path_starts_with("/a/b/c", "/a/b"));
    assert!(!path_starts_with("/a/bc", "/a/b"));
    assert!(path_starts_with("/a/b", "/"));
    assert!(!path_starts_with("a/b", "/a"));
}
