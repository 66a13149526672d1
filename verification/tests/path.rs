use mini_grep::{same_path, SearchMatch};
use std::path::Path;

#[test]
fn matches_compare_paths_by_components() {
    assert_eq!(SearchMatch::new("a//b", 1, "x"), SearchMatch::new("a/b", 1, "x"));
    assert_eq!(SearchMatch::new("a/./b/", 1, "x"), SearchMatch::new("a/b", 1, "x"));
    assert_ne!(SearchMatch::new("a/../b", 1, "x"), SearchMatch::new("b", 1, "x"));
    assert_ne!(SearchMatch::new("/a", 1, "x"), SearchMatch::new("a", 1, "x"));
}

#[test]
fn same_path_agrees_with_path_equality() {
    let paths = [
        "", ".", "./", "./a", ".//a", "a", "a/", "a//", "a/.", "a/./b", "a/b", "a//b", "a/b/",
        "/", "//", "/.", "/a", "/./a", "..", "../a", "a/..", "a/../b", "b", ".a", "a/.b", "a/b/.",
        "x/./", "é/😀", "é//😀/",
    ];
    for a in paths {
        for b in paths {
            assert_eq!(same_path(a, b), Path::new(a) == Path::new(b), "{:?} {:?}", a, b);
        }
    }
}
