use mini_grep::SearchMatch;
use std::path::Path;

#[test]
fn test_search_match_creation() {
    let search_match = SearchMatch::new("path/to/file.txt", 42, "This is a matching line.");
    assert_eq!(Path::new(search_match.path()), Path::new("path/to/file.txt"));
    assert_eq!(search_match.line_number(), 42);
    assert_eq!(search_match.content(), "This is a matching line.");
}

#[test]
fn display_line_joins_path_number_and_content() {
    let m = SearchMatch::new("path/to/file.txt", 42, "This is a matching line.");
    assert_eq!(m.display_line(), "path/to/file.txt:42: This is a matching line.");
}

#[test]
fn display_line_writes_numbers_in_decimal() {
    assert_eq!(SearchMatch::new("a", 1, "x").display_line(), "a:1: x");
    assert_eq!(SearchMatch::new("a", 10, "x").display_line(), "a:10: x");
    assert_eq!(SearchMatch::new("a", 907, "").display_line(), "a:907: ");
    assert_eq!(SearchMatch::new("a", 0, "y").display_line(), "a:0: y");
    assert_eq!(
        SearchMatch::new("emoji.txt", usize::MAX, "😀").display_line(),
        format!("emoji.txt:{}: 😀", usize::MAX)
    );
}

#[test]
fn equal_matches_compare_equal() {
    assert_eq!(SearchMatch::new("f", 3, "line"), SearchMatch::new("f", 3, "line"));
    assert_ne!(SearchMatch::new("f", 3, "line"), SearchMatch::new("f", 4, "line"));
}
