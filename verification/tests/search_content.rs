use mini_grep::{search_content, search_lines, SearchMatch, SearchOptions};

const FILE: &str = "haystack.txt";

#[test]
fn test_find_in_one_file() {
    let got = search_content("needle", FILE, "needle in the haystack\n", SearchOptions::default());
    let expected = SearchMatch::new(FILE, 1, "needle in the haystack");
    assert_eq!(got, vec![expected]);
}

#[test]
fn test_find_emoji_in_one_file() {
    let text = "needle in the haystack\nemoji: 😀\n";
    let matches = search_content("😀", FILE, text, SearchOptions::default());
    assert_eq!(matches.len(), 1);
    assert_eq!(matches[0].path(), FILE);
    assert_eq!(matches[0].line_number(), 2);
    assert_eq!(matches[0].content(), "emoji: 😀");
}

#[test]
fn test_find_chinese_in_file() {
    let text = "needle in the haystack\nemoji: 😀\n这是一个测试\n";
    let matches = search_content("测试", FILE, text, SearchOptions::default());
    assert_eq!(matches.len(), 1);
    assert_eq!(matches[0].path(), FILE);
    assert_eq!(matches[0].line_number(), 3);
    assert_eq!(matches[0].content(), "这是一个测试");
}

#[test]
fn test_find_japanese_in_file() {
    let text = "needle in the haystack\nemoji: 😀\nこれはテストです\n";
    let matches = search_content("テスト", FILE, text, SearchOptions::default());
    assert_eq!(matches.len(), 1);
    assert_eq!(matches[0].path(), FILE);
    assert_eq!(matches[0].line_number(), 3);
    assert_eq!(matches[0].content(), "これはテストです");
}

#[test]
fn test_find_korean_in_file() {
    let text = "needle in the haystack\nemoji: 😀\n이것은 테스트입니다\n";
    let matches = search_content("테스트", FILE, text, SearchOptions::default());
    assert_eq!(matches.len(), 1);
    assert_eq!(matches[0].path(), FILE);
    assert_eq!(matches[0].line_number(), 3);
    assert_eq!(matches[0].content(), "이것은 테스트입니다");
}

#[test]
fn test_find_not_in_one_file() {
    let res = search_content("missing", FILE, "needle in the haystack\n", SearchOptions::default());
    assert!(res.is_empty());
}

#[test]
fn test_find_lines_in_one_file() {
    let text = "needle in the haystack\nemoji: 😀\n这是一个测试\n😀 これはテストです\n这是另一个测试\n最后一个测试 😀\n";
    let matches = search_content("😀", FILE, text, SearchOptions::default());
    assert_eq!(matches.len(), 3);
    assert_eq!(matches[0].line_number(), 2);
    assert_eq!(matches[0].content(), "emoji: 😀");
    assert_eq!(matches[1].line_number(), 4);
    assert_eq!(matches[1].content(), "😀 これはテストです");
    assert_eq!(matches[2].line_number(), 6);
    assert_eq!(matches[2].content(), "最后一个测试 😀");
}

#[test]
fn test_find_in_one_file_with_case_insensitive() {
    let text = "needle in the haystack\nNEEDLE IN THE HAYSTACK\n";
    let got = search_content("needle", FILE, text, SearchOptions::default());
    let expected = SearchMatch::new(FILE, 1, "needle in the haystack");
    assert_eq!(got, vec![expected]);

    let got = search_content(
        "needle",
        FILE,
        text,
        SearchOptions {
            case_insensitive: true,
            recursive: false,
        },
    );
    assert_eq!(got.len(), 2);
    assert_eq!(got[0].path(), FILE);
    assert_eq!(got[0].line_number(), 1);
    assert_eq!(got[0].content(), "needle in the haystack");
    assert_eq!(got[1].path(), FILE);
    assert_eq!(got[1].line_number(), 2);
    assert_eq!(got[1].content(), "NEEDLE IN THE HAYSTACK");
}

#[test]
fn ignoring_case_lowers_the_needle_too() {
    let options = SearchOptions::new(true, false);
    let got = search_content("NeEdLe", FILE, "a needle\nno match\n", options);
    assert_eq!(got, vec![SearchMatch::new(FILE, 1, "a needle")]);
}

#[test]
fn ignoring_case_uses_whole_text_lowercase() {
    // A final capital sigma lowers to the final form, so it no longer
    // contains the ordinary small sigma.
    let options = SearchOptions::new(true, false);
    let got = search_content("σ", FILE, "ΑΣ\nΑΣΑ\n", options);
    assert_eq!(got, vec![SearchMatch::new(FILE, 2, "ΑΣΑ")]);
}

#[test]
fn case_sensitive_search_keeps_case() {
    let got = search_content("Needle", FILE, "needle\nNeedle\n", SearchOptions::new(false, true));
    assert_eq!(got, vec![SearchMatch::new(FILE, 2, "Needle")]);
}

#[test]
fn empty_needle_matches_every_line() {
    let got = search_content("", FILE, "a\n\nb", SearchOptions::default());
    let numbers: Vec<usize> = got.iter().map(|m| m.line_number()).collect();
    assert_eq!(numbers, vec![1, 2, 3]);
    assert_eq!(got[1].content(), "");
}

#[test]
fn empty_text_has_no_matches() {
    assert!(search_content("", FILE, "", SearchOptions::default()).is_empty());
}

#[test]
fn carriage_returns_before_newlines_are_not_part_of_lines() {
    let got = search_content("line", FILE, "first line\r\nsecond line\r\n", SearchOptions::default());
    assert_eq!(got.len(), 2);
    assert_eq!(got[0].content(), "first line");
    assert_eq!(got[1].content(), "second line");
}

#[test]
fn search_lines_numbers_lines_from_one() {
    let lines = vec!["x".to_string(), "needle".to_string(), "y needle".to_string()];
    let got = search_lines("needle", "p", &lines, SearchOptions::default());
    assert_eq!(
        got,
        vec![SearchMatch::new("p", 2, "needle"), SearchMatch::new("p", 3, "y needle")]
    );
}

#[test]
fn ascii_case_sensitive_matches_are_among_case_insensitive_ones() {
    let text = "Needle\nneedle here\nNEEDLE\nno\nneedle\n";
    let exact = search_content("needle", FILE, text, SearchOptions::new(false, false));
    let folded = search_content("needle", FILE, text, SearchOptions::new(true, false));
    assert_eq!(exact.len(), 2);
    assert_eq!(folded.len(), 4);
    for m in &exact {
        assert!(folded.contains(m));
    }
}

#[test]
fn ascii_case_of_needle_does_not_matter_when_ignoring_case() {
    let text = "Needle\nneedle here\nNEEDLE\nno\n";
    let options = SearchOptions::new(true, false);
    assert_eq!(
        search_content("needle", FILE, text, options),
        search_content("NEEDLE", FILE, text, options)
    );
    assert_eq!(
        search_content("NeEdLe", FILE, text, options),
        search_content("nEeDlE", FILE, text, options)
    );
}

#[test]
fn join_matches_keeps_step_order() {
    let first = search_content("n", "d/a.txt", "n1\nx\nn2\n", SearchOptions::default());
    let second = search_content("n", "d/b.txt", "none\n", SearchOptions::default());
    let third = search_content("n", "d/c/e.txt", "n3\n", SearchOptions::default());
    let joined = mini_grep::join_matches(vec![first, Vec::new(), second, third]);
    let shown: Vec<String> = joined.iter().map(|m| m.display_line()).collect();
    assert_eq!(shown, vec!["d/a.txt:1: n1", "d/a.txt:3: n2", "d/b.txt:1: none", "d/c/e.txt:1: n3"]);
}

#[test]
fn join_of_nothing_is_empty() {
    assert!(mini_grep::join_matches(Vec::new()).is_empty());
}
