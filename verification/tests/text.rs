use std::io::BufRead;
use mini_grep::text::{chars_of, decimal_chars};
use mini_grep::{contains_chars, split_lines};

fn chars(s: &str) -> Vec<char> {
    s.chars().collect()
}

#[test]
fn split_lines_of_empty_text_is_empty() {
    assert!(split_lines("").is_empty());
}

#[test]
fn split_lines_drops_final_newline() {
    assert_eq!(split_lines("a\n"), vec!["a"]);
    assert_eq!(split_lines("a\nb"), vec!["a", "b"]);
    assert_eq!(split_lines("a\nb\n"), vec!["a", "b"]);
}

#[test]
fn split_lines_keeps_empty_lines() {
    assert_eq!(split_lines("\n"), vec![""]);
    assert_eq!(split_lines("\n\n"), vec!["", ""]);
    assert_eq!(split_lines("a\n\nb"), vec!["a", "", "b"]);
}

#[test]
fn split_lines_strips_carriage_return_only_before_newline() {
    assert_eq!(split_lines("a\r\nb\r\n"), vec!["a", "b"]);
    assert_eq!(split_lines("a\r"), vec!["a\r"]);
    assert_eq!(split_lines("a\rb\n"), vec!["a\rb"]);
    assert_eq!(split_lines("\r\n"), vec![""]);
}

#[test]
fn split_lines_agrees_with_reading_lines() {
    for text in ["", "x", "x\n", "x\r\ny", "\r\r\n\n", "ä\nö\r\n😀", "a\n\n\n"] {
        let expected: Vec<String> =
            std::io::Cursor::new(text.as_bytes()).lines().map(|l| l.unwrap()).collect();
        assert_eq!(split_lines(text), expected, "text {:?}", text);
    }
}

#[test]
fn contains_chars_finds_parts() {
    assert!(contains_chars(&chars("haystack"), &chars("hay")));
    assert!(contains_chars(&chars("haystack"), &chars("stack")));
    assert!(contains_chars(&chars("haystack"), &chars("ysta")));
    assert!(!contains_chars(&chars("haystack"), &chars("needle")));
    assert!(!contains_chars(&chars("hay"), &chars("haystack")));
    assert!(contains_chars(&chars(""), &chars("")));
    assert!(contains_chars(&chars("abc"), &chars("")));
    assert!(!contains_chars(&chars(""), &chars("a")));
    assert!(contains_chars(&chars("aaab"), &chars("aab")));
}

#[test]
fn contains_chars_agrees_with_str_contains() {
    let texts = ["", "a", "ab", "abab", "aabaab", "😀x😀", "测试测"];
    for hay in texts {
        for needle in texts {
            assert_eq!(contains_chars(&chars(hay), &chars(needle)), hay.contains(needle));
        }
    }
}

#[test]
fn chars_of_keeps_every_character() {
    assert_eq!(chars_of("a😀b"), vec!['a', '😀', 'b']);
    assert!(chars_of("").is_empty());
}

#[test]
fn decimal_chars_writes_numbers() {
    let s: String = decimal_chars(0).into_iter().collect();
    assert_eq!(s, "0");
    let s: String = decimal_chars(12345).into_iter().collect();
    assert_eq!(s, "12345");
    let s: String = decimal_chars(usize::MAX).into_iter().collect();
    assert_eq!(s, usize::MAX.to_string());
}
