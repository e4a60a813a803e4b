use number_words::numbers::{decimal_string, parse_i32};
use number_words::text::{between_str, contains_str, read_lines, split_chars};
use number_words::util::strip_newline;

fn chars(s: &str) -> Vec<char> {
    s.chars().collect()
}

#[test]
fn strip_newline_removes_one_line_feed() {
    assert_eq!(strip_newline(String::from("abc\n")), "abc");
    assert_eq!(strip_newline(String::from("abc\n\n")), "abc\n");
}

#[test]
fn strip_newline_keeps_text_without_line_feed() {
    assert_eq!(strip_newline(String::from("abc")), "abc");
    assert_eq!(strip_newline(String::new()), "");
    assert_eq!(strip_newline(String::from("abc\r")), "abc\r");
}

#[test]
fn split_gives_pieces_between_separators() {
    let pieces = split_chars(&chars("a;;b;"), &chars(";"));
    assert_eq!(pieces, vec!["a", "", "b", ""]);
    let pieces = split_chars(&chars("x@@y@@z"), &chars("@@"));
    assert_eq!(pieces, vec!["x", "y", "z"]);
    let pieces = split_chars(&chars(""), &chars(" "));
    assert_eq!(pieces, vec![""]);
}

#[test]
fn lines_keep_their_line_feeds() {
    let lines = read_lines(&chars("one\ntwo\n\nthree"));
    assert_eq!(lines, vec!["one\n", "two\n", "\n", "three"]);
    assert!(read_lines(&chars("")).is_empty());
}

#[test]
fn contains_finds_substrings() {
    assert!(contains_str("<title>dog</title>", "<title>"));
    assert!(!contains_str("title", "<title>"));
    assert!(contains_str("abc", ""));
}

#[test]
fn between_takes_text_after_prefix_and_before_suffix() {
    assert_eq!(between_str("==", "==", "==English=="), "English");
    assert_eq!(between_str("<a>", "</a>", "no prefix</a> here"), "no prefix");
    assert_eq!(between_str("<a>", "</a>", "x<a>no suffix"), "no suffix");
}

#[test]
fn parse_i32_reads_decimal_numbers() {
    assert_eq!(parse_i32(&chars("12")), Some(12));
    assert_eq!(parse_i32(&chars("-7")), Some(-7));
    assert_eq!(parse_i32(&chars("+007")), Some(7));
    assert_eq!(parse_i32(&chars("2147483647")), Some(i32::MAX));
    assert_eq!(parse_i32(&chars("-2147483648")), Some(i32::MIN));
}

#[test]
fn parse_i32_rejects_what_parse_rejects() {
    for s in ["", "-", "+", "1a", " 1", "2147483648", "-2147483649", "99999999999999999999"] {
        assert_eq!(parse_i32(&chars(s)), None, "{s}");
        assert_eq!(s.parse::<i32>().ok(), None, "{s}");
    }
}

#[test]
fn decimal_string_writes_as_to_string() {
    for n in [0, 7, 10, 12, 999, -1, -45, i32::MAX, i32::MIN] {
        assert_eq!(decimal_string(n), n.to_string());
        assert_eq!(parse_i32(&chars(&decimal_string(n))), Some(n));
    }
}
