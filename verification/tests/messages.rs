use sgf::message::escape_default;
use sgf::{sgf_parse, ParseError};

#[test]
fn message_without_expectations_names_the_end() {
    let e = ParseError { line: 3, column: 14, offset: 40, expected: vec![] };
    assert_eq!(e.to_string(), "error at 3:14: expected EOF");
}

#[test]
fn message_with_one_expectation_quotes_it() {
    let e = ParseError { line: 1, column: 1, offset: 0, expected: vec!["("] };
    assert_eq!(e.to_string(), "error at 1:1: expected `(`");
}

#[test]
fn message_with_several_expectations_lists_them() {
    let e = ParseError { line: 12, column: 305, offset: 9, expected: vec!["(", ")", "[A-Z]"] };
    assert_eq!(e.to_string(), "error at 12:305: expected one of `(`, `)`, `[A-Z]`");
}

#[test]
fn message_of_a_parse_escapes_the_expectations() {
    let e = sgf_parse("").unwrap_err();
    assert_eq!(e.to_string(), "error at 1:1: expected one of `[ \\t\\r\\nv]`, `(`");
    let e = sgf_parse("(;A[b").unwrap_err();
    assert_eq!(e.to_string(), "error at 1:6: expected one of `\\\\]`, `[^]]`, `]`");
}

#[test]
fn message_shows_large_positions_in_full() {
    let e = ParseError { line: 4294967295, column: 1000000, offset: 0, expected: vec![] };
    assert_eq!(e.to_string(), "error at 4294967295:1000000: expected EOF");
}

#[test]
fn escape_default_agrees_with_the_standard_library() {
    let samples = [
        "",
        "plain",
        "[ \t\r\nv]",
        "\\]",
        "quote ' and \" and \\",
        "~ and \u{7f} and \u{0} and \u{1f}",
        "é ü 日本語 😀",
        "\u{80}\u{ff}\u{100}\u{ffff}\u{10000}\u{10ffff}",
    ];
    for s in samples {
        assert_eq!(escape_default(s), s.escape_default().to_string());
    }
}

#[test]
fn escape_default_writes_numbers_in_hexadecimal() {
    assert_eq!(escape_default("é"), "\\u{e9}");
    assert_eq!(escape_default("\u{0}"), "\\u{0}");
    assert_eq!(escape_default("😀"), "\\u{1f600}");
    assert_eq!(escape_default("a\tb"), "a\\tb");
}
