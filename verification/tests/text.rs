use sgf::{decode_simple_text, decode_text, encode_text};

#[test]
fn test_decode_text() {
    assert_eq!(decode_text("[test\\\ntest\\:\\]"), "[testtest:]".to_string());
}

#[test]
fn test_decode_simple_text() {
    assert_eq!(decode_simple_text("test\ntest\r\ntest\n\rtest\rtest"), "test test test test test".to_string());
}

#[test]
fn test_encode_text() {
    assert_eq!(encode_text("]\\:"), "\\]\\\\\\:".to_string());
}

#[test]
fn decode_text_takes_out_every_form_of_soft_line_break() {
    assert_eq!(decode_text("a\\\nb"), "ab");
    assert_eq!(decode_text("a\\\rb"), "ab");
    assert_eq!(decode_text("a\\\r\nb"), "ab");
    assert_eq!(decode_text("a\\\n\rb"), "ab");
    assert_eq!(decode_text("a\\\n\nb"), "a\nb");
}

#[test]
fn decode_text_keeps_hard_line_breaks() {
    assert_eq!(decode_text("a\nb\r\nc"), "a\nb\r\nc");
    assert_eq!(decode_text(""), "");
    assert_eq!(decode_text("plain"), "plain");
}

#[test]
fn decode_text_unescapes_any_character() {
    assert_eq!(decode_text("\\a\\]\\:\\\\"), "a]:\\");
    assert_eq!(decode_text("\\日"), "日");
    assert_eq!(decode_text("a\\"), "a\\");
}

#[test]
fn decode_text_takes_soft_line_breaks_out_first() {
    // The line break goes with the backslash before it, and the backslash that
    // is left has nothing behind it to escape.
    assert_eq!(decode_text("\\\\\nx"), "x");
    assert_eq!(decode_text("a\\\\\n"), "a\\");
}

#[test]
fn decode_simple_text_folds_line_breaks_into_spaces() {
    assert_eq!(decode_simple_text("a\nb"), "a b");
    assert_eq!(decode_simple_text("a\r\nb"), "a b");
    assert_eq!(decode_simple_text("a\n\rb"), "a b");
    assert_eq!(decode_simple_text("a\n\nb"), "a  b");
    assert_eq!(decode_simple_text("a\\\nb\nc"), "ab c");
    assert_eq!(decode_simple_text("a\\:b"), "a:b");
}

#[test]
fn encode_text_escapes_three_characters() {
    assert_eq!(encode_text("a]b"), "a\\]b");
    assert_eq!(encode_text("a\\b"), "a\\\\b");
    assert_eq!(encode_text("a:b"), "a\\:b");
    assert_eq!(encode_text("a[b\nc"), "a[b\nc");
    assert_eq!(encode_text(""), "");
    assert_eq!(encode_text("$1"), "$1");
}

#[test]
fn encoded_text_of_one_line_is_decoded_to_itself() {
    let samples = ["", "plain", "a]b\\c:d", "\\\\", "]]]", "::", "日本語]", "a\\:b"];
    for s in samples {
        assert_eq!(decode_text(&encode_text(s)), s);
        assert_eq!(decode_simple_text(&encode_text(s)), s);
    }
}

#[test]
fn encoding_does_not_bring_soft_line_breaks_back() {
    assert_eq!(encode_text(&decode_text("a\\\nb")), "ab");
    assert_eq!(encode_text(&decode_simple_text("a\nb")), "a b");
}
