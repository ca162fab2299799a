use sgf::number::{number_to_string, parse_number};

#[test]
fn parse_number_reads_signed_decimal_text() {
    assert_eq!(parse_number("0"), Some(0));
    assert_eq!(parse_number("4"), Some(4));
    assert_eq!(parse_number("-17"), Some(-17));
    assert_eq!(parse_number("+17"), Some(17));
    assert_eq!(parse_number("00012"), Some(12));
    assert_eq!(parse_number("-0"), Some(0));
    assert_eq!(parse_number("2147483647"), Some(2147483647));
    assert_eq!(parse_number("-2147483648"), Some(-2147483648));
    assert_eq!(parse_number("000000000000000000002147483647"), Some(2147483647));
}

#[test]
fn parse_number_refuses_what_is_no_number() {
    assert_eq!(parse_number(""), None);
    assert_eq!(parse_number("-"), None);
    assert_eq!(parse_number("+"), None);
    assert_eq!(parse_number("+-1"), None);
    assert_eq!(parse_number("--1"), None);
    assert_eq!(parse_number("1-"), None);
    assert_eq!(parse_number(" 1"), None);
    assert_eq!(parse_number("1 "), None);
    assert_eq!(parse_number("1.0"), None);
    assert_eq!(parse_number("6.5"), None);
    assert_eq!(parse_number("1_000"), None);
    assert_eq!(parse_number("x"), None);
    assert_eq!(parse_number("１２"), None);
}

#[test]
fn parse_number_refuses_what_does_not_fit() {
    assert_eq!(parse_number("2147483648"), None);
    assert_eq!(parse_number("-2147483649"), None);
    assert_eq!(parse_number("99999999999999999999999999999"), None);
    assert_eq!(parse_number("-99999999999999999999999999999"), None);
    assert_eq!(parse_number("21474836470"), None);
}

#[test]
fn parse_number_agrees_with_the_standard_library() {
    let samples = [
        "", "0", "7", "-7", "+7", "+", "-", "++1", "+-1", "-+1", "12a", "a12", "1 2", "0x10",
        "2147483647", "2147483648", "-2147483648", "-2147483649", "0000000000000", "-000",
        "4294967296", "18446744073709551616", "٣", "1e3", "１", "\n1", "1\n",
    ];
    for s in samples {
        assert_eq!(parse_number(s), s.parse::<i32>().ok());
    }
}

#[test]
fn number_to_string_writes_decimal_text() {
    assert_eq!(number_to_string(0), "0");
    assert_eq!(number_to_string(4), "4");
    assert_eq!(number_to_string(10), "10");
    assert_eq!(number_to_string(-1), "-1");
    assert_eq!(number_to_string(1234567890), "1234567890");
    assert_eq!(number_to_string(2147483647), "2147483647");
    assert_eq!(number_to_string(-2147483648), "-2147483648");
}

#[test]
fn numbers_are_read_back_as_written() {
    let samples = [0, 1, -1, 9, 10, 11, 99, 100, -100, 65535, i32::MAX, i32::MIN, i32::MIN + 1];
    for n in samples {
        assert_eq!(number_to_string(n), n.to_string());
        assert_eq!(parse_number(&number_to_string(n)), Some(n));
    }
}
