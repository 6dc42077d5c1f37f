use git_size_history::text::{
    all_ascii, blank, decimal, decimal_string, last_line, leading_fields, parse_i64, parse_u64,
    signed_decimal_string, skip_blanks, skip_blanks_back, skip_word, trim,
};

#[test]
fn blanks_are_the_ascii_white_space() {
    for b in [b' ', b'\t', b'\n', 0x0b, 0x0c, b'\r'] {
        assert!(blank(b));
    }
    for b in [b'a', b'0', 0u8, 8, 14, 31, 33, 0x85, 0xa0, 255] {
        assert!(!blank(b));
    }
}

#[test]
fn skipping_stops_at_the_first_other_byte() {
    assert_eq!(skip_blanks(b"  \tab c", 0), 3);
    assert_eq!(skip_blanks(b"  \tab c", 3), 3);
    assert_eq!(skip_blanks(b"   ", 1), 3);
    assert_eq!(skip_blanks(b"", 0), 0);
    assert_eq!(skip_word(b"  \tab c", 3), 5);
    assert_eq!(skip_word(b"abc", 0), 3);
    assert_eq!(skip_word(b" abc", 0), 0);
    assert_eq!(skip_blanks_back(b"ab  ", 4), 2);
    assert_eq!(skip_blanks_back(b"ab  ", 2), 2);
    assert_eq!(skip_blanks_back(b"   ", 3), 0);
}

#[test]
fn fields_are_the_runs_between_blanks() {
    let fields = leading_fields(b"  1700000000 \t abc123  rest of it\n", 10);
    assert_eq!(fields.len(), 5);
    assert_eq!(fields[0], b"1700000000");
    assert_eq!(fields[1], b"abc123");
    assert_eq!(fields[2], b"rest");
    assert_eq!(fields[3], b"of");
    assert_eq!(fields[4], b"it");
}

#[test]
fn fields_stop_at_the_limit() {
    let fields = leading_fields(b"a b c d", 2);
    assert_eq!(fields.len(), 2);
    assert_eq!(fields[0], b"a");
    assert_eq!(fields[1], b"b");
    assert_eq!(leading_fields(b"a b c d", 0).len(), 0);
}

#[test]
fn blank_lines_have_no_fields() {
    assert_eq!(leading_fields(b"", 3).len(), 0);
    assert_eq!(leading_fields(b" \t \r\n", 3).len(), 0);
}

#[test]
fn bytes_beyond_ascii_belong_to_fields() {
    let fields = leading_fields("abc caf\u{e9}\u{a0}x".as_bytes(), 5);
    assert_eq!(fields.len(), 2);
    assert_eq!(fields[1], "caf\u{e9}\u{a0}x".as_bytes());
}

#[test]
fn trim_takes_the_blanks_from_both_ends() {
    assert_eq!(trim(b"  12 34 \r\n"), b"12 34");
    assert_eq!(trim(b"x"), b"x");
    assert_eq!(trim(b" \t"), b"");
    assert_eq!(trim(b""), b"");
}

#[test]
fn last_line_is_what_follows_the_last_inner_line_feed() {
    assert_eq!(last_line(b"abc"), b"abc");
    assert_eq!(last_line(b"abc\n"), b"abc");
    assert_eq!(last_line(b"one\ntwo\n"), b"two");
    assert_eq!(last_line(b"one\ntwo"), b"two");
    assert_eq!(last_line(b"abc\n\n"), b"");
    assert_eq!(last_line(b"\n"), b"");
    assert_eq!(last_line(b""), b"");
    assert_eq!(last_line(b"abc\r\n"), b"abc\r");
}

#[test]
fn parse_u64_reads_digits() {
    assert_eq!(parse_u64(b"0"), Some(0));
    assert_eq!(parse_u64(b"1234"), Some(1234));
    assert_eq!(parse_u64(b"+17"), Some(17));
    assert_eq!(parse_u64(b"0000000000000000000000000042"), Some(42));
    assert_eq!(parse_u64(b"18446744073709551615"), Some(u64::MAX));
}

#[test]
fn parse_u64_refuses_what_is_no_number() {
    assert_eq!(parse_u64(b""), None);
    assert_eq!(parse_u64(b"+"), None);
    assert_eq!(parse_u64(b"-"), None);
    assert_eq!(parse_u64(b"-0"), None);
    assert_eq!(parse_u64(b"-5"), None);
    assert_eq!(parse_u64(b"12a"), None);
    assert_eq!(parse_u64(b" 12"), None);
    assert_eq!(parse_u64(b"12 "), None);
    assert_eq!(parse_u64(b"++1"), None);
    assert_eq!(parse_u64(b"1.5"), None);
}

#[test]
fn parse_u64_refuses_what_is_too_large() {
    assert_eq!(parse_u64(b"18446744073709551616"), None);
    assert_eq!(parse_u64(b"99999999999999999999"), None);
    assert_eq!(parse_u64(b"184467440737095516150"), None);
}

#[test]
fn parse_u64_agrees_with_the_standard_parser() {
    for text in ["7", "+7", "-7", "", "+", "007", "18446744073709551615", "18446744073709551616", "1_0", "0x10"] {
        assert_eq!(parse_u64(text.as_bytes()), text.parse::<u64>().ok());
    }
}

#[test]
fn parse_i64_reads_signed_numbers() {
    assert_eq!(parse_i64(b"0"), Some(0));
    assert_eq!(parse_i64(b"-0"), Some(0));
    assert_eq!(parse_i64(b"+5"), Some(5));
    assert_eq!(parse_i64(b"-5"), Some(-5));
    assert_eq!(parse_i64(b"1700000000"), Some(1_700_000_000));
    assert_eq!(parse_i64(b"9223372036854775807"), Some(i64::MAX));
    assert_eq!(parse_i64(b"-9223372036854775808"), Some(i64::MIN));
}

#[test]
fn parse_i64_refuses_what_is_out_of_range_or_no_number() {
    assert_eq!(parse_i64(b"9223372036854775808"), None);
    assert_eq!(parse_i64(b"-9223372036854775809"), None);
    assert_eq!(parse_i64(b"99999999999999999999999"), None);
    assert_eq!(parse_i64(b""), None);
    assert_eq!(parse_i64(b"-"), None);
    assert_eq!(parse_i64(b"+-1"), None);
    assert_eq!(parse_i64(b"-+1"), None);
    assert_eq!(parse_i64(b"--1"), None);
    assert_eq!(parse_i64(b"12x"), None);
}

#[test]
fn parse_i64_agrees_with_the_standard_parser() {
    for text in ["7", "+7", "-7", "", "-", "+", "-007", "9223372036854775807", "9223372036854775808", "-9223372036854775808", "-9223372036854775809", "1e3"] {
        assert_eq!(parse_i64(text.as_bytes()), text.parse::<i64>().ok());
    }
}

#[test]
fn decimal_writes_digits_without_leading_zeros() {
    assert_eq!(decimal(0), b"0");
    assert_eq!(decimal(7), b"7");
    assert_eq!(decimal(10), b"10");
    assert_eq!(decimal(1234), b"1234");
    assert_eq!(decimal(u64::MAX), b"18446744073709551615");
}

#[test]
fn decimal_string_agrees_with_the_standard_writer() {
    for n in [0u64, 1, 9, 10, 99, 100, 1_000_000, 5_500_000_000, u64::MAX] {
        assert_eq!(decimal_string(n), n.to_string());
    }
}

#[test]
fn decimal_and_parse_are_inverse() {
    for n in [0u64, 5, 10, 1234, 999_999_999_999, u64::MAX] {
        assert_eq!(parse_u64(&decimal(n)), Some(n));
    }
}

#[test]
fn all_ascii_tells_the_high_bytes() {
    assert!(all_ascii(b""));
    assert!(all_ascii(b"abc 123 \x7f"));
    assert!(!all_ascii(b"abc\x80"));
    assert!(!all_ascii("caf\u{e9}".as_bytes()));
}

#[test]
fn skipping_from_beyond_the_end_stays_there() {
    assert_eq!(skip_blanks(b"  ", 5), 5);
    assert_eq!(skip_word(b"ab", 7), 7);
    assert_eq!(skip_blanks_back(b"  ", 9), 9);
}

#[test]
fn signed_decimals_agree_with_the_standard_writer() {
    for n in [0i64, 1, -1, 9, -10, 1_700_000_000, -8_334_601_228_801, i64::MAX, i64::MIN, i64::MIN + 1] {
        assert_eq!(signed_decimal_string(n), n.to_string());
        assert_eq!(parse_i64(signed_decimal_string(n).as_bytes()), Some(n));
    }
}
