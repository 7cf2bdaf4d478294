use my_redis::decimal::{parse_i64, parse_u64, push_i64, push_u64};
use my_redis::line::{contains_crlf, find_line};

fn text_u64(n: u64) -> Vec<u8> {
    let mut out = Vec::new();
    push_u64(&mut out, n);
    out
}

fn text_i64(n: i64) -> Vec<u8> {
    let mut out = Vec::new();
    push_i64(&mut out, n);
    out
}

#[test]
fn unsigned_numbers_are_written_in_decimal() {
    assert_eq!(text_u64(0), b"0".to_vec());
    assert_eq!(text_u64(9), b"9".to_vec());
    assert_eq!(text_u64(10), b"10".to_vec());
    assert_eq!(text_u64(1234567890), b"1234567890".to_vec());
    assert_eq!(text_u64(u64::MAX), b"18446744073709551615".to_vec());
}

#[test]
fn signed_numbers_are_written_in_decimal() {
    assert_eq!(text_i64(0), b"0".to_vec());
    assert_eq!(text_i64(-1), b"-1".to_vec());
    assert_eq!(text_i64(305), b"305".to_vec());
    assert_eq!(text_i64(i64::MIN), b"-9223372036854775808".to_vec());
    assert_eq!(text_i64(i64::MAX), b"9223372036854775807".to_vec());
}

#[test]
fn unsigned_numbers_are_read() {
    assert_eq!(parse_u64(b"0"), Some(0));
    assert_eq!(parse_u64(b"42"), Some(42));
    assert_eq!(parse_u64(b"00042"), Some(42));
    assert_eq!(parse_u64(b"18446744073709551615"), Some(u64::MAX));
    assert_eq!(parse_u64(b"18446744073709551616"), None);
    assert_eq!(parse_u64(b"184467440737095516150"), None);
    assert_eq!(parse_u64(b""), None);
    assert_eq!(parse_u64(b"-1"), None);
    assert_eq!(parse_u64(b"1 "), None);
    assert_eq!(parse_u64(b"1e3"), None);
}

#[test]
fn signed_numbers_are_read() {
    assert_eq!(parse_i64(b"0"), Some(0));
    assert_eq!(parse_i64(b"-0"), Some(0));
    assert_eq!(parse_i64(b"-17"), Some(-17));
    assert_eq!(parse_i64(b"9223372036854775807"), Some(i64::MAX));
    assert_eq!(parse_i64(b"-9223372036854775808"), Some(i64::MIN));
    assert_eq!(parse_i64(b"9223372036854775808"), None);
    assert_eq!(parse_i64(b"-9223372036854775809"), None);
    assert_eq!(parse_i64(b"-"), None);
    assert_eq!(parse_i64(b"--1"), None);
    assert_eq!(parse_i64(b"+1"), None);
    assert_eq!(parse_i64(b""), None);
}

#[test]
fn what_is_written_reads_back() {
    for n in [0u64, 1, 9, 10, 99, 100, 65535, 4294967296, u64::MAX] {
        assert_eq!(parse_u64(&text_u64(n)), Some(n));
    }
    for n in [0i64, 1, -1, 10, -10, 123456789, -123456789, i64::MIN, i64::MAX] {
        assert_eq!(parse_i64(&text_i64(n)), Some(n));
    }
}

#[test]
fn the_first_terminator_ends_the_line() {
    assert_eq!(find_line(b"abc\r\ndef\r\n", 0), Some(3));
    assert_eq!(find_line(b"abc\r\ndef\r\n", 3), Some(3));
    assert_eq!(find_line(b"abc\r\ndef\r\n", 4), Some(8));
    assert_eq!(find_line(b"abc\r\ndef\r\n", 9), None);
    assert_eq!(find_line(b"abc\r\ndef\r\n", 10), None);
    assert_eq!(find_line(b"\r\n", 0), Some(0));
    assert_eq!(find_line(b"a\rb\nc\n\r", 0), None);
    assert_eq!(find_line(b"abc\r", 0), None);
    assert_eq!(find_line(b"", 0), None);
    assert_eq!(find_line(b"\r\r\n", 0), Some(1));
}

#[test]
fn a_terminator_is_found_wherever_it_stands() {
    assert!(contains_crlf(b"\r\n"));
    assert!(contains_crlf(b"ab\r\ncd"));
    assert!(contains_crlf(b"ab\r\r\n"));
    assert!(!contains_crlf(b""));
    assert!(!contains_crlf(b"\r"));
    assert!(!contains_crlf(b"ab\rcd\n"));
    assert!(!contains_crlf(b"\n\r"));
}
