use http_server::bytes::{bytes_eq_ignore_case, find_bytes, parse_decimal, push_decimal};

#[test]
fn finds_first_occurrence() {
    assert_eq!(find_bytes(b"a\r\nb\r\n", b"\r\n", 0), Some(1));
    assert_eq!(find_bytes(b"a\r\nb\r\n", b"\r\n", 2), Some(4));
    assert_eq!(find_bytes(b"a\r\nb\r\n", b"\r\n", 5), None);
    assert_eq!(find_bytes(b"abc", b"abcd", 0), None);
}

#[test]
fn decimal_round_trip() {
    let mut out = Vec::new();
    push_decimal(0, &mut out);
    assert_eq!(out, b"0".to_vec());
    let mut out = b"n=".to_vec();
    push_decimal(1234567890, &mut out);
    assert_eq!(out, b"n=1234567890".to_vec());
    assert_eq!(parse_decimal(b"1234567890"), Some(1234567890));
    assert_eq!(parse_decimal(b"007"), Some(7));
    assert_eq!(parse_decimal(b""), None);
    assert_eq!(parse_decimal(b"+5"), Some(5));
    assert_eq!(parse_decimal(b"+"), None);
    assert_eq!(parse_decimal(b"++5"), None);
    assert_eq!(parse_decimal(b"-5"), None);
    assert_eq!(parse_decimal(b"18446744073709551615"), Some(usize::MAX));
    assert_eq!(parse_decimal(b"18446744073709551616"), None);
}

#[test]
fn case_insensitive_comparison() {
    assert!(bytes_eq_ignore_case(b"Content-Length", b"content-LENGTH"));
    assert!(!bytes_eq_ignore_case(b"Content-Length", b"Content-Lengt"));
    assert!(!bytes_eq_ignore_case(b"[", b"{"));
}
