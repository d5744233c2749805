use core_mini_http::text::{
    bytes_eq, ends_with_bytes, find_bytes, find_bytes_from, matches_at, parse_decimal, push_bytes,
    push_decimal, rfind_bytes, starts_with_bytes, str_slice,
};

#[test]
fn searching_bytes() {
    assert_eq!(find_bytes(b"a: b: c", b": "), Some(1));
    assert_eq!(find_bytes_from(b"a: b: c", b": ", 2), Some(4));
    assert_eq!(find_bytes_from(b"a: b: c", b": ", 5), None);
    assert_eq!(find_bytes_from(b"a: b: c", b": ", 50), None);
    assert_eq!(rfind_bytes(b"a: b: c", b": "), Some(4));
    assert_eq!(find_bytes(b"abc", b"abcd"), None);
    assert_eq!(rfind_bytes(b"abc", b"abcd"), None);
    assert_eq!(find_bytes(b"aaa", b"aa"), Some(0));
    assert_eq!(rfind_bytes(b"aaa", b"aa"), Some(1));
    assert_eq!(find_bytes(b"abc", b"c"), Some(2));
    assert_eq!(rfind_bytes(b"abc", b"a"), Some(0));
    assert_eq!(find_bytes(b"abc", b"x"), None);
    assert_eq!(rfind_bytes(b"abc", b"x"), None);
    assert_eq!(find_bytes(b"", b"x"), None);
    assert!(matches_at(b"abc", b"bc", 1));
    assert!(!matches_at(b"abc", b"bc", 2));
    assert!(!matches_at(b"abc", b"bc", 0));
    assert!(!matches_at(b"abc", b"bc", usize::MAX));
}

#[test]
fn prefixes_and_suffixes() {
    assert!(starts_with_bytes(b"GET /", b"GET"));
    assert!(starts_with_bytes(b"GET", b"GET"));
    assert!(starts_with_bytes(b"GET", b""));
    assert!(!starts_with_bytes(b"GE", b"GET"));
    assert!(!starts_with_bytes(b" GET", b"GET"));
    assert!(ends_with_bytes(b"/ HTTP/1.1", b"HTTP/1.1"));
    assert!(ends_with_bytes(b"abc", b""));
    assert!(!ends_with_bytes(b"/ HTTP/1.1 ", b"HTTP/1.1"));
    assert!(!ends_with_bytes(b"1.1", b"HTTP/1.1"));
    assert!(bytes_eq(b"abc", b"abc"));
    assert!(bytes_eq(b"", b""));
    assert!(!bytes_eq(b"abc", b"abd"));
    assert!(!bytes_eq(b"abc", b"ab"));
}

#[test]
fn reading_decimal_numbers() {
    assert_eq!(parse_decimal(b"0", 65535), Some(0));
    assert_eq!(parse_decimal(b"200", 65535), Some(200));
    assert_eq!(parse_decimal(b"+200", 65535), Some(200));
    assert_eq!(parse_decimal(b"000200", 65535), Some(200));
    assert_eq!(parse_decimal(b"65535", 65535), Some(65535));
    assert_eq!(parse_decimal(b"65536", 65535), None);
    assert_eq!(parse_decimal(b"4294967295", 4294967295), Some(4294967295));
    assert_eq!(parse_decimal(b"4294967296", 4294967295), None);
    assert_eq!(parse_decimal(b"00000000000000000000000000000000000000007", 7), Some(7));
    assert_eq!(parse_decimal(b"99999999999999999999999999999999999999999", 4294967295), None);
    assert_eq!(parse_decimal(b"", 65535), None);
    assert_eq!(parse_decimal(b"+", 65535), None);
    assert_eq!(parse_decimal(b"-1", 65535), None);
    assert_eq!(parse_decimal(b"1+", 65535), None);
    assert_eq!(parse_decimal(b"12a", 65535), None);
    assert_eq!(parse_decimal(b"70000a", 65535), None);
    assert_eq!(parse_decimal(b" 1", 65535), None);
    assert_eq!(parse_decimal(b"1/", 65535), None);
    assert_eq!(parse_decimal(b"1:", 65535), None);
}

#[test]
fn writing_decimal_numbers() {
    let mut out = b"n=".to_vec();
    push_decimal(&mut out, 0);
    push_bytes(&mut out, b",");
    push_decimal(&mut out, 9);
    push_bytes(&mut out, b",");
    push_decimal(&mut out, 10);
    push_bytes(&mut out, b",");
    push_decimal(&mut out, 65535);
    push_bytes(&mut out, b",");
    push_decimal(&mut out, 18446744073709551615);
    push_bytes(&mut out, b"");
    assert_eq!(out, b"n=0,9,10,65535,18446744073709551615".to_vec());
}

#[test]
fn slicing_text() {
    assert_eq!(str_slice("caf\u{e9} au lait", 0, 5), "caf\u{e9}");
    assert_eq!(str_slice("caf\u{e9} au lait", 6, 8), "au");
    assert_eq!(str_slice("abc", 3, 3), "");
    assert_eq!(str_slice("abc", 0, 3), "abc");
}
