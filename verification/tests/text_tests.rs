use forge_chat::text::{
    bytes_eq, contains_in, find_in, is_boundary_at, join_with, lines_in, parse_usize_in, push_decimal, rfind_in,
    starts_with_in, trim_end_byte_len, trim_end_len, trimmed,
};

#[test]
fn find_and_rfind_positions() {
    assert_eq!(find_in(b"a@@b@@c", b"@@"), Some(1));
    assert_eq!(rfind_in(b"a@@b@@c", b"@@"), Some(4));
    assert_eq!(find_in(b"abc", b"x"), None);
    assert_eq!(rfind_in(b"ab", b"abc"), None);
    assert!(contains_in(b"<think>hi", b"<think>"));
    assert!(!contains_in(b"<thin", b"<think>"));
    assert!(starts_with_in(b"data: x", b"data: "));
    assert!(bytes_eq(b"abc", b"abc"));
    assert!(!bytes_eq(b"abc", b"abd"));
}

#[test]
fn trim_removes_unicode_whitespace() {
    let s = "\u{a0} \t hello world \u{3000}\u{2029}\n".as_bytes();
    assert_eq!(trimmed(s), b"hello world".to_vec());
    let e = "line  \r".as_bytes();
    assert_eq!(trim_end_len(e), 4);
    assert_eq!(trimmed(b"   "), Vec::<u8>::new());
    // U+200B (zero width space) is not whitespace
    let z = "\u{200b}x".as_bytes();
    assert_eq!(trimmed(z), z.to_vec());
}

#[test]
fn trim_end_of_slashes() {
    assert_eq!(trim_end_byte_len(b"/a/b//", b'/'), 4);
    assert_eq!(trim_end_byte_len(b"///", b'/'), 0);
}

#[test]
fn parse_usize_like_str_parse() {
    assert_eq!(parse_usize_in(b"42"), Some(42));
    assert_eq!(parse_usize_in(b"+7"), Some(7));
    assert_eq!(parse_usize_in(b""), None);
    assert_eq!(parse_usize_in(b"+"), None);
    assert_eq!(parse_usize_in(b"-1"), None);
    assert_eq!(parse_usize_in(b"1a"), None);
    assert_eq!(parse_usize_in(b"99999999999999999999999"), None);
    assert_eq!(parse_usize_in(usize::MAX.to_string().as_bytes()), Some(usize::MAX));
}

#[test]
fn lines_like_str_lines() {
    let v = lines_in(b"a\r\nb\n\nc");
    assert_eq!(v, vec![b"a".to_vec(), b"b".to_vec(), b"".to_vec(), b"c".to_vec()]);
    assert_eq!(lines_in(b"x\n"), vec![b"x".to_vec()]);
    assert_eq!(lines_in(b""), Vec::<Vec<u8>>::new());
    assert_eq!(lines_in(b"a\r"), vec![b"a\r".to_vec()]);
}

#[test]
fn decimal_and_join() {
    let mut out = b"n=".to_vec();
    push_decimal(&mut out, 1050);
    assert_eq!(out, b"n=1050".to_vec());
    let mut z = Vec::new();
    push_decimal(&mut z, 0);
    assert_eq!(z, b"0".to_vec());
    let parts = vec![b"a".to_vec(), b"b".to_vec(), b"c".to_vec()];
    assert_eq!(join_with(&parts, b", "), b"a, b, c".to_vec());
    assert_eq!(join_with(&Vec::new(), b", "), Vec::<u8>::new());
}

#[test]
fn char_boundaries() {
    let s = "a\u{e9}b".as_bytes(); // a, c3 a9, b
    assert!(is_boundary_at(s, 0));
    assert!(is_boundary_at(s, 1));
    assert!(!is_boundary_at(s, 2));
    assert!(is_boundary_at(s, 3));
    assert!(is_boundary_at(s, 4));
    assert!(!is_boundary_at(s, 5));
}
