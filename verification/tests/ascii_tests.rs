use minihttp::ascii::{
    bytes_eq, find_first, format_dec, parse_dec, to_lower, to_upper, tokenize, trim_bytes,
};

#[test]
fn trim_removes_surrounding_whitespace() {
    assert_eq!(trim_bytes(b"  hello\t "), b"hello".to_vec());
    assert_eq!(trim_bytes(b"hello"), b"hello".to_vec());
    assert_eq!(trim_bytes(b" \t\r\n "), Vec::<u8>::new());
    assert_eq!(trim_bytes(b""), Vec::<u8>::new());
    assert_eq!(trim_bytes(b" a b "), b"a b".to_vec());
}

#[test]
fn case_mapping_is_ascii_only() {
    assert_eq!(to_upper(b"Get-2!"), b"GET-2!".to_vec());
    assert_eq!(to_lower(b"Content-Length"), b"content-length".to_vec());
}

#[test]
fn parse_dec_accepts_digit_strings() {
    assert_eq!(parse_dec(b"0"), Some(0));
    assert_eq!(parse_dec(b"5"), Some(5));
    assert_eq!(parse_dec(b"007"), Some(7));
    assert_eq!(parse_dec(b"18446744073709551615"), Some(usize::MAX));
}

#[test]
fn parse_dec_rejects_bad_input() {
    assert_eq!(parse_dec(b""), None);
    assert_eq!(parse_dec(b"-1"), None);
    assert_eq!(parse_dec(b"12a"), None);
    assert_eq!(parse_dec(b" 5"), None);
    assert_eq!(parse_dec(b"18446744073709551616"), None);
    assert_eq!(parse_dec(b"99999999999999999999999999"), None);
}

#[test]
fn format_dec_writes_decimal() {
    assert_eq!(format_dec(0), b"0".to_vec());
    assert_eq!(format_dec(9), b"9".to_vec());
    assert_eq!(format_dec(63), b"63".to_vec());
    assert_eq!(format_dec(10203), b"10203".to_vec());
}

#[test]
fn tokenize_drops_empty_pieces() {
    let toks = tokenize(b"GET  /  HTTP/1.1", 32);
    assert_eq!(toks, vec![b"GET".to_vec(), b"/".to_vec(), b"HTTP/1.1".to_vec()]);
    let toks = tokenize(b"  ", 32);
    assert_eq!(toks, Vec::<Vec<u8>>::new());
    let toks = tokenize(b"a,,b,", b',');
    assert_eq!(toks, vec![b"a".to_vec(), b"b".to_vec()]);
}

#[test]
fn find_first_reports_first_occurrence() {
    assert_eq!(find_first(b"name: v:w", b':'), Some(4));
    assert_eq!(find_first(b"abc", b':'), None);
    assert_eq!(find_first(b"", b':'), None);
}

#[test]
fn bytes_eq_compares_contents() {
    assert!(bytes_eq(b"abc", b"abc"));
    assert!(!bytes_eq(b"abc", b"abd"));
    assert!(!bytes_eq(b"abc", b"ab"));
    assert!(bytes_eq(b"", b""));
}
