use bkupeval::text::{
    bytes_eq, bytes_lt, contains, ends_with, find, parse_int, push_dec, push_dec_pad, push_hex, rfind, split_bytes,
};

#[test]
fn parse_int_reads_like_str_parse() {
    assert_eq!(parse_int(b"123", -2147483648, 2147483647), Some(123));
    assert_eq!(parse_int(b"-5", -2147483648, 2147483647), Some(-5));
    assert_eq!(parse_int(b"+7", -2147483648, 2147483647), Some(7));
    assert_eq!(parse_int(b"-00", -2147483648, 2147483647), Some(0));
    assert_eq!(parse_int(b"0042", -2147483648, 2147483647), Some(42));
}

#[test]
fn parse_int_refuses_what_str_parse_refuses() {
    assert_eq!(parse_int(b"", -2147483648, 2147483647), None);
    assert_eq!(parse_int(b"-", -2147483648, 2147483647), None);
    assert_eq!(parse_int(b"12a", -2147483648, 2147483647), None);
    assert_eq!(parse_int(b" 12", -2147483648, 2147483647), None);
    assert_eq!(parse_int(b"2147483648", -2147483648, 2147483647), None);
    assert_eq!(parse_int(b"-2147483648", -2147483648, 2147483647), Some(-2147483648));
}

#[test]
fn find_and_rfind_give_first_and_last() {
    assert_eq!(find(b"abcabc", b"bc"), Some(1));
    assert_eq!(rfind(b"abcabc", b"bc"), Some(4));
    assert_eq!(find(b"abcabc", b"x"), None);
    assert_eq!(rfind(b"/a/b/c.jpg", b"/"), Some(4));
    assert!(contains(b"<Name>x</Name>", b"</Name>"));
    assert!(!contains(b"<Name>x", b"</Name>"));
}

#[test]
fn ends_with_checks_the_tail() {
    assert!(ends_with(b"photo.jpg", b".jpg"));
    assert!(!ends_with(b"photo.jpgx", b".jpg"));
    assert!(!ends_with(b"jpg", b".jpg"));
}

#[test]
fn split_keeps_empty_pieces() {
    let parts = split_bytes(b"a_b__c", b'_');
    assert_eq!(parts, vec![b"a".to_vec(), b"b".to_vec(), b"".to_vec(), b"c".to_vec()]);
    let one = split_bytes(b"abc", b'_');
    assert_eq!(one, vec![b"abc".to_vec()]);
    let ends = split_bytes(b"_", b'_');
    assert_eq!(ends, vec![b"".to_vec(), b"".to_vec()]);
}

#[test]
fn byte_order_is_that_of_str() {
    assert!(bytes_lt(b"ab", b"abc"));
    assert!(!bytes_lt(b"abc", b"ab"));
    assert!(bytes_lt(b"a.jpg.jpg", b"a.jpg|"));
    assert!(!bytes_lt(b"a", b"a"));
    assert_eq!(bytes_lt(b"B", b"a"), "B" < "a");
    assert!(bytes_eq(b"same", b"same"));
    assert!(!bytes_eq(b"same", b"sam"));
}

#[test]
fn decimal_and_hex_output() {
    let mut v: Vec<u8> = Vec::new();
    push_dec_pad(&mut v, 7, 3);
    assert_eq!(v, b"007".to_vec());
    let mut w: Vec<u8> = Vec::new();
    push_dec_pad(&mut w, 12345, 3);
    assert_eq!(w, b"12345".to_vec());
    let mut d: Vec<u8> = Vec::new();
    push_dec(&mut d, 0);
    assert_eq!(d, b"0".to_vec());
    let mut h: Vec<u8> = Vec::new();
    push_hex(&mut h, &[0x01, 0xab, 0x7f]);
    assert_eq!(h, b"01AB7F".to_vec());
}
