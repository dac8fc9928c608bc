use bkupeval::lists::{
    check_output_name, check_reference, hd_list_record, line_count_entry, path_can_split, NameError, ReferenceError,
};
use bkupeval::records::{build_list_record, build_result_line, read_record_tail, RecordFault};

fn key_of(name: &[u8]) -> Vec<u8> {
    let mut k: Vec<u8> = Vec::new();
    for b in name {
        k.extend_from_slice(format!("{:02X}", b).as_bytes());
    }
    while k.len() < 512 {
        k.extend_from_slice(b"00");
    }
    k
}

#[test]
fn hd_record_has_the_fixed_layout() {
    let r = hd_list_record(b"HDname", b"/home/u/pics/a.jpg", b"2024-01-02 03:04:05", 1234);
    let mut expected = key_of(b"a.jpg");
    assert_eq!(&expected[0..10], b"612E6A7067");
    expected.extend_from_slice(b"0000000000001234 06HDname012/home/u/pics005a.jpg192024-01-02 03:04:05\n");
    assert_eq!(r, expected);
    assert_eq!(r.len(), 512 + 16 + 1 + 2 + 6 + 3 + 12 + 3 + 5 + 2 + 19 + 1);
}

#[test]
fn list_record_reads_back() {
    let key = key_of(b"b.jpg");
    let r = build_list_record(&key, b"0000000000000010", b"CD01", b"/pics", b"b.jpg", b"2024-01-01");
    match read_record_tail(&r, &r) {
        Ok(Some((dir, name, date))) => {
            assert_eq!(dir, b"/pics".to_vec());
            assert_eq!(name, b"b.jpg".to_vec());
            assert_eq!(date, b"2024-01-01".to_vec());
        }
        other => panic!("unexpected {:?}", other),
    }
}

#[test]
fn record_with_bad_lengths_is_refused() {
    let key = key_of(b"c.jpg");
    let mut r = build_list_record(&key, b"0000000000000010", b"CD01", b"/pics", b"c.jpg", b"2024-01-01");
    r[529] = b'x';
    assert_eq!(read_record_tail(&r, &r), Err(RecordFault::InvalidRefLen));
    let mut s = build_list_record(&key, b"0000000000000010", b"CD01", b"/pics", b"c.jpg", b"2024-01-01");
    s[535] = b'-';
    assert_eq!(read_record_tail(&s, &s), Err(RecordFault::InvalidDirLen));
}

#[test]
fn result_line_layout() {
    let l = build_result_line(b"/pics", b"a.jpg", 10, b"2024-01-01 10:00:00");
    assert_eq!(l, b"005/pics005a.jpg160000000000000010192024-01-01 10:00:00\n".to_vec());
}

#[test]
fn path_split_needs_a_slash() {
    assert!(!path_can_split(b"noslash.jpg"));
    assert!(path_can_split(b"/a/b.jpg"));
    assert!(path_can_split(b"/a/"));
}

#[test]
fn output_names_are_checked_in_order() {
    assert_eq!(check_output_name(b"ab"), Some(NameError::TooShort));
    assert_eq!(check_output_name(b"abcd"), Some(NameError::NoType));
    assert_eq!(check_output_name(b"abcd.tx"), Some(NameError::TypeTooShort));
    assert_eq!(check_output_name(b"ab.txt"), Some(NameError::BaseTooShort));
    assert_eq!(check_output_name(b"same.slist"), None);
    assert_eq!(check_output_name(b"target.cdlist"), None);
}

#[test]
fn reference_names_are_checked() {
    assert_eq!(check_reference(b"ab"), Some(ReferenceError::TooShort));
    assert_eq!(check_reference(b"0123456789abcdef"), Some(ReferenceError::TooLong));
    assert_eq!(check_reference(b"HDname"), None);
}

#[test]
fn line_counts_start_at_ten() {
    assert_eq!(line_count_entry(b"10"), Some(10));
    assert_eq!(line_count_entry(b"12345"), Some(12345));
    assert_eq!(line_count_entry(b"9"), None);
    assert_eq!(line_count_entry(b""), None);
    assert_eq!(line_count_entry(b"ten"), None);
    assert_eq!(line_count_entry(b"-20"), None);
}

#[test]
fn keys_come_in_the_order_of_the_names() {
    let key = |n: &str| {
        let mut out = Vec::new();
        bkupeval::records::push_name_key(&mut out, n.as_bytes());
        out
    };
    let names = ["", "a", "ab", "abc", "b", "B", "é", "z.jpg"];
    for x in names.iter() {
        for y in names.iter() {
            assert_eq!(key(x) < key(y), x.as_bytes() < y.as_bytes());
            assert_eq!(key(x) == key(y), x == y);
        }
    }
}
