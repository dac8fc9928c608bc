use bkupeval::evaluate::{evaluate_lists, evaluation_aborts, EvalError, LineSource, Side};
use bkupeval::lists::hd_list_record;
use bkupeval::records::{build_list_record, build_result_line, RecordFault};

fn key_of(name: &[u8]) -> Vec<u8> {
    let mut k: Vec<u8> = Vec::new();
    for b in name {
        k.extend_from_slice(format!("{:02X}", b).as_bytes());
    }
    while k.len() < 512 {
        k.extend_from_slice(b"00");
    }
    k
}

fn cd_record(name: &[u8], size: u64) -> Vec<u8> {
    let size_text = format!("{:016}", size);
    build_list_record(&key_of(name), size_text.as_bytes(), b"CD01", b"/backup", name, b"2024-01-01")
}

fn hd_record(name: &[u8], size: u64) -> Vec<u8> {
    let mut path = b"/pics/".to_vec();
    path.extend_from_slice(name);
    hd_list_record(b"HDname", &path, b"2024-01-02 10:00:00", size)
}

fn source(lines: Vec<Vec<u8>>) -> LineSource {
    LineSource { lines, read_error: false }
}

#[test]
fn same_diff_and_not_found() {
    let hd = source(vec![hd_record(b"a.jpg", 10), hd_record(b"b.jpg", 20), hd_record(b"c.jpg", 5)]);
    let cd = source(vec![cd_record(b"a.jpg", 10), cd_record(b"b.jpg", 25)]);
    assert!(!evaluation_aborts(&hd, &cd));
    let o = evaluate_lists(&hd, &cd);
    assert!(o.created);
    assert_eq!(o.error, None);
    assert_eq!(o.same, vec![build_result_line(b"/pics", b"a.jpg", 10, b"2024-01-02 10:00:00")]);
    assert_eq!(o.diff, vec![build_result_line(b"/pics", b"b.jpg", 20, b"2024-01-02 10:00:00")]);
    assert_eq!(o.not_found, vec![build_result_line(b"/pics", b"c.jpg", 5, b"2024-01-02 10:00:00")]);
}

#[test]
fn each_hd_file_is_listed_once() {
    let hd = source(vec![hd_record(b"a.jpg", 1), hd_record(b"d.jpg", 2), hd_record(b"e.jpg", 3)]);
    let cd = source(vec![cd_record(b"b.jpg", 1), cd_record(b"e.jpg", 3)]);
    let o = evaluate_lists(&hd, &cd);
    assert_eq!(o.error, None);
    assert_eq!(o.same.len() + o.diff.len() + o.not_found.len(), 3);
    assert_eq!(o.same.len(), 1);
    assert_eq!(o.not_found.len(), 2);
}

#[test]
fn a_bigger_backup_copy_is_a_difference() {
    let hd = source(vec![hd_record(b"a.jpg", 30)]);
    let cd = source(vec![cd_record(b"a.jpg", 10)]);
    let o = evaluate_lists(&hd, &cd);
    assert_eq!(o.error, None);
    assert_eq!(o.same.len(), 0);
    assert_eq!(o.diff, vec![build_result_line(b"/pics", b"a.jpg", 30, b"2024-01-02 10:00:00")]);
    assert_eq!(o.not_found.len(), 0);
}

#[test]
fn unsorted_lists_are_reported() {
    let hd = source(vec![hd_record(b"b.jpg", 1), hd_record(b"a.jpg", 1)]);
    let cd = source(vec![cd_record(b"a.jpg", 1), cd_record(b"z.jpg", 1)]);
    let o = evaluate_lists(&hd, &cd);
    assert!(o.created);
    assert_eq!(o.error, Some(EvalError::NotSorted(Side::Hd)));

    let hd2 = source(vec![hd_record(b"m.jpg", 1)]);
    let cd2 = source(vec![cd_record(b"b.jpg", 1), cd_record(b"a.jpg", 1)]);
    let o2 = evaluate_lists(&hd2, &cd2);
    assert_eq!(o2.error, Some(EvalError::NotSorted(Side::Cd)));

    let cd3 = source(vec![cd_record(b"a.jpg", 5), cd_record(b"a.jpg", 4)]);
    let o3 = evaluate_lists(&hd2, &cd3);
    assert_eq!(o3.error, Some(EvalError::CdSameKeySmaller));
}

#[test]
fn empty_and_short_lists_create_nothing() {
    let empty = source(vec![]);
    let cd = source(vec![cd_record(b"a.jpg", 1)]);
    let o = evaluate_lists(&empty, &cd);
    assert!(!o.created);
    assert_eq!(o.error, Some(EvalError::Empty(Side::Hd)));

    let failed = LineSource { lines: vec![], read_error: true };
    let o2 = evaluate_lists(&failed, &cd);
    assert_eq!(o2.error, Some(EvalError::FirstRead(Side::Hd)));

    let short = source(vec![b"too short\n".to_vec()]);
    let o3 = evaluate_lists(&short, &cd);
    assert_eq!(o3.error, Some(EvalError::FirstRecord(Side::Hd, RecordFault::TooSmall)));

    let hd = source(vec![hd_record(b"a.jpg", 1)]);
    let o4 = evaluate_lists(&hd, &empty);
    assert_eq!(o4.error, Some(EvalError::Empty(Side::Cd)));
}

#[test]
fn a_read_error_stops_the_merge() {
    let hd = LineSource { lines: vec![hd_record(b"a.jpg", 1)], read_error: true };
    let cd = source(vec![cd_record(b"a.jpg", 1)]);
    let o = evaluate_lists(&hd, &cd);
    assert!(o.created);
    assert_eq!(o.same.len(), 1);
    assert_eq!(o.error, Some(EvalError::Read(Side::Hd)));
}
