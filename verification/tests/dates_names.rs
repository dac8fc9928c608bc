use bkupeval::date_text::{name_can_be_cut, name_date, name_date_answered, text_date, text_date_answered, DirDate};
use bkupeval::dates::{civil_date_ok, Stamp};

fn stamp(year: i32, month: u32, day: u32, hour: u32, minute: u32, second: u32) -> Stamp {
    Stamp { year, month, day, hour, minute, second }
}

fn no_dir() -> DirDate {
    DirDate { year: None, month: None, day: None }
}

#[test]
fn calendar_dates() {
    assert!(civil_date_ok(2024, 2, 29));
    assert!(!civil_date_ok(2023, 2, 29));
    assert!(!civil_date_ok(1900, 2, 29));
    assert!(civil_date_ok(2000, 2, 29));
    assert!(!civil_date_ok(2024, 4, 31));
    assert!(!civil_date_ok(2024, 13, 1));
    assert!(!civil_date_ok(2024, 0, 1));
    assert!(civil_date_ok(2024, 12, 31));
}

#[test]
fn dates_are_read_with_any_separators() {
    assert_eq!(text_date(b"2024:05:17 08:30:00", no_dir()), Some(stamp(2024, 5, 17, 8, 30, 0)));
    assert_eq!(text_date(b"2024-05-17 08:30:00", no_dir()), Some(stamp(2024, 5, 17, 8, 30, 0)));
    assert_eq!(text_date(b"2024_05_17_08_30_59", no_dir()), Some(stamp(2024, 5, 17, 8, 30, 59)));
}

#[test]
fn bad_date_texts_give_no_date() {
    assert_eq!(text_date(b"2024:05:17 24:00:00", no_dir()), None);
    assert_eq!(text_date(b"2024:05:17 08:60:00", no_dir()), None);
    assert_eq!(text_date(b"2024:02:30 08:00:00", no_dir()), None);
    assert_eq!(text_date(b"2024:05:17 08:30:00:01", no_dir()), None);
    assert_eq!(text_date(b"sometime", no_dir()), None);
    assert_eq!(text_date(b"-", no_dir()), None);
}

#[test]
fn missing_fields_count_as_zero() {
    assert_eq!(text_date(b"2024:05:17", no_dir()), Some(stamp(2024, 5, 17, 0, 0, 0)));
}

#[test]
fn the_folder_date_takes_the_place_of_fields() {
    let dd = DirDate { year: Some(2020), month: Some(1), day: Some(2) };
    assert_eq!(text_date(b"2024:05:17 08:30:00", dd), Some(stamp(2020, 1, 2, 8, 30, 0)));
    let only_year = DirDate { year: Some(2019), month: None, day: None };
    assert_eq!(text_date(b"2024:05:17 08:30:00", only_year), Some(stamp(2019, 5, 17, 8, 30, 0)));
}

#[test]
fn dates_in_file_names() {
    assert_eq!(name_date(b"2024_05_17_08_30_00_123_abc.jpg"), Some(stamp(2024, 5, 17, 8, 30, 0)));
    assert_eq!(name_date(b"2024_05_17_08_30_00_500_1234.jpg"), Some(stamp(2024, 5, 17, 8, 30, 0)));
    assert_eq!(name_date(b"2024_05_17_08_30_00_1234abc.jpg"), Some(stamp(2024, 5, 17, 8, 30, 0)));
    assert_eq!(name_date(b"2024_05_17_08_30_00_12a_abc.jpg"), None);
    assert_eq!(name_date(b"IMG_20240517_083000_12.jpg"), None);
    assert_eq!(name_date(b"2024_05_17_08_30.jpg"), None);
    assert_eq!(name_date(b"2024_13_17_08_30_00_123_abc.jpg"), None);
    assert_eq!(name_date(b"2024_05_17_08_30_00_-12_abc.jpg"), None);
}

#[test]
fn names_that_cannot_be_cut() {
    assert!(name_can_be_cut(b"short.jpg"));
    assert!(name_can_be_cut(b"2024_05_17_08_30_00_123_abc.jpg"));
    let mut odd = b"2024_05_17_08_30_00_12".to_vec();
    odd.extend_from_slice("é_x.jpg".as_bytes());
    assert!(!name_can_be_cut(&odd));
}

#[test]
fn the_answer_of_chrono_decides() {
    assert_eq!(text_date_answered(b"2024:05:17 08:30:00", no_dir(), true), Some(stamp(2024, 5, 17, 8, 30, 0)));
    assert_eq!(text_date_answered(b"2024:05:17 08:30:00", no_dir(), false), None);
    assert_eq!(text_date_answered(b"2024:05:17 25:30:00", no_dir(), true), None);
    assert_eq!(name_date_answered(b"2024_05_17_08_30_00_123_abc.jpg", true), Some(stamp(2024, 5, 17, 8, 30, 0)));
    assert_eq!(name_date_answered(b"2024_05_17_08_30_00_123_abc.jpg", false), None);
    assert_eq!(name_date_answered(b"2024_05_17_08_30_00_1x3_abc.jpg", true), None);
}
