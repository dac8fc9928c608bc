use bkupeval::listing::{
    entry_line_answered, is_image_name, list_images, list_images_checked, listing_may_abort_exec, sort_lines, Entry, Listing,
};
use bkupeval::updates::Row;

fn entry(name: &str, is_file: bool, origin: &str, date: &str) -> Entry {
    Entry { name: name.as_bytes().to_vec(), is_file, origin: origin.as_bytes().to_vec(), date: date.as_bytes().to_vec() }
}

fn row_texts(r: &Row) -> (String, String, String, String, String) {
    (
        String::from_utf8(r.name.clone()).unwrap(),
        String::from_utf8(r.origin.clone()).unwrap(),
        String::from_utf8(r.current.clone()).unwrap(),
        String::from_utf8(r.assigned.clone()).unwrap(),
        String::from_utf8(r.new_name.clone()).unwrap(),
    )
}

fn t(a: &str, b: &str, c: &str, d: &str, e: &str) -> (String, String, String, String, String) {
    (a.to_string(), b.to_string(), c.to_string(), d.to_string(), e.to_string())
}

#[test]
fn image_names() {
    assert!(is_image_name(b"a.jpg"));
    assert!(is_image_name(b"a.JPG"));
    assert!(is_image_name(b"a.jpeg"));
    assert!(is_image_name(b"a.JPEG"));
    assert!(!is_image_name(b"a.Jpg"));
    assert!(!is_image_name(b"a.png"));
    assert!(!is_image_name(b"jpg"));
}

#[test]
fn images_listed_with_their_own_dates_sorted() {
    let entries = vec![
        entry("b.jpg", true, "file date", "2024-01-02 10:00:00"),
        entry("notes.txt", true, "file date", "2024-01-02 10:00:00"),
        entry("a.JPG", true, "date taken", "2023:12:31 23:59:59"),
        entry("dir.jpg", false, "file date", "2024-01-02 10:00:00"),
        entry("c.jpeg", true, "image date", "2022:01:01 00:00:00"),
    ];
    assert!(!listing_may_abort_exec(&entries, false));
    match list_images(&entries, false) {
        Listing::Listed(rows) => {
            let got: Vec<_> = rows.iter().map(row_texts).collect();
            assert_eq!(
                got,
                vec![
                    t("a.JPG", "date taken", "2023:12:31 23:59:59", "-", "-"),
                    t("b.jpg", "file date", "2024-01-02 10:00:00", "-", "-"),
                    t("c.jpeg", "image date", "2022:01:01 00:00:00", "-", "-"),
                ]
            );
        }
        other => panic!("unexpected {:?}", other),
    }
}

#[test]
fn lines_sort_as_whole_strings() {
    let entries = vec![
        entry("x.jpg", true, "file date", "2024-01-02 10:00:00"),
        entry("x.jpg.jpg", true, "file date", "2024-01-02 10:00:00"),
    ];
    match list_images(&entries, false) {
        Listing::Listed(rows) => {
            assert_eq!(rows[0].name, b"x.jpg.jpg".to_vec());
            assert_eq!(rows[1].name, b"x.jpg".to_vec());
        }
        other => panic!("unexpected {:?}", other),
    }
}

#[test]
fn dates_read_from_names() {
    let entries = vec![
        entry("2024_05_17_08_30_00_123_beach.jpg", true, "", ""),
        entry("2023_01_02_03_04_05_001_snow.jpg", true, "", ""),
        entry("readme.txt", true, "", ""),
    ];
    match list_images(&entries, true) {
        Listing::Listed(rows) => {
            let got: Vec<_> = rows.iter().map(row_texts).collect();
            assert_eq!(
                got,
                vec![
                    t("2023_01_02_03_04_05_001_snow.jpg", "date in name", "2023-01-02 03:04:05", "-", "-"),
                    t("2024_05_17_08_30_00_123_beach.jpg", "date in name", "2024-05-17 08:30:00", "-", "-"),
                ]
            );
        }
        other => panic!("unexpected {:?}", other),
    }
}

#[test]
fn a_name_without_a_date_stops_the_listing() {
    let entries = vec![
        entry("2024_05_17_08_30_00_123_beach.jpg", true, "", ""),
        entry("holiday.jpg", true, "", ""),
    ];
    assert!(matches!(list_images(&entries, true), Listing::BadDateInName));
    let short = vec![entry("2024_05_17_08_30.jpg", true, "", "")];
    assert!(matches!(list_images(&short, true), Listing::BadDateInName));
}

#[test]
fn a_folder_without_images() {
    let entries = vec![entry("notes.txt", true, "file date", "x"), entry("sub.jpg", false, "file date", "x")];
    assert!(matches!(list_images(&entries, false), Listing::NoImages));
    let none: Vec<Entry> = Vec::new();
    assert!(matches!(list_images(&none, true), Listing::NoImages));
}

#[test]
fn a_name_cut_inside_a_character_makes_the_listing_abort() {
    let mut name = "2024_05_17_08_30_00_12".to_string();
    name.push_str("é_x.jpg");
    let entries = vec![entry(&name, true, "", "")];
    assert!(listing_may_abort_exec(&entries, true));
    assert!(!listing_may_abort_exec(&entries, false));
    let after_bad = vec![entry("holiday.jpg", true, "", ""), entry(&name, true, "", "")];
    assert!(!listing_may_abort_exec(&after_bad, true));
}

#[test]
fn sorting_keeps_every_line() {
    let lines = vec![b"b".to_vec(), b"a".to_vec(), b"b".to_vec(), b"".to_vec()];
    assert_eq!(sort_lines(&lines), vec![b"".to_vec(), b"a".to_vec(), b"b".to_vec(), b"b".to_vec()]);
}

#[test]
fn one_line_with_the_answer_of_chrono() {
    let e = entry("2024_05_17_08_30_00_123_beach.jpg", true, "", "");
    assert_eq!(
        entry_line_answered(&e, true, true),
        Some(b"2024_05_17_08_30_00_123_beach.jpg|date in name|2024-05-17 08:30:00|-|-".to_vec())
    );
    assert_eq!(entry_line_answered(&e, true, false), None);
    let own = entry("a.jpg", true, "date taken", "2023:12:31 23:59:59");
    assert_eq!(entry_line_answered(&own, false, false), Some(b"a.jpg|date taken|2023:12:31 23:59:59|-|-".to_vec()));
}

#[test]
fn the_checked_listing_refuses_what_would_abort() {
    let mut name = "2024_05_17_08_30_00_12".to_string();
    name.push_str("é_x.jpg");
    let entries = vec![entry(&name, true, "", "")];
    assert!(list_images_checked(&entries, true).is_none());
    assert!(matches!(list_images_checked(&entries, false), Some(Listing::Listed(_))));
}

#[test]
fn a_name_without_a_date_comes_before_the_abort() {
    let mut name = "2024_05_17_08_30_00_12".to_string();
    name.push_str("é_x.jpg");
    let entries = vec![entry("holiday.jpg", true, "", ""), entry(&name, true, "", "")];
    assert!(matches!(list_images_checked(&entries, true), Some(Listing::BadDateInName)));
}

#[test]
fn the_own_date_of_an_image() {
    let f = b"2024-01-02 10:00:00".to_vec();
    let taken = Some(b"2023:12:31 23:59:59".to_vec());
    let image = Some(b"2023:12:30 12:00:00".to_vec());
    assert_eq!(
        bkupeval::listing::own_date(taken.clone(), image.clone(), f.clone()),
        (b"date taken".to_vec(), b"2023:12:31 23:59:59".to_vec())
    );
    assert_eq!(bkupeval::listing::own_date(None, image, f.clone()), (b"image date".to_vec(), b"2023:12:30 12:00:00".to_vec()));
    assert_eq!(bkupeval::listing::own_date(None, None, f.clone()), (b"file date".to_vec(), f));
}
