use bkupeval::date_text::DirDate;
use bkupeval::settings::{Offset, UpdateSettings};
use bkupeval::updates::{update_may_abort_exec, update_row_answered, update_rows, update_rows_checked, Row, RowError, RowOutcome};

fn row(name: &str, current: &str, assigned: &str, new_name: &str) -> Row {
    Row {
        name: name.as_bytes().to_vec(),
        origin: b"file date".to_vec(),
        current: current.as_bytes().to_vec(),
        assigned: assigned.as_bytes().to_vec(),
        new_name: new_name.as_bytes().to_vec(),
    }
}

fn texts(r: &Row) -> (String, String, String, String, String) {
    (
        String::from_utf8(r.name.clone()).unwrap(),
        String::from_utf8(r.origin.clone()).unwrap(),
        String::from_utf8(r.current.clone()).unwrap(),
        String::from_utf8(r.assigned.clone()).unwrap(),
        String::from_utf8(r.new_name.clone()).unwrap(),
    )
}

fn t(a: &str, b: &str, c: &str, d: &str, e: &str) -> (String, String, String, String, String) {
    (a.to_string(), b.to_string(), c.to_string(), d.to_string(), e.to_string())
}

fn offset(days: i32, hours: i32) -> Offset {
    Offset { years: 0, months: 0, days, hours, minutes: 0, seconds: 0 }
}

fn no_dir() -> DirDate {
    DirDate { year: None, month: None, day: None }
}

fn settings(dir_date: DirDate, o: Offset, rename: bool, file_len: i32) -> UpdateSettings {
    let shift = dir_date.year.is_some() || o != offset(0, 0);
    UpdateSettings { dir_date, offset: o, shift, rename, file_len }
}

#[test]
fn offset_and_rename() {
    let rows = vec![row("IMG_1234.jpg", "2024-05-17 08:30:00", "-", "-")];
    let s = settings(no_dir(), offset(1, 0), true, 4);
    assert!(!update_may_abort_exec(&rows, None, &s));
    let o = update_rows(&rows, None, &s);
    assert_eq!(o.stopped, None);
    assert_eq!(
        o.rows.iter().map(texts).collect::<Vec<_>>(),
        vec![t("IMG_1234.jpg", "Date Chg", "2024-05-17 08:30:00", "2024:05:18 08:30:00", "2024_05_18_08_30_00_500_1234.jpg")]
    );
}

#[test]
fn short_names_are_padded_and_cleaned() {
    let rows = vec![row("a b.jpg", "2024:05:17 23:30:00", "-", "-")];
    let s = settings(no_dir(), offset(0, 1), true, 6);
    let o = update_rows(&rows, None, &s);
    assert_eq!(o.stopped, None);
    assert_eq!(
        o.rows.iter().map(texts).collect::<Vec<_>>(),
        vec![t("a b.jpg", "Date Chg", "2024:05:17 23:30:00", "2024:05:18 00:30:00", "2024_05_18_00_30_00_500_xxxa_b.jpg")]
    );
}

#[test]
fn without_offset_or_rename_the_rows_are_only_marked() {
    let rows = vec![row("a.jpg", "2024-05-17 08:30:00", "-", "-"), row("b.jpg", "2024-05-17 08:30:00", "2020:01:01 00:00:00", "x.jpg")];
    let s = settings(no_dir(), offset(0, 0), false, 0);
    let o = update_rows(&rows, None, &s);
    assert_eq!(o.stopped, None);
    assert_eq!(
        o.rows.iter().map(texts).collect::<Vec<_>>(),
        vec![
            t("a.jpg", "No Chg", "2024-05-17 08:30:00", "2024-05-17 08:30:00", "a.jpg"),
            t("b.jpg", "No Chg", "2024-05-17 08:30:00", "2020:01:01 00:00:00", "b.jpg"),
        ]
    );
}

#[test]
fn the_folder_date_replaces_the_date_fields() {
    let rows = vec![row("a.jpg", "2024-05-17 08:30:00", "-", "-")];
    let s = settings(DirDate { year: Some(2019), month: Some(12), day: None }, offset(0, 0), false, 0);
    let o = update_rows(&rows, None, &s);
    assert_eq!(
        o.rows.iter().map(texts).collect::<Vec<_>>(),
        vec![t("a.jpg", "Date Chg", "2024-05-17 08:30:00", "2019:12:17 08:30:00", "a.jpg")]
    );
}

#[test]
fn errors_stop_the_update() {
    let rows = vec![
        row("a.jpg", "2024-05-17 08:30:00", "-", "-"),
        row("b.c.jpg", "2024-05-17 08:30:00", "-", "-"),
        row("d.jpg", "2024-05-17 08:30:00", "-", "-"),
    ];
    let s = settings(no_dir(), offset(0, 0), true, 4);
    let o = update_rows(&rows, None, &s);
    assert_eq!(o.stopped, Some((1, RowError::NotOnePeriod)));
    assert_eq!(o.rows.len(), 1);

    let bad = vec![row("a.jpg", "sometime", "-", "-")];
    let s2 = settings(no_dir(), offset(1, 0), false, 0);
    let o2 = update_rows(&bad, None, &s2);
    assert_eq!(o2.stopped, Some((0, RowError::BadDate)));
    assert_eq!(o2.rows.len(), 0);

    let s3 = settings(no_dir(), offset(0, 0), true, 4);
    let o3 = update_rows(&bad, None, &s3);
    assert_eq!(o3.stopped, Some((0, RowError::BadAssignDate)));
}

#[test]
fn an_offset_out_of_chrono_range_makes_the_update_abort() {
    let rows = vec![row("a.jpg", "2024-05-17 08:30:00", "-", "-")];
    let big = Offset { years: 2000000, months: 0, days: 0, hours: 0, minutes: 0, seconds: 0 };
    assert!(update_may_abort_exec(&rows, None, &settings(no_dir(), big, false, 0)));
    let back = Offset { years: -2030, months: 0, days: 0, hours: 0, minutes: 0, seconds: 0 };
    assert!(!update_may_abort_exec(&rows, None, &settings(no_dir(), back, false, 0)));
    let huge_days = Offset { years: 0, months: 0, days: 2147483647, hours: 0, minutes: 0, seconds: 0 };
    assert!(update_may_abort_exec(&rows, None, &settings(no_dir(), huge_days, false, 0)));
}

#[test]
fn only_the_selected_rows_are_updated() {
    let rows = vec![row("a.jpg", "2024-05-17 08:30:00", "-", "old.jpg"), row("b.jpg", "2024-05-17 08:30:00", "-", "-")];
    let sel = vec![b"b.jpg".to_vec()];
    let s = settings(no_dir(), offset(0, 1), false, 0);
    let o = update_rows(&rows, Some(&sel), &s);
    assert_eq!(o.stopped, None);
    assert_eq!(
        o.rows.iter().map(texts).collect::<Vec<_>>(),
        vec![
            t("a.jpg", "No Chg", "2024-05-17 08:30:00", "2024-05-17 08:30:00", "old.jpg"),
            t("b.jpg", "Date Chg", "2024-05-17 08:30:00", "2024:05:17 09:30:00", "b.jpg"),
        ]
    );
}

#[test]
fn a_base_cut_inside_a_character_makes_the_update_abort() {
    let rows = vec![row("ééé.jpg", "2024-05-17 08:30:00", "-", "-")];
    let s = settings(no_dir(), offset(0, 0), true, 5);
    assert!(update_may_abort_exec(&rows, None, &s));
    let s4 = settings(no_dir(), offset(0, 0), true, 4);
    assert!(!update_may_abort_exec(&rows, None, &s4));
}

#[test]
fn one_row_with_the_answers_of_chrono() {
    let r = row("IMG_1234.jpg", "2024-05-17 08:30:00", "-", "-");
    let s = settings(no_dir(), offset(1, 0), true, 4);
    match update_row_answered(&r, &s, true, true) {
        RowOutcome::Updated(x) => {
            assert_eq!(texts(&x), t("IMG_1234.jpg", "Date Chg", "2024-05-17 08:30:00", "2024:05:18 08:30:00", "2024_05_18_08_30_00_500_1234.jpg"));
        }
        other => panic!("unexpected {:?}", other),
    }
    assert!(matches!(update_row_answered(&r, &s, false, true), RowOutcome::Failed(RowError::BadDate)));
    assert!(matches!(update_row_answered(&r, &s, true, false), RowOutcome::Failed(RowError::BadAssignDate)));
    let cut = row("ééé.jpg", "2024-05-17 08:30:00", "-", "-");
    assert!(matches!(update_row_answered(&cut, &settings(no_dir(), offset(0, 0), true, 5), true, true), RowOutcome::Aborts));
}

#[test]
fn the_checked_update_refuses_what_would_abort() {
    let rows = vec![row("ééé.jpg", "2024-05-17 08:30:00", "-", "-")];
    assert!(update_rows_checked(&rows, None, &settings(no_dir(), offset(0, 0), true, 5)).is_none());
    let o = update_rows_checked(&rows, None, &settings(no_dir(), offset(0, 0), true, 4)).unwrap();
    assert_eq!(o.stopped, None);
    assert_eq!(o.rows[0].new_name, b"2024_05_17_08_30_00_500___.jpg".to_vec());
}

#[test]
fn a_row_that_stops_the_update_comes_before_the_abort() {
    let rows = vec![row("a.jpg", "sometime", "-", "-"), row("ééé.jpg", "2024-05-17 08:30:00", "-", "-")];
    let s = settings(no_dir(), offset(1, 0), true, 5);
    let o = update_rows_checked(&rows, None, &s).unwrap();
    assert_eq!(o.stopped, Some((0, RowError::BadDate)));
    assert_eq!(o.rows.len(), 0);
}
