use bkupeval::copies::plan_copies;
use bkupeval::date_text::DirDate;
use bkupeval::listing::{list_images, Entry, Listing};
use bkupeval::settings::{check_settings, dir_date_label, Offset, UpdateRequest, UpdateSettings};
use bkupeval::updates::{update_rows, Row};

fn listed_rows(entries: &Vec<Entry>, date_in_name: bool) -> Vec<Row> {
    match list_images(entries, date_in_name) {
        Listing::Listed(rows) => rows,
        other => panic!("unexpected {:?}", other),
    }
}

fn entry(name: &[u8], date: &str) -> Entry {
    Entry { name: name.to_vec(), is_file: true, origin: b"file date".to_vec(), date: date.as_bytes().to_vec() }
}

fn rename_by_date(days: i32) -> UpdateSettings {
    UpdateSettings {
        dir_date: DirDate { year: None, month: None, day: None },
        offset: Offset { years: 0, months: 0, days, hours: 0, minutes: 0, seconds: 0 },
        shift: days != 0,
        rename: true,
        file_len: 8,
    }
}

#[test]
fn a_renamed_file_is_listed_with_the_date_it_was_given() {
    let entries = vec![entry(b"IMG_0001.jpg", "2024-05-17 08:30:00"), entry(b"IMG_0002.JPG", "2024-05-17 09:00:00")];
    let rows = listed_rows(&entries, false);
    let updated = update_rows(&rows, None, &rename_by_date(3));
    assert_eq!(updated.stopped, None);
    let renamed: Vec<Entry> = updated.rows.iter().map(|r| entry(&r.new_name, "")).collect();
    let relisted = listed_rows(&renamed, true);
    assert_eq!(relisted.len(), 2);
    assert_eq!(relisted[0].current, b"2024-05-20 08:30:00".to_vec());
    assert_eq!(relisted[1].current, b"2024-05-20 09:00:00".to_vec());
    assert_eq!(updated.rows[0].assigned, b"2024:05:20 08:30:00".to_vec());
}

#[test]
fn the_copy_sets_the_date_the_update_assigned() {
    let rows = vec![Row {
        name: b"IMG_0001.jpg".to_vec(),
        origin: b"file date".to_vec(),
        current: b"2024-05-17 08:30:00".to_vec(),
        assigned: b"-".to_vec(),
        new_name: b"-".to_vec(),
    }];
    let updated = update_rows(&rows, None, &rename_by_date(1));
    let plan = plan_copies(&updated.rows, b"/in", b"/out");
    assert_eq!(plan.bad_date_at, None);
    let mut expected = b"-AllDates=".to_vec();
    expected.extend_from_slice(&updated.rows[0].assigned);
    assert_eq!(plan.copies[0].date_arg, expected);
    assert_eq!(plan.copies[0].date_arg, b"-AllDates=2024:05:18 08:30:00".to_vec());
}

#[test]
fn a_folder_label_is_read_back_as_the_folder_date() {
    let label = dir_date_label(b"/photos/2019-trip/20191224");
    assert_eq!(label, b"YYYYMMDD: 20191224".to_vec());
    let req = UpdateRequest {
        use_source_date: true,
        use_target_date: false,
        source_label: label,
        target_label: b"NONE".to_vec(),
        offset_text: b"-00:00:00:00:00:00".to_vec(),
        rename: false,
        file_len_text: b"10".to_vec(),
    };
    let s = check_settings(&req).unwrap();
    assert_eq!(s.dir_date, DirDate { year: Some(2019), month: Some(12), day: Some(24) });
}

#[test]
fn one_row_per_image_and_names_kept() {
    let entries = vec![
        entry(b"c.jpg", "2024-01-01 00:00:00"),
        entry(b"a.jpg", "2024-01-01 00:00:00"),
        entry(b"b.txt", "2024-01-01 00:00:00"),
        entry(b"b.jpeg", "2024-01-01 00:00:00"),
    ];
    let rows = listed_rows(&entries, false);
    assert_eq!(rows.len(), 3);
    let s = UpdateSettings {
        dir_date: DirDate { year: None, month: None, day: None },
        offset: Offset { years: 0, months: 0, days: 0, hours: 2, minutes: 0, seconds: 0 },
        shift: true,
        rename: false,
        file_len: 0,
    };
    let o = update_rows(&rows, None, &s);
    assert_eq!(o.rows.len(), rows.len());
    for (x, r) in o.rows.iter().zip(rows.iter()) {
        assert_eq!(x.name, r.name);
        assert_eq!(x.current, r.current);
    }
}
