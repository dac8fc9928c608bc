use bkupeval::date_text::DirDate;
use bkupeval::settings::{
    check_settings, check_settings_answered, dir_date_label, label_can_be_cut, request_can_be_read, Folder, Offset, SettingsError, UpdateRequest,
    UpdateSettings,
};

fn request(source: &[u8], use_source: bool, offset: &[u8], rename: bool, file_len: &[u8]) -> UpdateRequest {
    UpdateRequest {
        use_source_date: use_source,
        use_target_date: false,
        source_label: source.to_vec(),
        target_label: b"NONE".to_vec(),
        offset_text: offset.to_vec(),
        rename,
        file_len_text: file_len.to_vec(),
    }
}

fn zero() -> Offset {
    Offset { years: 0, months: 0, days: 0, hours: 0, minutes: 0, seconds: 0 }
}

#[test]
fn folder_labels() {
    assert_eq!(dir_date_label(b"/photos/20240517 trip"), b"YYYYMMDD: 20240517".to_vec());
    assert_eq!(dir_date_label(b"/photos/202405 trip"), b"YYYYMM: 202405".to_vec());
    assert_eq!(dir_date_label(b"/photos/2024 trip"), b"YYYY: 2024".to_vec());
    assert_eq!(dir_date_label(b"/photos/trip"), b"NONE".to_vec());
}

#[test]
fn the_last_run_of_the_longest_kind_is_taken() {
    assert_eq!(dir_date_label(b"/2023/x/2024"), b"YYYY: 2024".to_vec());
    assert_eq!(dir_date_label(b"/2023/20240101"), b"YYYYMMDD: 20240101".to_vec());
    assert_eq!(dir_date_label(b"/20230101/20240102"), b"YYYYMMDD: 20240102".to_vec());
}

#[test]
fn labels_can_be_cut_at_their_fields() {
    assert!(label_can_be_cut(b"YYYYMMDD: 20240517"));
    assert!(label_can_be_cut(b"NONE"));
    assert!(!label_can_be_cut("YYYY: 202é".as_bytes()));
}

#[test]
fn plain_settings() {
    let r = check_settings(&request(b"NONE", false, b"-00:00:00:00:00:00", false, b"10"));
    assert_eq!(
        r,
        Ok(UpdateSettings {
            dir_date: DirDate { year: None, month: None, day: None },
            offset: zero(),
            shift: false,
            rename: false,
            file_len: 0,
        })
    );
}

#[test]
fn the_folder_date_is_read_back_from_its_label() {
    let r = check_settings(&request(b"YYYYMMDD: 20240517", true, b"-00:00:00:00:00:00", false, b"10")).unwrap();
    assert_eq!(r.dir_date, DirDate { year: Some(2024), month: Some(5), day: Some(17) });
    assert!(r.shift);
    let m = check_settings(&request(b"YYYYMM: 202405", true, b"-00:00:00:00:00:00", false, b"10")).unwrap();
    assert_eq!(m.dir_date, DirDate { year: Some(2024), month: Some(5), day: None });
    let y = check_settings(&request(b"YYYY: 2024", true, b"-00:00:00:00:00:00", false, b"10")).unwrap();
    assert_eq!(y.dir_date, DirDate { year: Some(2024), month: None, day: None });
}

#[test]
fn folder_date_errors() {
    let mut both = request(b"YYYY: 2024", true, b"-00:00:00:00:00:00", false, b"10");
    both.use_target_date = true;
    assert_eq!(check_settings(&both), Err(SettingsError::BothDirDates));
    assert_eq!(
        check_settings(&request(b"NONE", true, b"-00:00:00:00:00:00", false, b"10")),
        Err(SettingsError::DirDateText(Folder::Source))
    );
    assert_eq!(
        check_settings(&request(b"YYYY: 1800", true, b"-00:00:00:00:00:00", false, b"10")),
        Err(SettingsError::YearOutOfRange)
    );
    assert_eq!(
        check_settings(&request(b"YYYY: abcd", true, b"-00:00:00:00:00:00", false, b"10")),
        Err(SettingsError::YearNotInteger)
    );
    assert_eq!(
        check_settings(&request(b"YYYY: 0000", true, b"-00:00:00:00:00:00", false, b"10")),
        Err(SettingsError::YearNotPositive)
    );
    assert_eq!(
        check_settings(&request(b"YYYYMM: 202413", true, b"-00:00:00:00:00:00", false, b"10")),
        Err(SettingsError::MonthOutOfRange)
    );
    assert_eq!(
        check_settings(&request(b"YYYYMM: 2024xx", true, b"-00:00:00:00:00:00", false, b"10")),
        Err(SettingsError::MonthNotInteger)
    );
    assert_eq!(
        check_settings(&request(b"YYYYMMDD: 20240532", true, b"-00:00:00:00:00:00", false, b"10")),
        Err(SettingsError::DayOutOfRange)
    );
    assert_eq!(
        check_settings(&request(b"YYYYMMDD: 20230229", true, b"-00:00:00:00:00:00", false, b"10")),
        Err(SettingsError::DayNotInMonth)
    );
    assert_eq!(
        check_settings(&request(b"YYYYMMDD: 20230200", true, b"-00:00:00:00:00:00", false, b"10")),
        Err(SettingsError::DayNotPositive)
    );
}

#[test]
fn offsets_and_file_lengths() {
    assert_eq!(
        check_settings(&request(b"NONE", false, b"1:2", false, b"10")),
        Err(SettingsError::OffsetFormat)
    );
    assert_eq!(
        check_settings(&request(b"NONE", false, b"00:00:0x:00:00:00", false, b"10")),
        Err(SettingsError::OffsetFormat)
    );
    let s = check_settings(&request(b"NONE", false, b"00:00:01:00:00:-30", false, b"10")).unwrap();
    assert_eq!(s.offset, Offset { years: 0, months: 0, days: 1, hours: 0, minutes: 0, seconds: -30 });
    assert!(s.shift);
    assert_eq!(
        check_settings(&request(b"NONE", false, b"-00:00:00:00:00:00", true, b"3")),
        Err(SettingsError::FileLengthOutOfRange)
    );
    assert_eq!(
        check_settings(&request(b"NONE", false, b"-00:00:00:00:00:00", true, b"x")),
        Err(SettingsError::FileLengthNotInteger)
    );
    assert_eq!(
        check_settings(&request(b"NONE", false, b"-00:00:00:00:00:00", true, b"0")),
        Err(SettingsError::FileLengthNotPositive)
    );
    let r = check_settings(&request(b"NONE", false, b"-00:00:00:00:00:00", true, b"10")).unwrap();
    assert!(r.rename);
    assert_eq!(r.file_len, 10);
}

#[test]
fn a_label_cut_in_a_character_cannot_be_read() {
    assert!(!request_can_be_read(&request("YYYY: 202é".as_bytes(), true, b"-00:00:00:00:00:00", false, b"10")));
    assert!(request_can_be_read(&request("YYYY: 202é".as_bytes(), false, b"-00:00:00:00:00:00", false, b"10")));
}

#[test]
fn the_answer_of_chrono_on_the_folder_date_decides() {
    let req = request(b"YYYYMMDD: 20240517", true, b"-00:00:00:00:00:00", false, b"10");
    assert_eq!(check_settings_answered(&req, false), Err(SettingsError::DayNotInMonth));
    let ok = check_settings_answered(&req, true).unwrap();
    assert_eq!(ok.dir_date, DirDate { year: Some(2024), month: Some(5), day: Some(17) });
    let year_only = request(b"YYYY: 2024", true, b"-00:00:00:00:00:00", false, b"10");
    assert!(check_settings_answered(&year_only, false).is_ok());
}
