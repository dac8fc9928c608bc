//! The date shown for a folder, and the checks on the settings of an update:
//! the folder date to impose, the offset to add, the length of renamed files.

use vstd::prelude::*;
use crate::date_text::{DirDate, fields_of, piece_value, parse_fields, to_u32_wrapping, wrap_u32};
use crate::dates::{civil_date_valid, local_date_exists};
use crate::patterns::{find_all, regex_matches, pattern_digits8, pattern_digits6, pattern_digits4};
use crate::records::{get_ok, can_get};
use crate::text::{lines_view, parse_i32_or, parse_int, push_all, split_bytes, split_spec};

verus! {

// ---------------------------------------------------------------- folder date label

pub open spec fn tag_ymd() -> Seq<u8> { seq![89u8, 89u8, 89u8, 89u8, 77u8, 77u8, 68u8, 68u8, 58u8, 32u8] }  // YYYYMMDD:
pub open spec fn tag_ym() -> Seq<u8> { seq![89u8, 89u8, 89u8, 89u8, 77u8, 77u8, 58u8, 32u8] }  // YYYYMM:
pub open spec fn tag_y() -> Seq<u8> { seq![89u8, 89u8, 89u8, 89u8, 58u8, 32u8] }  // YYYY:
pub open spec fn text_none() -> Seq<u8> { seq![78u8, 79u8, 78u8, 69u8] }  // NONE

pub open spec fn has_match(m: Option<Seq<Seq<u8>>>) -> bool {
    m matches Some(v) && v.len() > 0
}

/// The folder date label from the runs of 8, 6 and 4 digits found in the
/// folder name: the last run of the longest kind found, tagged with its kind.
pub open spec fn label_from(m8: Option<Seq<Seq<u8>>>, m6: Option<Seq<Seq<u8>>>, m4: Option<Seq<Seq<u8>>>) -> Seq<u8> {
    if has_match(m8) {
        tag_ymd() + m8->Some_0.last()
    } else if has_match(m6) {
        tag_ym() + m6->Some_0.last()
    } else if has_match(m4) {
        tag_y() + m4->Some_0.last()
    } else {
        text_none()
    }
}

/// The label from lists of matches already found.
pub fn label_from_matches(m8: &Vec<Vec<u8>>, m6: &Vec<Vec<u8>>, m4: &Vec<Vec<u8>>) -> (r: Vec<u8>)
    ensures
        r@ == label_from(Some(lines_view(m8@)), Some(lines_view(m6@)), Some(lines_view(m4@))),
{
    let mut out: Vec<u8> = Vec::new();
    if m8.len() > 0 {
        push_all(&mut out, &[89u8, 89, 89, 89, 77, 77, 68, 68, 58, 32]);
        push_all(&mut out, m8[m8.len() - 1].as_slice());
    } else if m6.len() > 0 {
        push_all(&mut out, &[89u8, 89, 89, 89, 77, 77, 58, 32]);
        push_all(&mut out, m6[m6.len() - 1].as_slice());
    } else if m4.len() > 0 {
        push_all(&mut out, &[89u8, 89, 89, 89, 58, 32]);
        push_all(&mut out, m4[m4.len() - 1].as_slice());
    } else {
        push_all(&mut out, &[78u8, 79, 78, 69]);
    }
    proof {
        assert(out@ =~= label_from(Some(lines_view(m8@)), Some(lines_view(m6@)), Some(lines_view(m4@))));
    }
    out
}

/// The date label of a folder name (`YYYYMMDD: 20240517`, `YYYYMM: 202405`,
/// `YYYY: 2024` or `NONE`), from the digit runs the regular expressions
/// `(\d{8})`, `(\d{6})` and `(\d{4})` find in it.
pub fn dir_date_label(folder: &[u8]) -> (r: Vec<u8>)
    ensures
        r@ == label_from(
            regex_matches(pattern_digits8(), folder@),
            regex_matches(pattern_digits6(), folder@),
            regex_matches(pattern_digits4(), folder@),
        ),
{
    let empty: Vec<Vec<u8>> = Vec::new();
    let p8 = "(\\d{8})";
    assert(p8@ == pattern_digits8());
    let m8 = match find_all(p8, folder) {
        Some(m) => m,
        None => Vec::new(),
    };
    if m8.len() > 0 {
        return label_from_matches(&m8, &empty, &empty);
    }
    let p6 = "(\\d{6})";
    assert(p6@ == pattern_digits6());
    let m6 = match find_all(p6, folder) {
        Some(m) => m,
        None => Vec::new(),
    };
    if m6.len() > 0 {
        return label_from_matches(&m8, &m6, &empty);
    }
    let p4 = "(\\d{4})";
    assert(p4@ == pattern_digits4());
    let m4 = match find_all(p4, folder) {
        Some(m) => m,
        None => Vec::new(),
    };
    label_from_matches(&m8, &m6, &m4)
}

// ---------------------------------------------------------------- reading a label back

/// The fields of a folder date label: year, month and day as
/// `parse::<i32>().unwrap_or(-99)` of bytes 6..10 (12 or 13 bytes), 8..12 and
/// 12..14 (14 to 17 bytes), or 10..14, 14..16 and 16..18 (18 bytes or more);
/// `None` for a label shorter than 10 bytes.
pub open spec fn label_fields(t: Seq<u8>) -> Option<(int, Option<int>, Option<int>)> {
    if t.len() < 10 {
        None
    } else if t.len() < 14 {
        Some((parse_i32_or(t.subrange(6, 10), -99), None, None))
    } else if t.len() < 18 {
        Some((parse_i32_or(t.subrange(8, 12), -99), Some(parse_i32_or(t.subrange(12, 14), -99)), None))
    } else {
        Some((
            parse_i32_or(t.subrange(10, 14), -99),
            Some(parse_i32_or(t.subrange(14, 16), -99)),
            Some(parse_i32_or(t.subrange(16, 18), -99)),
        ))
    }
}

/// The label can be cut where its fields are (the tool aborts otherwise).
pub open spec fn label_cut_ok(t: Seq<u8>) -> bool {
    if t.len() < 10 {
        true
    } else if t.len() < 14 {
        get_ok(t, 6, 10)
    } else if t.len() < 18 {
        get_ok(t, 8, 12) && get_ok(t, 12, 14)
    } else {
        get_ok(t, 10, 14) && get_ok(t, 14, 16) && get_ok(t, 16, 18)
    }
}

pub fn label_can_be_cut(t: &[u8]) -> (r: bool)
    ensures
        r == label_cut_ok(t@),
{
    if t.len() < 10 {
        true
    } else if t.len() < 14 {
        can_get(t, 6, 10)
    } else if t.len() < 18 {
        can_get(t, 8, 12) && can_get(t, 12, 14)
    } else {
        can_get(t, 10, 14) && can_get(t, 14, 16) && can_get(t, 16, 18)
    }
}

fn int_or_99(b: &[u8], a: usize, e: usize) -> (r: i32)
    requires
        a <= e <= b@.len(),
    ensures
        r as int == parse_i32_or(b@.subrange(a as int, e as int), -99),
{
    match parse_int(&b[a..e], -2147483648, 2147483647) {
        Some(v) => v as i32,
        None => -99,
    }
}

// ---------------------------------------------------------------- settings

/// Which folder the date is taken from.
#[derive(Clone, Copy, PartialEq, Eq, Debug, Structural)]
pub enum Folder {
    Source,
    Target,
}

/// Why the settings of an update are refused.
#[derive(Clone, Copy, PartialEq, Eq, Debug, Structural)]
pub enum SettingsError {
    /// Both folder dates are asked for.
    BothDirDates,
    /// The label of the folder is too short to hold a date.
    DirDateText(Folder),
    YearOutOfRange,
    YearNotInteger,
    YearNotPositive,
    MonthOutOfRange,
    MonthNotInteger,
    MonthNotPositive,
    DayOutOfRange,
    /// The day does not exist in that month (as chrono answered).
    DayNotInMonth,
    DayNotInteger,
    DayNotPositive,
    /// The offset is not six numbers separated by `:`.
    OffsetFormat,
    FileLengthOutOfRange,
    FileLengthNotInteger,
    FileLengthNotPositive,
}

/// What an update is asked to do, as the window holds it.
pub struct UpdateRequest {
    pub use_source_date: bool,
    pub use_target_date: bool,
    pub source_label: Vec<u8>,
    pub target_label: Vec<u8>,
    /// `-YY:MM:DD:hh:mm:ss`
    pub offset_text: Vec<u8>,
    pub rename: bool,
    pub file_len_text: Vec<u8>,
}

/// The offset to add: years (taken as 365 days), months (30 days), days,
/// hours, minutes, seconds.
#[derive(Clone, Copy, PartialEq, Eq, Debug, Structural)]
pub struct Offset {
    pub years: i32,
    pub months: i32,
    pub days: i32,
    pub hours: i32,
    pub minutes: i32,
    pub seconds: i32,
}

/// The checked settings of an update.
#[derive(Clone, Copy, PartialEq, Eq, Debug, Structural)]
pub struct UpdateSettings {
    /// The folder date, the fields it gives replacing those of each date.
    pub dir_date: DirDate,
    pub offset: Offset,
    /// Whether the assigned dates are recomputed (a folder date is given or
    /// the offset is not zero).
    pub shift: bool,
    pub rename: bool,
    /// The length of the file description in new names (0 when not renaming).
    pub file_len: i32,
}

pub open spec fn chosen_label(req: UpdateRequest) -> Option<(Folder, Seq<u8>)> {
    if req.use_source_date {
        Some((Folder::Source, req.source_label@))
    } else if req.use_target_date {
        Some((Folder::Target, req.target_label@))
    } else {
        None
    }
}

/// The label of the chosen folder can be read without aborting.
pub open spec fn request_cut_ok(req: UpdateRequest) -> bool {
    match chosen_label(req) {
        None => true,
        Some((_, t)) => (req.use_source_date && req.use_target_date) || label_cut_ok(t),
    }
}

pub open spec fn year_check(y: int) -> Option<SettingsError> {
    if y > 0 {
        if y < 1900 || y > 2100 { Some(SettingsError::YearOutOfRange) } else { None }
    } else if y == -99 {
        Some(SettingsError::YearNotInteger)
    } else {
        Some(SettingsError::YearNotPositive)
    }
}

pub open spec fn month_check(m: int) -> Option<SettingsError> {
    if m > 0 {
        if m < 1 || m > 12 { Some(SettingsError::MonthOutOfRange) } else { None }
    } else if m == -99 {
        Some(SettingsError::MonthNotInteger)
    } else {
        Some(SettingsError::MonthNotPositive)
    }
}

/// The day check; `exists_locally` is chrono's answer on the whole date.
pub open spec fn day_check(d: int, exists_locally: bool) -> Option<SettingsError> {
    if d > 0 {
        if d < 1 || d > 31 {
            Some(SettingsError::DayOutOfRange)
        } else if !exists_locally {
            Some(SettingsError::DayNotInMonth)
        } else {
            None
        }
    } else if d == -99 {
        Some(SettingsError::DayNotInteger)
    } else {
        Some(SettingsError::DayNotPositive)
    }
}

/// The folder date of the request, `exists_locally` being chrono's answer on
/// it when a day is given.
pub open spec fn dir_date_with(req: UpdateRequest, exists_locally: bool) -> Result<DirDate, SettingsError> {
    if req.use_source_date && req.use_target_date {
        Err(SettingsError::BothDirDates)
    } else {
        match chosen_label(req) {
            None => Ok(DirDate { year: None, month: None, day: None }),
            Some((which, t)) => match label_fields(t) {
                None => Err(SettingsError::DirDateText(which)),
                Some((y, om, od)) => {
                    if year_check(y) is Some {
                        Err(year_check(y)->Some_0)
                    } else if om is Some && month_check(om->Some_0) is Some {
                        Err(month_check(om->Some_0)->Some_0)
                    } else if od is Some && day_check(od->Some_0, exists_locally) is Some {
                        Err(day_check(od->Some_0, exists_locally)->Some_0)
                    } else {
                        Ok(DirDate {
                            year: Some(y as i32),
                            month: match om { Some(m) => Some(m as i32), None => None },
                            day: match od { Some(d) => Some(d as i32), None => None },
                        })
                    }
                },
            },
        }
    }
}

/// The date chrono is asked about, when it is asked.
pub open spec fn dir_date_question(req: UpdateRequest) -> Option<(int, int, int)> {
    if req.use_source_date && req.use_target_date {
        None
    } else {
        match chosen_label(req) {
            None => None,
            Some((_, t)) => match label_fields(t) {
                Some((y, Some(m), Some(d))) => if year_check(y) is None && month_check(m) is None && 1 <= d <= 31 {
                    Some((y, wrap_u32(m), wrap_u32(d)))
                } else {
                    None
                },
                _ => None,
            },
        }
    }
}

/// The six offset numbers, `None` when the text is not six numbers separated by `:`.
pub open spec fn offset_of(text: Seq<u8>) -> Option<Offset> {
    let pieces = split_spec(text, 58u8);
    if pieces.len() != 6 {
        None
    } else {
        match fields_of(pieces, 6) {
            None => None,
            Some(v) => Some(Offset {
                years: v[0] as i32,
                months: v[1] as i32,
                days: v[2] as i32,
                hours: v[3] as i32,
                minutes: v[4] as i32,
                seconds: v[5] as i32,
            }),
        }
    }
}

pub open spec fn offset_is_zero(o: Offset) -> bool {
    o.years == 0 && o.months == 0 && o.days == 0 && o.hours == 0 && o.minutes == 0 && o.seconds == 0
}

pub open spec fn file_len_check(n: int) -> Option<SettingsError> {
    if n > 0 {
        if n < 4 || n > 16 { Some(SettingsError::FileLengthOutOfRange) } else { None }
    } else if n == -99 {
        Some(SettingsError::FileLengthNotInteger)
    } else {
        Some(SettingsError::FileLengthNotPositive)
    }
}

/// The settings of an update, in the order the tool checks them.
pub open spec fn settings_with(req: UpdateRequest, exists_locally: bool) -> Result<UpdateSettings, SettingsError> {
    match dir_date_with(req, exists_locally) {
        Err(e) => Err(e),
        Ok(dd) => match offset_of(req.offset_text@) {
            None => Err(SettingsError::OffsetFormat),
            Some(o) => {
                let n = parse_i32_or(req.file_len_text@, -99);
                if req.rename && file_len_check(n) is Some {
                    Err(file_len_check(n)->Some_0)
                } else {
                    Ok(UpdateSettings {
                        dir_date: dd,
                        offset: o,
                        shift: dd.year is Some || !offset_is_zero(o),
                        rename: req.rename,
                        file_len: if req.rename { n as i32 } else { 0 },
                    })
                }
            },
        },
    }
}

fn dir_date_exec(req: &UpdateRequest, given: Option<bool>) -> (r: (Result<DirDate, SettingsError>, Ghost<bool>))
    requires
        request_cut_ok(*req),
    ensures
        given is None ==> match dir_date_question(*req) {
            Some(q) => r.1@ ==> civil_date_valid(q.0, q.1, q.2),
            None => true,
        },
        given matches Some(a) ==> r.1@ == a,
        r.0 == dir_date_with(*req, r.1@),
{
    let given_answer: bool = match given {
        Some(a) => a,
        None => true,
    };
    if req.use_source_date && req.use_target_date {
        return (Err(SettingsError::BothDirDates), Ghost(given_answer));
    }
    let (which, t): (Folder, &[u8]) = if req.use_source_date {
        (Folder::Source, req.source_label.as_slice())
    } else if req.use_target_date {
        (Folder::Target, req.target_label.as_slice())
    } else {
        return (Ok(DirDate { year: None, month: None, day: None }), Ghost(given_answer));
    };
    let n = t.len();
    if n < 10 {
        return (Err(SettingsError::DirDateText(which)), Ghost(given_answer));
    }
    let (y, om, od): (i32, Option<i32>, Option<i32>) = if n < 14 {
        (int_or_99(t, 6, 10), None, None)
    } else if n < 18 {
        (int_or_99(t, 8, 12), Some(int_or_99(t, 12, 14)), None)
    } else {
        (int_or_99(t, 10, 14), Some(int_or_99(t, 14, 16)), Some(int_or_99(t, 16, 18)))
    };
    if y > 0 {
        if y < 1900 || y > 2100 {
            return (Err(SettingsError::YearOutOfRange), Ghost(given_answer));
        }
    } else if y == -99 {
        return (Err(SettingsError::YearNotInteger), Ghost(given_answer));
    } else {
        return (Err(SettingsError::YearNotPositive), Ghost(given_answer));
    }
    let mut month: i32 = 0;
    if let Some(m) = om {
        month = m;
        if m > 0 {
            if m < 1 || m > 12 {
                return (Err(SettingsError::MonthOutOfRange), Ghost(given_answer));
            }
        } else if m == -99 {
            return (Err(SettingsError::MonthNotInteger), Ghost(given_answer));
        } else {
            return (Err(SettingsError::MonthNotPositive), Ghost(given_answer));
        }
    }
    let mut answer = given_answer;
    if let Some(d) = od {
        if d > 0 {
            if d < 1 || d > 31 {
                return (Err(SettingsError::DayOutOfRange), Ghost(given_answer));
            }
            answer = match given {
                Some(a) => a,
                None => local_date_exists(y, to_u32_wrapping(month), to_u32_wrapping(d)),
            };
            if !answer {
                return (Err(SettingsError::DayNotInMonth), Ghost(false));
            }
        } else if d == -99 {
            return (Err(SettingsError::DayNotInteger), Ghost(given_answer));
        } else {
            return (Err(SettingsError::DayNotPositive), Ghost(given_answer));
        }
    }
    (Ok(DirDate { year: Some(y), month: om, day: od }), Ghost(answer))
}

fn offset_exec(text: &[u8]) -> (r: Option<Offset>)
    ensures
        r == offset_of(text@),
{
    let pieces = split_bytes(text, 58);
    proof {
        assert(lines_view(pieces@) =~= split_spec(text@, 58u8));
    }
    if pieces.len() != 6 {
        return None;
    }
    match parse_fields(&pieces, 6) {
        None => None,
        Some(v) => Some(Offset { years: v[0], months: v[1], days: v[2], hours: v[3], minutes: v[4], seconds: v[5] }),
    }
}

fn settings_exec(req: &UpdateRequest, given: Option<bool>) -> (r: (Result<UpdateSettings, SettingsError>, Ghost<bool>))
    requires
        request_cut_ok(*req),
    ensures
        given is None ==> match dir_date_question(*req) {
            Some(q) => r.1@ ==> civil_date_valid(q.0, q.1, q.2),
            None => true,
        },
        given matches Some(a) ==> r.1@ == a,
        r.0 == settings_with(*req, r.1@),
{
    let (dd, answer) = dir_date_exec(req, given);
    let dd = match dd {
        Err(e) => return (Err(e), answer),
        Ok(dd) => dd,
    };
    let offset = match offset_exec(req.offset_text.as_slice()) {
        None => return (Err(SettingsError::OffsetFormat), answer),
        Some(o) => o,
    };
    let n: i32 = match parse_int(req.file_len_text.as_slice(), -2147483648, 2147483647) {
        Some(v) => v as i32,
        None => -99,
    };
    if req.rename {
        if n > 0 {
            if n < 4 || n > 16 {
                return (Err(SettingsError::FileLengthOutOfRange), answer);
            }
        } else if n == -99 {
            return (Err(SettingsError::FileLengthNotInteger), answer);
        } else {
            return (Err(SettingsError::FileLengthNotPositive), answer);
        }
    }
    let zero = offset.years == 0 && offset.months == 0 && offset.days == 0 && offset.hours == 0
        && offset.minutes == 0 && offset.seconds == 0;
    let shift = dd.year.is_some() || !zero;
    (Ok(UpdateSettings { dir_date: dd, offset, shift, rename: req.rename, file_len: if req.rename { n } else { 0 } }), answer)
}

/// Checks the settings of an update.  chrono is asked whether the folder
/// date exists when it has a day; the result is the one for its answer.
pub fn check_settings(req: &UpdateRequest) -> (r: Result<UpdateSettings, SettingsError>)
    requires
        request_cut_ok(*req),
    ensures
        r == settings_with(*req, true) || r == settings_with(*req, false),
        (match dir_date_question(*req) {
            Some(q) => !civil_date_valid(q.0, q.1, q.2),
            None => false,
        }) ==> r == settings_with(*req, false),
{
    settings_exec(req, None).0
}

/// Checks the settings of an update once chrono has answered
/// `exists_locally` on whether the folder date exists.
pub fn check_settings_answered(req: &UpdateRequest, exists_locally: bool) -> (r: Result<UpdateSettings, SettingsError>)
    requires
        request_cut_ok(*req),
    ensures
        r == settings_with(*req, exists_locally),
{
    settings_exec(req, Some(exists_locally)).0
}

/// Whether the label the request reads can be cut where its fields are.
pub fn request_can_be_read(req: &UpdateRequest) -> (r: bool)
    ensures
        r == request_cut_ok(*req),
{
    if req.use_source_date && req.use_target_date {
        true
    } else if req.use_source_date {
        label_can_be_cut(req.source_label.as_slice())
    } else if req.use_target_date {
        label_can_be_cut(req.target_label.as_slice())
    } else {
        true
    }
}


/// Settings that pass the checks recompute the dates exactly when a folder
/// date is asked for (from the source or the target folder) or some field
/// of the offset is not zero; the offset is the six numbers of its text,
/// and the folder date has a year exactly when one is asked for.
pub proof fn law_settings_shift_when_asked(req: UpdateRequest, exists_locally: bool)
    requires
        settings_with(req, exists_locally) is Ok,
    ensures
        ({
            let u = settings_with(req, exists_locally)->Ok_0;
            &&& u.shift <==> (req.use_source_date || req.use_target_date || u.offset.years != 0
                || u.offset.months != 0 || u.offset.days != 0 || u.offset.hours != 0
                || u.offset.minutes != 0 || u.offset.seconds != 0)
            &&& (u.dir_date.year is Some <==> (req.use_source_date || req.use_target_date))
            &&& Some(u.offset) == offset_of(req.offset_text@)
        }),
{
}

} // verus!
