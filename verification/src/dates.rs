//! Calendar dates and times, and the calls into `chrono` that check, shift
//! and print them.

use vstd::prelude::*;
use chrono::{Datelike, Local, LocalResult, TimeDelta, TimeZone, Timelike, Utc};
use crate::text::{dec_pad, push_dec_pad, push_all};

verus! {

/// A date and a time of day, in the proleptic Gregorian calendar.
#[derive(Clone, Copy, PartialEq, Eq, Debug, Structural)]
pub struct Stamp {
    pub year: i32,
    pub month: u32,
    pub day: u32,
    pub hour: u32,
    pub minute: u32,
    pub second: u32,
}

pub open spec fn is_leap(y: int) -> bool {
    y % 4 == 0 && (y % 100 != 0 || y % 400 == 0)
}

pub open spec fn days_in_month(y: int, m: int) -> int {
    if m == 2 {
        if is_leap(y) { 29 } else { 28 }
    } else if m == 4 || m == 6 || m == 9 || m == 11 {
        30
    } else {
        31
    }
}

/// The dates `chrono::NaiveDate::from_ymd_opt` accepts.
pub open spec fn civil_date_valid(y: int, m: int, d: int) -> bool {
    -262143 <= y <= 262142 && 1 <= m <= 12 && 1 <= d <= days_in_month(y, m)
}

pub open spec fn stamp_valid(s: Stamp) -> bool {
    civil_date_valid(s.year as int, s.month as int, s.day as int) && s.hour < 24 && s.minute < 60
        && s.second < 60
}

/// The year as chrono's `%Y` writes it: four digits for the years 0 to 9999,
/// otherwise a sign and at least four digits.
pub open spec fn year_text(y: int) -> Seq<u8> {
    if 0 <= y <= 9999 {
        dec_pad(y as nat, 4)
    } else if y < 0 {
        seq![45u8] + dec_pad((-y) as nat, 4)
    } else {
        seq![43u8] + dec_pad(y as nat, 4)
    }
}

/// A stamp written with the given separators between the date fields, between
/// date and time, and between the time fields.
pub open spec fn stamp_text(s: Stamp, dsep: u8, mid: u8, tsep: u8) -> Seq<u8> {
    year_text(s.year as int) + seq![dsep] + dec_pad(s.month as nat, 2) + seq![dsep] + dec_pad(s.day as nat, 2)
        + seq![mid] + dec_pad(s.hour as nat, 2) + seq![tsep] + dec_pad(s.minute as nat, 2) + seq![tsep]
        + dec_pad(s.second as nat, 2)
}

/// The three formats the tool writes dates in.
pub open spec fn pattern_listing() -> Seq<char> { "%Y-%m-%d %T"@ }
pub open spec fn pattern_assign() -> Seq<char> { "%Y:%m:%d %H:%M:%S"@ }
pub open spec fn pattern_file_name() -> Seq<char> { "%Y_%m_%d_%H_%M_%S"@ }

/// `2024-05-17 08:30:00`
pub open spec fn listing_text(s: Stamp) -> Seq<u8> { stamp_text(s, 45u8, 32u8, 58u8) }
/// `2024:05:17 08:30:00`
pub open spec fn assign_text(s: Stamp) -> Seq<u8> { stamp_text(s, 58u8, 32u8, 58u8) }
/// `2024_05_17_08_30_00`
pub open spec fn file_name_text(s: Stamp) -> Seq<u8> { stamp_text(s, 95u8, 95u8, 95u8) }

proof fn lemma_pad_ascii(n: nat, w: nat)
    ensures
        forall|i: int| 0 <= i < dec_pad(n, w).len() ==> #[trigger] dec_pad(n, w)[i] < 0x80,
{
    crate::text::lemma_dec_pad_parse(n, w, 0, n as int);
    assert forall|i: int| 0 <= i < dec_pad(n, w).len() implies #[trigger] dec_pad(n, w)[i] < 0x80 by {
        assert(crate::text::is_digit(dec_pad(n, w)[i]));
    }
}

/// The texts of a stamp are ASCII.
pub proof fn lemma_stamp_text_ascii(s: Stamp, dsep: u8, mid: u8, tsep: u8)
    requires
        dsep < 0x80,
        mid < 0x80,
        tsep < 0x80,
    ensures
        crate::records::ascii(stamp_text(s, dsep, mid, tsep)),
{
    let y = s.year as int;
    let yt = year_text(y);
    if 0 <= y <= 9999 {
        lemma_pad_ascii(y as nat, 4);
    } else if y < 0 {
        lemma_pad_ascii((-y) as nat, 4);
        assert forall|i: int| 0 <= i < yt.len() implies #[trigger] yt[i] < 0x80 by {
            if i > 0 { assert(yt[i] == dec_pad((-y) as nat, 4)[i - 1]); }
        }
    } else {
        lemma_pad_ascii(y as nat, 4);
        assert forall|i: int| 0 <= i < yt.len() implies #[trigger] yt[i] < 0x80 by {
            if i > 0 { assert(yt[i] == dec_pad(y as nat, 4)[i - 1]); }
        }
    }
    lemma_pad_ascii(s.month as nat, 2);
    lemma_pad_ascii(s.day as nat, 2);
    lemma_pad_ascii(s.hour as nat, 2);
    lemma_pad_ascii(s.minute as nat, 2);
    lemma_pad_ascii(s.second as nat, 2);
    let t = stamp_text(s, dsep, mid, tsep);
    let parts = seq![
        yt, seq![dsep], dec_pad(s.month as nat, 2), seq![dsep], dec_pad(s.day as nat, 2), seq![mid],
        dec_pad(s.hour as nat, 2), seq![tsep], dec_pad(s.minute as nat, 2), seq![tsep], dec_pad(s.second as nat, 2)
    ];
    assert forall|i: int| 0 <= i < t.len() implies #[trigger] t[i] < 0x80 by {
        lemma_concat_ascii(yt, seq![dsep]);
        lemma_concat_ascii(yt + seq![dsep], dec_pad(s.month as nat, 2));
        lemma_concat_ascii(yt + seq![dsep] + dec_pad(s.month as nat, 2), seq![dsep]);
        lemma_concat_ascii(yt + seq![dsep] + dec_pad(s.month as nat, 2) + seq![dsep], dec_pad(s.day as nat, 2));
        let a5 = yt + seq![dsep] + dec_pad(s.month as nat, 2) + seq![dsep] + dec_pad(s.day as nat, 2);
        lemma_concat_ascii(a5, seq![mid]);
        lemma_concat_ascii(a5 + seq![mid], dec_pad(s.hour as nat, 2));
        let a7 = a5 + seq![mid] + dec_pad(s.hour as nat, 2);
        lemma_concat_ascii(a7, seq![tsep]);
        lemma_concat_ascii(a7 + seq![tsep], dec_pad(s.minute as nat, 2));
        let a9 = a7 + seq![tsep] + dec_pad(s.minute as nat, 2);
        lemma_concat_ascii(a9, seq![tsep]);
        lemma_concat_ascii(a9 + seq![tsep], dec_pad(s.second as nat, 2));
    }
}

proof fn lemma_concat_ascii(a: Seq<u8>, b: Seq<u8>)
    requires
        crate::records::ascii(a),
        crate::records::ascii(b),
    ensures
        crate::records::ascii(a + b),
{
    assert forall|i: int| 0 <= i < (a + b).len() implies #[trigger] (a + b)[i] < 0x80 by {
        if i < a.len() { assert((a + b)[i] == a[i]); } else { assert((a + b)[i] == b[i - a.len()]); }
    }
}

/// Whether a date exists in the proleptic Gregorian calendar within chrono's range.
pub fn civil_date_ok(year: i32, month: u32, day: u32) -> (r: bool)
    ensures
        r == civil_date_valid(year as int, month as int, day as int),
{
    if year < -262143 || year > 262142 || month < 1 || month > 12 || day < 1 {
        return false;
    }
    let shifted: u64 = (year as i64 + 400000) as u64;
    proof {
        assert(is_leap(year as int) == is_leap(shifted as int));
    }
    let leap = shifted % 4 == 0 && (shifted % 100 != 0 || shifted % 400 == 0);
    let days: u32 = if month == 2 {
        if leap { 29 } else { 28 }
    } else if month == 4 || month == 6 || month == 9 || month == 11 {
        30
    } else {
        31
    };
    day <= days
}

/// `Local.ymd_opt(year, month, day)` is not `LocalResult::None`.
///
/// chrono answers `None` for a date that does not exist, which is all that is
/// stated here: for an existing date the answer also depends on the time zone
/// of the machine (a zone whose clocks skip local midnight on that date gives
/// `None` too), so nothing is promised for it.
#[verifier::external_body]
#[allow(deprecated)]
pub(crate) fn local_date_exists(year: i32, month: u32, day: u32) -> (r: bool)
    ensures
        r ==> civil_date_valid(year as int, month as int, day as int),
{
    match Local.ymd_opt(year, month, day) {
        LocalResult::None => false,
        _ => true,
    }
}

/// `Utc.ymd(..).and_hms_milli(.., 0).format(pattern).to_string()`, as bytes.
///
/// The contract states chrono's output for the three patterns the tool uses
/// (`%Y`, `%m`, `%d`, `%H`, `%M`, `%S`, and `%T` for `%H:%M:%S`).
#[verifier::external_body]
#[allow(deprecated)]
pub(crate) fn format_stamp(s: Stamp, pattern: &str) -> (r: Vec<u8>)
    requires
        stamp_valid(s),
        pattern@ == pattern_listing() || pattern@ == pattern_assign() || pattern@ == pattern_file_name(),
    ensures
        pattern@ == pattern_listing() ==> r@ == listing_text(s),
        pattern@ == pattern_assign() ==> r@ == assign_text(s),
        pattern@ == pattern_file_name() ==> r@ == file_name_text(s),
{
    Utc.ymd(s.year, s.month, s.day)
        .and_hms_milli(s.hour, s.minute, s.second, 0)
        .format(pattern)
        .to_string()
        .into_bytes()
}

pub open spec fn stamp_tuple(s: Stamp) -> (int, int, int, int, int, int) {
    (s.year as int, s.month as int, s.day as int, s.hour as int, s.minute as int, s.second as int)
}

// ---------------------------------------------------------------- calendar count

/// The days of year `y`.
pub open spec fn year_days(y: int) -> int {
    if is_leap(y) { 366 } else { 365 }
}

pub open spec fn dist0(y: int) -> int {
    if y < 0 { -y } else { y }
}

/// The days from 1 January of the year 0 to 1 January of the year `y`
/// (negative before the year 0).
pub open spec fn days_to_year(y: int) -> int
    decreases dist0(y),
{
    if y == 0 {
        0
    } else if y > 0 {
        days_to_year(y - 1) + year_days(y - 1)
    } else {
        days_to_year(y + 1) - year_days(y)
    }
}

/// The days from 1 January to the first day of month `m` of year `y`.
pub open spec fn days_to_month(y: int, m: int) -> int
    decreases m,
{
    if m <= 1 { 0 } else { days_to_month(y, m - 1) + days_in_month(y, m - 1) }
}

/// The number of a day: the days from 1 January of the year 0.
pub open spec fn day_number(y: int, m: int, d: int) -> int {
    days_to_year(y) + days_to_month(y, m) + d - 1
}

/// The seconds from midnight of 1 January of the year 0 to a date and time.
pub open spec fn tuple_seconds(t: (int, int, int, int, int, int)) -> int {
    day_number(t.0, t.1, t.2) * 86400 + t.3 * 3600 + t.4 * 60 + t.5
}

pub open spec fn stamp_seconds(s: Stamp) -> int {
    tuple_seconds(stamp_tuple(s))
}

/// An existing date and time within chrono's range.
pub open spec fn tuple_valid(t: (int, int, int, int, int, int)) -> bool {
    civil_date_valid(t.0, t.1, t.2) && 0 <= t.3 < 24 && 0 <= t.4 < 60 && 0 <= t.5 < 60
}

/// The date and time `secs` seconds after `t`, `None` when it leaves
/// chrono's range.
pub open spec fn utc_shifted(t: (int, int, int, int, int, int), secs: int) -> Option<(int, int, int, int, int, int)> {
    if exists|u: (int, int, int, int, int, int)| #[trigger] tuple_valid(u) && tuple_seconds(u) == tuple_seconds(t) + secs {
        Some(choose|u: (int, int, int, int, int, int)| #[trigger] tuple_valid(u) && tuple_seconds(u) == tuple_seconds(t) + secs)
    } else {
        None
    }
}

proof fn lemma_year_step(y: int)
    ensures
        days_to_year(y + 1) == days_to_year(y) + year_days(y),
{
    if y < 0 && y + 1 < 0 {
        assert(days_to_year(y) == days_to_year(y + 1) - year_days(y));
    } else if y < 0 {
        assert(days_to_year(y) == days_to_year(0) - year_days(y));
    }
}

/// Years come in order.
proof fn lemma_years_ordered(a: int, b: int)
    requires
        a < b,
    ensures
        days_to_year(a) + year_days(a) <= days_to_year(b),
    decreases b - a,
{
    lemma_year_step(a);
    if a + 1 < b {
        lemma_years_ordered(a + 1, b);
        lemma_year_step(a + 1);
    }
}

proof fn lemma_months_ordered(y: int, a: int, b: int)
    requires
        1 <= a < b,
    ensures
        days_to_month(y, a) + days_in_month(y, a) <= days_to_month(y, b),
    decreases b - a,
{
    if a + 1 < b {
        lemma_months_ordered(y, a + 1, b);
        assert(days_in_month(y, a + 1) > 0);
    }
}

proof fn lemma_year_of_months(y: int)
    ensures
        days_to_month(y, 13) == year_days(y),
{
    reveal_with_fuel(days_to_month, 13);
}

/// A valid date falls within its year.
proof fn lemma_day_in_year(y: int, m: int, d: int)
    requires
        civil_date_valid(y, m, d),
    ensures
        days_to_year(y) <= day_number(y, m, d) < days_to_year(y) + year_days(y),
{
    lemma_year_of_months(y);
    if m < 12 {
        lemma_months_ordered(y, m, 13);
    }
    assert(days_to_month(y, m) >= 0) by {
        if m > 1 {
            lemma_months_ordered(y, 1, m);
        }
    }
}

/// Two valid dates with one day number are one date.
proof fn lemma_day_number_injective(a: (int, int, int), b: (int, int, int))
    requires
        civil_date_valid(a.0, a.1, a.2),
        civil_date_valid(b.0, b.1, b.2),
        day_number(a.0, a.1, a.2) == day_number(b.0, b.1, b.2),
    ensures
        a == b,
{
    lemma_day_in_year(a.0, a.1, a.2);
    lemma_day_in_year(b.0, b.1, b.2);
    if a.0 < b.0 {
        lemma_years_ordered(a.0, b.0);
    } else if b.0 < a.0 {
        lemma_years_ordered(b.0, a.0);
    }
    assert(a.0 == b.0);
    if a.1 < b.1 {
        lemma_months_ordered(a.0, a.1, b.1);
    } else if b.1 < a.1 {
        lemma_months_ordered(a.0, b.1, a.1);
    }
}

/// Two valid dates and times with one count of seconds are one.
pub proof fn lemma_seconds_injective(a: (int, int, int, int, int, int), b: (int, int, int, int, int, int))
    requires
        tuple_valid(a),
        tuple_valid(b),
        tuple_seconds(a) == tuple_seconds(b),
    ensures
        a == b,
{
    let na = day_number(a.0, a.1, a.2);
    let nb = day_number(b.0, b.1, b.2);
    let sa = a.3 * 3600 + a.4 * 60 + a.5;
    let sb = b.3 * 3600 + b.4 * 60 + b.5;
    assert(0 <= sa < 86400 && 0 <= sb < 86400);
    assert(na * 86400 + sa == nb * 86400 + sb);
    assert(na == nb) by (nonlinear_arith)
        requires
            na * 86400 + sa == nb * 86400 + sb,
            0 <= sa < 86400,
            0 <= sb < 86400,
    {
        if na < nb {
            assert((nb - na) * 86400 >= 86400);
        } else if nb < na {
            assert((na - nb) * 86400 >= 86400);
        }
    }
    lemma_day_number_injective((a.0, a.1, a.2), (b.0, b.1, b.2));
    assert(a.3 == b.3) by (nonlinear_arith)
        requires
            a.3 * 3600 + a.4 * 60 + a.5 == b.3 * 3600 + b.4 * 60 + b.5,
            0 <= a.4 < 60, 0 <= a.5 < 60, 0 <= b.4 < 60, 0 <= b.5 < 60,
    {
        if a.3 < b.3 {
            assert((b.3 - a.3) * 3600 >= 3600);
        } else if b.3 < a.3 {
            assert((a.3 - b.3) * 3600 >= 3600);
        }
    }
    assert(a.4 == b.4) by (nonlinear_arith)
        requires
            a.4 * 60 + a.5 == b.4 * 60 + b.5,
            0 <= a.5 < 60, 0 <= b.5 < 60,
    {
        if a.4 < b.4 {
            assert((b.4 - a.4) * 60 >= 60);
        } else if b.4 < a.4 {
            assert((a.4 - b.4) * 60 >= 60);
        }
    }
}

/// `Utc.ymd(..).and_hms_milli(.., 0).checked_add_signed(TimeDelta::try_seconds(secs)?)`.
///
/// chrono counts in the proleptic Gregorian calendar in UTC, with no leap
/// seconds: the result, when there is one, is an existing date and time
/// within chrono's range exactly `secs` seconds after the one given; there
/// is none only when no such date and time exists.
#[verifier::external_body]
#[allow(deprecated)]
fn add_seconds_utc(s: Stamp, secs: i64) -> (r: Option<Stamp>)
    requires
        stamp_valid(s),
    ensures
        r matches Some(x) ==> stamp_valid(x) && stamp_seconds(x) == stamp_seconds(s) + secs,
        r is None ==> forall|x: Stamp| #[trigger] stamp_valid(x) ==> stamp_seconds(x) != stamp_seconds(s) + secs,
{
    let t = Utc.ymd(s.year, s.month, s.day).and_hms_milli(s.hour, s.minute, s.second, 0);
    match TimeDelta::try_seconds(secs) {
        None => None,
        Some(d) => match t.checked_add_signed(d) {
            None => None,
            Some(u) => Some(Stamp {
                year: u.year(),
                month: u.month(),
                day: u.day(),
                hour: u.hour(),
                minute: u.minute(),
                second: u.second(),
            }),
        },
    }
}

pub open spec fn tuple_stamp_of(t: (int, int, int, int, int, int)) -> Stamp {
    Stamp { year: t.0 as i32, month: t.1 as u32, day: t.2 as u32, hour: t.3 as u32, minute: t.4 as u32, second: t.5 as u32 }
}

/// The stamp `secs` seconds after `s` in UTC, `None` when it leaves
/// chrono's range.
pub(crate) fn shift_stamp(s: Stamp, secs: i64) -> (r: Option<Stamp>)
    requires
        stamp_valid(s),
    ensures
        match utc_shifted(stamp_tuple(s), secs as int) {
            Some(t) => r matches Some(x) && stamp_tuple(x) == t,
            None => r is None,
        },
        r matches Some(x) ==> stamp_valid(x),
        secs == 0 ==> r == Some(s),
{
    let r = add_seconds_utc(s, secs);
    proof {
        let t = stamp_tuple(s);
        match r {
            Some(x) => {
                assert(tuple_valid(stamp_tuple(x)) && tuple_seconds(stamp_tuple(x)) == tuple_seconds(t) + secs);
                let u = choose|u: (int, int, int, int, int, int)| #[trigger] tuple_valid(u) && tuple_seconds(u) == tuple_seconds(t) + secs;
                lemma_seconds_injective(u, stamp_tuple(x));
                if secs == 0 {
                    assert(tuple_valid(t));
                    lemma_seconds_injective(t, stamp_tuple(x));
                }
            },
            None => {
                if exists|u: (int, int, int, int, int, int)| #[trigger] tuple_valid(u) && tuple_seconds(u) == tuple_seconds(t) + secs {
                    let u = choose|u: (int, int, int, int, int, int)| #[trigger] tuple_valid(u) && tuple_seconds(u) == tuple_seconds(t) + secs;
                    let x = tuple_stamp_of(u);
                    assert(stamp_tuple(x) == u);
                    assert(stamp_valid(x));
                }
                if secs == 0 {
                    assert(stamp_valid(s));
                }
            },
        }
    }
    r
}

} // verus!
