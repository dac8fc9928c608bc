//! Dates read out of text: the numeric fields of a date written with any
//! separators (`2024:05:17 08:30:00`, `2024-05-17 08:30:00`, ...), and the
//! date at the start of a file name (`2024_05_17_08_30_00_123_...`).

use vstd::prelude::*;
use vstd::utf8::valid_utf8;
use crate::dates::{civil_date_ok, civil_date_valid, local_date_exists, stamp_valid, Stamp};
use crate::patterns::{pattern_not_alnum, replace_all, underscored};
use crate::records::{boundary, is_boundary};
use crate::text::{lines_view, parse_i32_or, parse_int, split_bytes, split_spec};

verus! {

/// A piece read as `parse::<i32>().unwrap_or(-9999)`.
pub open spec fn piece_value(p: Seq<u8>) -> int {
    parse_i32_or(p, -9999)
}

/// The values of the pieces, `None` when a piece is not a number (or is
/// `-9999`) or there are more than `max` pieces.
pub open spec fn fields_of(pieces: Seq<Seq<u8>>, max: nat) -> Option<Seq<int>> {
    if pieces.len() > max || exists|i: int| 0 <= i < pieces.len() && piece_value(#[trigger] pieces[i]) == -9999 {
        None
    } else {
        Some(Seq::new(pieces.len(), |i: int| piece_value(pieces[i])))
    }
}

/// The `i`-th value, 0 when there are fewer values.
pub open spec fn field_at(v: Seq<int>, i: int) -> int {
    if 0 <= i < v.len() { v[i] } else { 0 }
}

/// `v as u32` for an `i32` value.
pub open spec fn wrap_u32(v: int) -> int {
    if v >= 0 { v } else { v + 0x1_0000_0000 }
}

/// Reads the pieces one after the other, as the tool does, stopping at the
/// first piece that is not a number.
pub fn parse_fields(pieces: &Vec<Vec<u8>>, max: usize) -> (r: Option<Vec<i32>>)
    ensures
        match fields_of(lines_view(pieces@), max as nat) {
            None => r is None,
            Some(v) => r matches Some(x) && x@.len() == v.len() && forall|i: int| 0 <= i < v.len() ==> x@[i] as int == #[trigger] v[i],
        },
{
    let ghost ps = lines_view(pieces@);
    let mut out: Vec<i32> = Vec::new();
    let mut bad = false;
    let mut i: usize = 0;
    while i < pieces.len()
        invariant
            i <= pieces@.len(),
            ps == lines_view(pieces@),
            bad <==> (i > max),
            out@.len() == i,
            forall|k: int| 0 <= k < i ==> piece_value(#[trigger] ps[k]) != -9999,
            forall|k: int| 0 <= k < i ==> out@[k] as int == piece_value(#[trigger] ps[k]),
        decreases pieces@.len() - i,
    {
        let v: i32 = match parse_int(pieces[i].as_slice(), -2147483648, 2147483647) {
            Some(v) => v as i32,
            None => -9999,
        };
        assert(ps[i as int] == pieces@[i as int]@);
        if v == -9999 {
            return None;
        }
        if i >= max {
            bad = true;
        }
        out.push(v);
        i = i + 1;
    }
    if bad {
        return None;
    }
    proof {
        assert(!(exists|k: int| 0 <= k < ps.len() && piece_value(#[trigger] ps[k]) == -9999));
    }
    Some(out)
}

/// `v as u32` for an `i32` value.
pub fn to_u32_wrapping(v: i32) -> (r: u32)
    ensures
        r as int == wrap_u32(v as int),
{
    if v >= 0 {
        v as u32
    } else {
        (v as i64 + 4294967296) as u32
    }
}

/// The year, month and day a folder name gave, each when it gave it.
#[derive(Clone, Copy, PartialEq, Eq, Debug, Structural)]
pub struct DirDate {
    pub year: Option<i32>,
    pub month: Option<i32>,
    pub day: Option<i32>,
}

pub open spec fn no_dir_date() -> DirDate {
    DirDate { year: None, month: None, day: None }
}

/// Year, month (as `u32`), day (as `u32`), hour, minute and second read from
/// a date text, the folder date taking the place of the fields it has.
pub open spec fn date_candidate(text: Seq<u8>, dd: DirDate) -> Option<(int, int, int, int, int, int)> {
    match fields_of(split_spec(underscored(text, false), 95u8), 6) {
        None => None,
        Some(v) => Some((
            match dd.year { Some(y) => y as int, None => field_at(v, 0) },
            match dd.month { Some(m) => wrap_u32(m as int), None => wrap_u32(field_at(v, 1)) },
            match dd.day { Some(d) => wrap_u32(d as int), None => wrap_u32(field_at(v, 2)) },
            field_at(v, 3),
            field_at(v, 4),
            field_at(v, 5),
        )),
    }
}

/// The stamp of a candidate, given chrono's answer on whether its date
/// exists; `None` for a non-existing date or a time out of range.
pub open spec fn stamp_of(c: (int, int, int, int, int, int), exists_locally: bool) -> Option<Stamp> {
    if exists_locally && 0 <= c.3 <= 23 && 0 <= c.4 <= 59 && 0 <= c.5 <= 59 {
        Some(Stamp {
            year: c.0 as i32,
            month: c.1 as u32,
            day: c.2 as u32,
            hour: c.3 as u32,
            minute: c.4 as u32,
            second: c.5 as u32,
        })
    } else {
        None
    }
}

/// Whether an answer of chrono on the date of a candidate is possible: it
/// can only confirm an existing date.
pub open spec fn answer_possible(c: Option<(int, int, int, int, int, int)>, a: bool) -> bool {
    match c {
        Some(t) => a ==> civil_date_valid(t.0, t.1, t.2),
        None => true,
    }
}

/// The most favourable answer chrono can give: it confirms every existing date.
pub open spec fn favourable(c: Option<(int, int, int, int, int, int)>) -> bool {
    match c {
        Some(t) => civil_date_valid(t.0, t.1, t.2),
        None => false,
    }
}

/// Asks chrono whether a date exists, or, with `favourable`, takes the most
/// favourable answer it could give without asking (the date is valid): the
/// flag serves to predict whether the tool may abort, never to compute a
/// date.
pub(crate) fn ask_date(year: i32, month: u32, day: u32, favourable: bool) -> (r: bool)
    ensures
        r ==> civil_date_valid(year as int, month as int, day as int),
        favourable ==> r == civil_date_valid(year as int, month as int, day as int),
{
    if favourable {
        civil_date_ok(year, month, day)
    } else {
        local_date_exists(year, month, day)
    }
}

/// The date a text gives with chrono's answer `a`.
pub open spec fn text_date_with(text: Seq<u8>, dd: DirDate, a: bool) -> Option<Stamp> {
    match date_candidate(text, dd) {
        None => None,
        Some(c) => stamp_of(c, a),
    }
}

/// Fields of a date text, and the date the check is made on.
fn candidate_exec(text: &[u8], dd: DirDate) -> (r: Option<(i32, u32, u32, i32, i32, i32)>)
    requires
        valid_utf8(text@),
    ensures
        match date_candidate(text@, dd) {
            None => r is None,
            Some(c) => r matches Some(x) && x.0 as int == c.0 && x.1 as int == c.1 && x.2 as int == c.2
                && x.3 as int == c.3 && x.4 as int == c.4 && x.5 as int == c.5,
        },
{
    let underscore_arr: [u8; 1] = [95u8];
    let underscore: &[u8] = &underscore_arr;
    assert(underscore@ == seq![95u8]);
    let pattern = "[^A-Za-z0-9]";
    assert(pattern@ == pattern_not_alnum());
    let clean = match replace_all(pattern, text, underscore) {
        Some(c) => c,
        None => return None,
    };
    let pieces = split_bytes(clean.as_slice(), 95);
    proof {
        assert(lines_view(pieces@) =~= split_spec(underscored(text@, false), 95u8));
    }
    let v = match parse_fields(&pieces, 6) {
        None => return None,
        Some(v) => v,
    };
    let f0: i32 = if v.len() > 0 { v[0] } else { 0 };
    let f1: i32 = if v.len() > 1 { v[1] } else { 0 };
    let f2: i32 = if v.len() > 2 { v[2] } else { 0 };
    let f3: i32 = if v.len() > 3 { v[3] } else { 0 };
    let f4: i32 = if v.len() > 4 { v[4] } else { 0 };
    let f5: i32 = if v.len() > 5 { v[5] } else { 0 };
    let year: i32 = match dd.year { Some(y) => y, None => f0 };
    let month: u32 = match dd.month { Some(m) => to_u32_wrapping(m), None => to_u32_wrapping(f1) };
    let day: u32 = match dd.day { Some(d) => to_u32_wrapping(d), None => to_u32_wrapping(f2) };
    Some((year, month, day, f3, f4, f5))
}

fn stamp_exec(c: (i32, u32, u32, i32, i32, i32), a: bool) -> (r: Option<Stamp>)
    ensures
        r == stamp_of((c.0 as int, c.1 as int, c.2 as int, c.3 as int, c.4 as int, c.5 as int), a),
{
    if a && 0 <= c.3 && c.3 <= 23 && 0 <= c.4 && c.4 <= 59 && 0 <= c.5 && c.5 <= 59 {
        Some(Stamp { year: c.0, month: c.1, day: c.2, hour: c.3 as u32, minute: c.4 as u32, second: c.5 as u32 })
    } else {
        None
    }
}

/// The date a text gives, the folder date `dd` standing in for its fields,
/// with the answer chrono gave; with `favourable_answer` chrono is not asked
/// and the most favourable answer is taken, to predict whether the tool may
/// abort.
pub(crate) fn text_date_checked(text: &[u8], dd: DirDate, favourable_answer: bool) -> (r: (Option<Stamp>, Ghost<bool>))
    requires
        valid_utf8(text@),
    ensures
        answer_possible(date_candidate(text@, dd), r.1@),
        favourable_answer ==> r.1@ == favourable(date_candidate(text@, dd)),
        r.0 == text_date_with(text@, dd, r.1@),
        r.0 matches Some(s) ==> stamp_valid(s),
{
    match candidate_exec(text, dd) {
        None => (None, Ghost(false)),
        Some(c) => {
            let a = ask_date(c.0, c.1, c.2, favourable_answer);
            (stamp_exec(c, a), Ghost(a))
        },
    }
}

/// The date a text gives, the folder date `dd` standing in for its fields,
/// once chrono has answered `exists_locally` on the date it reads.
pub fn text_date_answered(text: &[u8], dd: DirDate, exists_locally: bool) -> (r: Option<Stamp>)
    requires
        valid_utf8(text@),
    ensures
        r == text_date_with(text@, dd, exists_locally),
{
    match candidate_exec(text, dd) {
        None => None,
        Some(c) => stamp_exec(c, exists_locally),
    }
}

/// The date a text gives, with the folder date `dd` in place of the fields
/// it has, `None` when the text is no date or chrono does not confirm it.
pub fn text_date(text: &[u8], dd: DirDate) -> (r: Option<Stamp>)
    requires
        valid_utf8(text@),
    ensures
        r == text_date_with(text@, dd, true) || r is None,
        r matches Some(s) ==> stamp_valid(s),
{
    text_date_checked(text, dd, false).0
}

// ---------------------------------------------------------------- file names

/// A file name can be cut after its 23rd byte (or is too short to be cut).
pub open spec fn name_cut_ok(name: Seq<u8>) -> bool {
    name.len() < 25 || boundary(name, 23)
}

/// Seven numbers from the first 23 bytes of a file name of at least 25 bytes.
pub open spec fn name_candidate(name: Seq<u8>) -> Option<Seq<int>> {
    if name.len() < 25 {
        None
    } else {
        fields_of(split_spec(name.take(23), 95u8), 7)
    }
}

/// The date of a file name of the form `YYYY_MM_DD_hh_mm_ss_nnn...`, given
/// chrono's answer on whether the date exists.
pub open spec fn name_date_with(name: Seq<u8>, a: bool) -> Option<Stamp> {
    match name_candidate(name) {
        None => None,
        Some(v) => if 0 <= field_at(v, 6) <= 999 {
            stamp_of((field_at(v, 0), wrap_u32(field_at(v, 1)), wrap_u32(field_at(v, 2)), field_at(v, 3), field_at(v, 4), field_at(v, 5)), a)
        } else {
            None
        },
    }
}

pub open spec fn name_answer_possible(name: Seq<u8>, a: bool) -> bool {
    match name_candidate(name) {
        None => true,
        Some(v) => a ==> civil_date_valid(field_at(v, 0), wrap_u32(field_at(v, 1)), wrap_u32(field_at(v, 2))),
    }
}

/// Whether a file name can be cut where the date in it ends.
pub fn name_can_be_cut(name: &[u8]) -> (r: bool)
    ensures
        r == name_cut_ok(name@),
{
    name.len() < 25 || is_boundary(name, 23)
}

pub open spec fn name_favourable(name: Seq<u8>) -> bool {
    match name_candidate(name) {
        None => false,
        Some(v) => civil_date_valid(field_at(v, 0), wrap_u32(field_at(v, 1)), wrap_u32(field_at(v, 2))),
    }
}

/// The seven numbers at the start of a file name, as read.
fn name_fields_exec(name: &[u8]) -> (r: Option<(i32, u32, u32, i32, i32, i32, i32)>)
    requires
        name_cut_ok(name@),
    ensures
        match name_candidate(name@) {
            None => r is None,
            Some(v) => r matches Some(x) && x.0 as int == field_at(v, 0) && x.1 as int == wrap_u32(field_at(v, 1))
                && x.2 as int == wrap_u32(field_at(v, 2)) && x.3 as int == field_at(v, 3) && x.4 as int == field_at(v, 4)
                && x.5 as int == field_at(v, 5) && x.6 as int == field_at(v, 6),
        },
{
    if name.len() < 25 {
        return None;
    }
    let pieces = split_bytes(&name[0..23], 95);
    proof {
        assert(name@.subrange(0, 23) =~= name@.take(23));
        assert(lines_view(pieces@) =~= split_spec(name@.take(23), 95u8));
    }
    let v = match parse_fields(&pieces, 7) {
        None => return None,
        Some(v) => v,
    };
    let f0: i32 = if v.len() > 0 { v[0] } else { 0 };
    let f1: i32 = if v.len() > 1 { v[1] } else { 0 };
    let f2: i32 = if v.len() > 2 { v[2] } else { 0 };
    let f3: i32 = if v.len() > 3 { v[3] } else { 0 };
    let f4: i32 = if v.len() > 4 { v[4] } else { 0 };
    let f5: i32 = if v.len() > 5 { v[5] } else { 0 };
    let f6: i32 = if v.len() > 6 { v[6] } else { 0 };
    Some((f0, to_u32_wrapping(f1), to_u32_wrapping(f2), f3, f4, f5, f6))
}

/// The date at the start of a file name, with chrono's answer; with
/// `favourable_answer` chrono is not asked and the most favourable answer is
/// taken, to predict whether the tool may abort.
pub(crate) fn name_date_checked(name: &[u8], favourable_answer: bool) -> (r: (Option<Stamp>, Ghost<bool>))
    requires
        name_cut_ok(name@),
    ensures
        name_answer_possible(name@, r.1@),
        favourable_answer ==> r.1@ == name_favourable(name@),
        r.0 == name_date_with(name@, r.1@),
        r.0 matches Some(s) ==> stamp_valid(s),
{
    match name_fields_exec(name) {
        None => (None, Ghost(false)),
        Some(f) => {
            let a = ask_date(f.0, f.1, f.2, favourable_answer);
            if f.6 < 0 || f.6 > 999 {
                return (None, Ghost(a));
            }
            (stamp_exec((f.0, f.1, f.2, f.3, f.4, f.5), a), Ghost(a))
        },
    }
}

/// The date at the start of a file name, once chrono has answered
/// `exists_locally` on the date it reads.
pub fn name_date_answered(name: &[u8], exists_locally: bool) -> (r: Option<Stamp>)
    requires
        name_cut_ok(name@),
    ensures
        r == name_date_with(name@, exists_locally),
{
    match name_fields_exec(name) {
        None => None,
        Some(f) => if f.6 < 0 || f.6 > 999 {
            None
        } else {
            stamp_exec((f.0, f.1, f.2, f.3, f.4, f.5), exists_locally)
        },
    }
}

/// The date at the start of a file name of the form
/// `YYYY_MM_DD_hh_mm_ss_nnn...` (at least 25 bytes, seven numbers in the
/// first 23 bytes, the last one from 0 to 999), `None` when there is none or
/// chrono does not confirm it.
pub fn name_date(name: &[u8]) -> (r: Option<Stamp>)
    requires
        name_cut_ok(name@),
    ensures
        r == name_date_with(name@, true) || r is None,
        r matches Some(s) ==> stamp_valid(s),
{
    name_date_checked(name, false).0
}

} // verus!
