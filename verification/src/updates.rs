//! Updating the rows of the file list: recomputing the date to assign (the
//! folder date in place of some fields, then the offset added) and the new
//! name of each file (`YYYY_MM_DD_hh_mm_ss_500_` and the end of the old name).

use vstd::prelude::*;
use vstd::utf8::valid_utf8;
use crate::date_text::{
    answer_possible, date_candidate, favourable, no_dir_date, text_date_answered, text_date_checked, text_date_with,
    DirDate,
};
use crate::dates::{
    assign_text, utc_shifted, file_name_text, format_stamp, lemma_stamp_text_ascii,
    pattern_assign, pattern_file_name, shift_stamp, stamp_seconds, stamp_tuple, stamp_valid, tuple_seconds,
    tuple_valid, Stamp,
};
use crate::patterns::{pattern_not_alnum_dot, replace_all, underscored};
use crate::records::{ascii, boundary, is_boundary};
use crate::settings::{Offset, UpdateSettings};
use crate::text::{bytes_eq, lemma_split_two, push_all, slice_to_vec_bytes, split_bytes, split_spec};
use crate::utf8_facts::{lemma_ascii_valid, lemma_concat_valid, lemma_cut_around_ascii, lemma_cut_valid};

verus! {

/// One row of the file list: name, where the date came from (or whether it
/// changed), current date, date to assign (`-` for none), new name (`-` for none).
#[derive(Clone, Debug)]
pub struct Row {
    pub name: Vec<u8>,
    pub origin: Vec<u8>,
    pub current: Vec<u8>,
    pub assigned: Vec<u8>,
    pub new_name: Vec<u8>,
}

pub struct RowView {
    pub name: Seq<u8>,
    pub origin: Seq<u8>,
    pub current: Seq<u8>,
    pub assigned: Seq<u8>,
    pub new_name: Seq<u8>,
}

impl Row {
    pub open spec fn view(&self) -> RowView {
        RowView {
            name: self.name@,
            origin: self.origin@,
            current: self.current@,
            assigned: self.assigned@,
            new_name: self.new_name@,
        }
    }
}

pub open spec fn rows_view(rows: Seq<Row>) -> Seq<RowView> {
    Seq::new(rows.len(), |i: int| rows[i]@)
}

/// The texts of a row are UTF-8 and its name has a length that fits an `i32`.
pub open spec fn row_ok(r: RowView) -> bool {
    valid_utf8(r.name) && valid_utf8(r.current) && valid_utf8(r.assigned) && r.name.len() < 0x8000_0000
}

/// Why a row could not be updated.
#[derive(Clone, Copy, PartialEq, Eq, Debug, Structural)]
pub enum RowError {
    /// The date to assign is no date.
    BadDate,
    /// The name has not exactly one `.`.
    NotOnePeriod,
    /// The date to assign is no date when the new name is made.
    BadAssignDate,
}

pub open spec fn dash() -> Seq<u8> { seq![45u8] }
/// `No Chg`
pub open spec fn no_change() -> Seq<u8> { seq![78u8, 111u8, 32u8, 67u8, 104u8, 103u8] }
/// `Date Chg`
pub open spec fn date_change() -> Seq<u8> { seq![68u8, 97u8, 116u8, 101u8, 32u8, 67u8, 104u8, 103u8] }
/// `_500_`
pub open spec fn mark_500() -> Seq<u8> { seq![95u8, 53u8, 48u8, 48u8, 95u8] }

pub open spec fn xs(n: nat) -> Seq<u8> {
    Seq::new(n, |i: int| 120u8)
}

/// The date to assign, the current one standing in for `-`.
pub open spec fn assigned_or_current(r: RowView) -> Seq<u8> {
    if r.assigned == dash() { r.current } else { r.assigned }
}

/// One addition of chrono: `None` when the seconds do not fit an `i64` or
/// chrono's range is left.
pub open spec fn shift_secs(t: Option<(int, int, int, int, int, int)>, secs: int) -> Option<(int, int, int, int, int, int)> {
    match t {
        None => None,
        Some(t) => if i64::MIN <= secs <= i64::MAX { utc_shifted(t, secs) } else { None },
    }
}

/// The stamp with the offset added, one part after the other: years as 365
/// days, months as 30 days, then days, hours, minutes and seconds.
pub open spec fn shifted(st: Stamp, o: Offset) -> Option<(int, int, int, int, int, int)> {
    let t1 = shift_secs(Some(stamp_tuple(st)), o.years * 365 * 86400);
    let t2 = shift_secs(t1, o.months * 30 * 86400);
    let t3 = shift_secs(t2, o.days * 86400);
    let t4 = shift_secs(t3, o.hours * 3600);
    let t5 = shift_secs(t4, o.minutes * 60);
    shift_secs(t5, o.seconds as int)
}

pub open spec fn tuple_stamp(t: (int, int, int, int, int, int)) -> Stamp {
    Stamp { year: t.0 as i32, month: t.1 as u32, day: t.2 as u32, hour: t.3 as u32, minute: t.4 as u32, second: t.5 as u32 }
}

/// What the first step of a row gives.
pub enum ShiftResult {
    /// The date to assign, and whether it was recomputed.
    Assigned(Seq<u8>, bool),
    /// The date read is no date.
    NoDate,
    /// Adding the offset leaves chrono's range (the tool aborts there).
    OutOfRange,
}

/// The date to assign after the first step (and whether it changed),
/// `a` being chrono's answer on the date read.
pub open spec fn shift_step(r: RowView, s: UpdateSettings, a: bool) -> ShiftResult {
    let ass = assigned_or_current(r);
    if !s.shift {
        ShiftResult::Assigned(ass, false)
    } else {
        match text_date_with(ass, s.dir_date, a) {
            None => ShiftResult::NoDate,
            Some(st) => match shifted(st, s.offset) {
                None => ShiftResult::OutOfRange,
                Some(t) => ShiftResult::Assigned(assign_text(tuple_stamp(t)), true),
            },
        }
    }
}

/// Base and type of a name with exactly one `.`.
pub open spec fn name_parts(name: Seq<u8>) -> Option<(Seq<u8>, Seq<u8>)> {
    let p = split_spec(name, 46u8);
    if p.len() == 2 { Some((p[0], p[1])) } else { None }
}

/// The base brought to `n` bytes (`x` in front, or its last `n` bytes), a
/// `.` and the type.
pub open spec fn short_name(base: Seq<u8>, suffix: Seq<u8>, n: int) -> Seq<u8> {
    let l = base.len() as int;
    (if l < n { xs((n - l) as nat) + base } else { base.skip(l - n) }) + seq![46u8] + suffix
}

/// The base can be cut to its last `n` bytes (the tool aborts otherwise).
pub open spec fn cut_ok(name: Seq<u8>, n: int) -> bool {
    match name_parts(name) {
        None => true,
        Some((b, _)) => b.len() < n || boundary(b, b.len() - n),
    }
}

/// The updated row, `a1` and `a2` being chrono's answers on the two dates
/// read.  On a row where the tool aborts ([`row_aborts`]) the value says
/// nothing.
pub open spec fn updated_row(r: RowView, s: UpdateSettings, a1: bool, a2: bool) -> Result<RowView, RowError> {
    match shift_step(r, s, a1) {
        ShiftResult::NoDate => Err(RowError::BadDate),
        ShiftResult::OutOfRange => Err(RowError::BadDate),
        ShiftResult::Assigned(ass, changed) => {
            if !s.rename {
                Ok(RowView {
                    name: r.name,
                    origin: if changed { date_change() } else { no_change() },
                    current: r.current,
                    assigned: ass,
                    new_name: r.name,
                })
            } else {
                match name_parts(r.name) {
                    None => Err(RowError::NotOnePeriod),
                    Some((b, sfx)) => match text_date_with(ass, no_dir_date(), a2) {
                        None => Err(RowError::BadAssignDate),
                        Some(st2) => Ok(RowView {
                            name: r.name,
                            origin: date_change(),
                            current: r.current,
                            assigned: ass,
                            new_name: file_name_text(st2) + mark_500() + underscored(short_name(b, sfx, s.file_len as int), true),
                        }),
                    },
                }
            }
        },
    }
}

/// The tool aborts on this row: adding the offset leaves chrono's
/// range, or it renames, the date step went through, and the base cannot be
/// cut.
pub open spec fn row_aborts(r: RowView, s: UpdateSettings, a1: bool) -> bool {
    match shift_step(r, s, a1) {
        ShiftResult::OutOfRange => true,
        ShiftResult::Assigned(_, _) => s.rename && !cut_ok(r.name, s.file_len as int),
        ShiftResult::NoDate => false,
    }
}

/// Answers chrono could give for the two dates of a row.
pub open spec fn answers_possible(r: RowView, s: UpdateSettings, a1: bool, a2: bool) -> bool {
    &&& (s.shift ==> answer_possible(date_candidate(assigned_or_current(r), s.dir_date), a1))
    &&& match shift_step(r, s, a1) {
        ShiftResult::Assigned(ass, _) => s.rename ==> answer_possible(date_candidate(ass, no_dir_date()), a2),
        _ => true,
    }
}

pub open spec fn favourable1(r: RowView, s: UpdateSettings) -> bool {
    favourable(date_candidate(assigned_or_current(r), s.dir_date))
}

pub open spec fn favourable2(r: RowView, s: UpdateSettings) -> bool {
    match shift_step(r, s, favourable1(r, s)) {
        ShiftResult::Assigned(ass, _) => favourable(date_candidate(ass, no_dir_date())),
        _ => false,
    }
}

/// Any possible answers that let a row through give what the most favourable
/// answers give; the tool aborting on a row with some possible answers
/// aborts with the favourable ones.
proof fn lemma_row_favourable(r: RowView, s: UpdateSettings, a1: bool, a2: bool)
    requires
        answers_possible(r, s, a1, a2),
    ensures
        !(shift_step(r, s, a1) is NoDate) ==> shift_step(r, s, a1) == shift_step(r, s, favourable1(r, s)),
        updated_row(r, s, a1, a2) is Ok ==> updated_row(r, s, a1, a2) == updated_row(r, s, favourable1(r, s), favourable2(r, s)),
        row_aborts(r, s, a1) ==> row_aborts(r, s, favourable1(r, s)),
{
    let f1 = favourable1(r, s);
    if s.shift && !(shift_step(r, s, a1) is NoDate) {
        assert(a1 ==> f1);
        if !a1 {
            assert(text_date_with(assigned_or_current(r), s.dir_date, a1) is None);
        }
    }
    if updated_row(r, s, a1, a2) is Ok && s.rename {
        let ass = shift_step(r, s, a1)->Assigned_0;
        if !a2 {
            assert(text_date_with(ass, no_dir_date(), a2) is None);
        }
    }
}

// ---------------------------------------------------------------- offset laws

/// One addition that goes through lands a valid date and time exactly
/// `secs` seconds later.
proof fn lemma_shift_secs(t: Option<(int, int, int, int, int, int)>, secs: int)
    requires
        shift_secs(t, secs) is Some,
    ensures
        t is Some,
        tuple_valid(shift_secs(t, secs)->Some_0),
        tuple_seconds(shift_secs(t, secs)->Some_0) == tuple_seconds(t->Some_0) + secs,
{
    let u = t->Some_0;
    assert(exists|v: (int, int, int, int, int, int)| #[trigger] tuple_valid(v) && tuple_seconds(v) == tuple_seconds(u) + secs);
}

/// Adding an offset to a date and time gives, when it goes through, the
/// valid date and time that many seconds later: years count 365 days,
/// months 30 days, days 86400 seconds, hours 3600 and minutes 60.
pub proof fn law_offset_adds_seconds(st: Stamp, o: Offset)
    requires
        shifted(st, o) is Some,
    ensures
        tuple_valid(shifted(st, o)->Some_0),
        tuple_seconds(shifted(st, o)->Some_0) == stamp_seconds(st) + o.years * 365 * 86400 + o.months * 30 * 86400
            + o.days * 86400 + o.hours * 3600 + o.minutes * 60 + o.seconds,
{
    let start = Some(stamp_tuple(st));
    let by_years = shift_secs(start, o.years * 365 * 86400);
    let by_months = shift_secs(by_years, o.months * 30 * 86400);
    let by_days = shift_secs(by_months, o.days * 86400);
    let by_hours = shift_secs(by_days, o.hours * 3600);
    let by_minutes = shift_secs(by_hours, o.minutes * 60);
    lemma_shift_secs(by_minutes, o.seconds as int);
    lemma_shift_secs(by_hours, o.minutes * 60);
    lemma_shift_secs(by_days, o.hours * 3600);
    lemma_shift_secs(by_months, o.days * 86400);
    lemma_shift_secs(by_years, o.months * 30 * 86400);
    lemma_shift_secs(start, o.years * 365 * 86400);
}

/// A valid date and time read back from its tuple is itself.
proof fn lemma_tuple_stamp(t: (int, int, int, int, int, int))
    requires
        tuple_valid(t),
    ensures
        stamp_tuple(tuple_stamp(t)) == t,
        stamp_valid(tuple_stamp(t)),
{
}

/// When an update recomputes the dates and a row goes through, the row is
/// marked changed and its date to assign is the date read (the folder date
/// in place of its fields) with the offset added in seconds.
pub proof fn law_update_adds_the_offset(r: RowView, s: UpdateSettings, a1: bool, a2: bool, st: Stamp)
    requires
        s.shift,
        text_date_with(assigned_or_current(r), s.dir_date, a1) == Some(st),
        updated_row(r, s, a1, a2) is Ok,
    ensures
        ({
            let x = updated_row(r, s, a1, a2)->Ok_0;
            &&& x.origin == date_change()
            &&& exists|st2: Stamp| #[trigger] stamp_valid(st2) && x.assigned == assign_text(st2)
                && stamp_seconds(st2) == stamp_seconds(st) + s.offset.years * 365 * 86400
                    + s.offset.months * 30 * 86400 + s.offset.days * 86400 + s.offset.hours * 3600
                    + s.offset.minutes * 60 + s.offset.seconds
        }),
{
    let t = shifted(st, s.offset)->Some_0;
    law_offset_adds_seconds(st, s.offset);
    lemma_tuple_stamp(t);
    let st2 = tuple_stamp(t);
    assert(stamp_seconds(st2) == tuple_seconds(t));
}

/// An update that does not recompute the dates keeps each row's date to
/// assign (its current date when none was assigned), marks the row
/// unchanged when it does not rename, and keeps the name of the file.
pub proof fn law_no_shift_keeps_the_date(r: RowView, s: UpdateSettings, a1: bool, a2: bool)
    requires
        !s.shift,
        updated_row(r, s, a1, a2) is Ok,
    ensures
        updated_row(r, s, a1, a2)->Ok_0.assigned == (if r.assigned == dash() { r.current } else { r.assigned }),
        updated_row(r, s, a1, a2)->Ok_0.name == r.name,
        !s.rename ==> updated_row(r, s, a1, a2)->Ok_0.origin == no_change()
            && updated_row(r, s, a1, a2)->Ok_0.new_name == r.name,
{
}

// ---------------------------------------------------------------- exec

fn shift_exec(st: Stamp, o: Offset) -> (r: Option<Stamp>)
    requires
        stamp_valid(st),
    ensures
        match shifted(st, o) {
            None => r is None,
            Some(t) => r matches Some(x) && stamp_tuple(x) == t && stamp_valid(x),
        },
{
    let d1: i64 = (o.years as i64) * 365;
    let s1 = match d1.checked_mul(86400) { Some(v) => v, None => return None };
    let st1 = match shift_stamp(st, s1) { Some(v) => v, None => return None };
    let d2: i64 = (o.months as i64) * 30;
    let s2 = match d2.checked_mul(86400) { Some(v) => v, None => return None };
    let st2 = match shift_stamp(st1, s2) { Some(v) => v, None => return None };
    let s3: i64 = (o.days as i64) * 86400;
    let st3 = match shift_stamp(st2, s3) { Some(v) => v, None => return None };
    let s4: i64 = (o.hours as i64) * 3600;
    let st4 = match shift_stamp(st3, s4) { Some(v) => v, None => return None };
    let s5: i64 = (o.minutes as i64) * 60;
    let st5 = match shift_stamp(st4, s5) { Some(v) => v, None => return None };
    let st6 = match shift_stamp(st5, o.seconds as i64) { Some(v) => v, None => return None };
    Some(st6)
}

/// What one row gives: the updated row, an error, or an abort of the tool.
#[derive(Debug)]
pub enum RowOutcome {
    Updated(Row),
    Failed(RowError),
    Aborts,
}

fn copy_bytes(v: &Vec<u8>) -> (r: Vec<u8>)
    ensures
        r@ == v@,
{
    slice_to_vec_bytes(v.as_slice())
}

proof fn lemma_short_name_valid(name: Seq<u8>, n: int)
    requires
        valid_utf8(name),
        name_parts(name) is Some,
        cut_ok(name, n),
    ensures
        valid_utf8(short_name(name_parts(name)->Some_0.0, name_parts(name)->Some_0.1, n)),
{
    let i = lemma_split_two(name, 46u8);
    lemma_cut_around_ascii(name, i);
    let b = name.take(i);
    let sfx = name.skip(i + 1);
    let l = b.len() as int;
    let head = if l < n { xs((n - l) as nat) + b } else { b.skip(l - n) };
    if l < n {
        assert(ascii(xs((n - l) as nat)));
        lemma_ascii_valid(xs((n - l) as nat));
        lemma_concat_valid(xs((n - l) as nat), b);
    } else {
        lemma_cut_valid(b, l - n);
    }
    assert(ascii(seq![46u8]));
    lemma_ascii_valid(seq![46u8]);
    lemma_concat_valid(head, seq![46u8]);
    lemma_concat_valid(head + seq![46u8], sfx);
}

/// What the first step of a row gives, as computed.
enum ShiftOut {
    Assigned(Vec<u8>, bool),
    NoDate,
    OutOfRange,
}

/// The first step of a row: the date to assign, possibly recomputed.
fn shift_part(r: &Row, s: &UpdateSettings, favourable_answers: bool, given: Option<bool>) -> (res: (ShiftOut, Ghost<bool>))
    requires
        row_ok(r@),
        given matches Some(a) ==> (s.shift ==> answer_possible(date_candidate(assigned_or_current(r@), s.dir_date), a)),
    ensures
        s.shift ==> answer_possible(date_candidate(assigned_or_current(r@), s.dir_date), res.1@),
        given is None && favourable_answers ==> res.1@ == favourable1(r@, *s),
        given matches Some(a) ==> res.1@ == a,
        match res.0 {
            ShiftOut::NoDate => shift_step(r@, *s, res.1@) is NoDate,
            ShiftOut::OutOfRange => shift_step(r@, *s, res.1@) is OutOfRange,
            ShiftOut::Assigned(v, c) => shift_step(r@, *s, res.1@) == ShiftResult::Assigned(v@, c) && valid_utf8(v@),
        },
{
    let dash_arr: [u8; 1] = [45u8];
    let dash_s: &[u8] = &dash_arr;
    assert(dash_s@ == dash());
    let ass0: &[u8] = if bytes_eq(r.assigned.as_slice(), dash_s) { r.current.as_slice() } else { r.assigned.as_slice() };
    assert(ass0@ == assigned_or_current(r@));
    let ghost unasked: bool = match given {
        Some(a) => a,
        None => favourable1(r@, *s),
    };
    if !s.shift {
        return (ShiftOut::Assigned(slice_to_vec_bytes(ass0), false), Ghost(unasked));
    }
    let (d, a1) = match given {
        Some(a) => {
            let d = text_date_answered(ass0, s.dir_date, a);
            proof {
                if d is Some {
                    assert(stamp_valid(d->Some_0));
                }
            }
            (d, Ghost(a))
        },
        None => text_date_checked(ass0, s.dir_date, favourable_answers),
    };
    let st = match d {
        None => return (ShiftOut::NoDate, a1),
        Some(st) => st,
    };
    let st2 = match shift_exec(st, s.offset) {
        None => return (ShiftOut::OutOfRange, a1),
        Some(x) => x,
    };
    let pattern = "%Y:%m:%d %H:%M:%S";
    assert(pattern@ == pattern_assign());
    let ass = format_stamp(st2, pattern);
    proof {
        assert(st2 == tuple_stamp(stamp_tuple(st2)));
        lemma_stamp_text_ascii(st2, 58u8, 32u8, 58u8);
        lemma_ascii_valid(ass@);
    }
    (ShiftOut::Assigned(ass, true), a1)
}

fn push_xs(out: &mut Vec<u8>, count: usize)
    ensures
        final(out)@ == old(out)@ + xs(count as nat),
{
    let ghost start = out@;
    let mut k: usize = 0;
    while k < count
        invariant
            k <= count,
            out@ == start + xs(k as nat),
        decreases count - k,
    {
        out.push(120);
        k = k + 1;
        proof { assert(out@ =~= start + xs(k as nat)); }
    }
}

/// The short form of a name with one `.`, `None` where the tool aborts.
fn short_name_exec(base: &[u8], suffix: &[u8], n: i32) -> (r: Option<Vec<u8>>)
    requires
        base@.len() < 0x8000_0000,
    ensures
        match r {
            None => !(base@.len() < n || boundary(base@, base@.len() - n)),
            Some(v) => (base@.len() < n || boundary(base@, base@.len() - n)) && v@ == short_name(base@, suffix@, n as int),
        },
{
    let l: usize = base.len();
    let mut short: Vec<u8> = Vec::new();
    if (l as i64) < (n as i64) {
        push_xs(&mut short, ((n as i64) - (l as i64)) as usize);
        push_all(&mut short, base);
    } else {
        let cut: i64 = (l as i64) - (n as i64);
        if cut > l as i64 || !is_boundary(base, cut as usize) {
            return None;
        }
        push_all(&mut short, &base[cut as usize..l]);
        proof { assert(base@.subrange(cut as int, l as int) =~= base@.skip(cut as int)); }
    }
    short.push(46);
    push_all(&mut short, suffix);
    proof {
        assert(short@ =~= short_name(base@, suffix@, n as int));
    }
    Some(short)
}

/// Updates one row; `favourable_answers` takes the most favourable answers of
/// chrono in place of asking it.
fn update_row_exec(r: &Row, s: &UpdateSettings, favourable_answers: bool, given: Option<(bool, bool)>)
    -> (res: (RowOutcome, Ghost<(bool, bool)>))
    requires
        row_ok(r@),
        given matches Some(g) ==> answers_possible(r@, *s, g.0, g.1),
    ensures
        answers_possible(r@, *s, res.1@.0, res.1@.1),
        given is None && favourable_answers ==> res.1@ == (favourable1(r@, *s), favourable2(r@, *s)),
        given matches Some(g) ==> res.1@ == g,
        match res.0 {
            RowOutcome::Aborts => row_aborts(r@, *s, res.1@.0),
            RowOutcome::Failed(e) => !row_aborts(r@, *s, res.1@.0) && updated_row(r@, *s, res.1@.0, res.1@.1) == Err::<RowView, RowError>(e),
            RowOutcome::Updated(x) => !row_aborts(r@, *s, res.1@.0) && updated_row(r@, *s, res.1@.0, res.1@.1) == Ok::<RowView, RowError>(x@) && row_ok(x@),
        },
{
    let ghost rv = r@;
    let ghost second: bool = match given {
        Some(g) => g.1,
        None => favourable2(rv, *s),
    };
    let first_given: Option<bool> = match given {
        Some(g) => Some(g.0),
        None => None,
    };
    let (step, a1) = shift_part(r, s, favourable_answers, first_given);
    let (ass, changed) = match step {
        ShiftOut::NoDate => return (RowOutcome::Failed(RowError::BadDate), Ghost((a1@, second))),
        ShiftOut::OutOfRange => return (RowOutcome::Aborts, Ghost((a1@, second))),
        ShiftOut::Assigned(v, c) => (v, c),
    };
    if !s.rename {
        let out = Row {
            name: copy_bytes(&r.name),
            origin: if changed { slice_to_vec_bytes(&[68u8, 97, 116, 101, 32, 67, 104, 103]) } else { slice_to_vec_bytes(&[78u8, 111, 32, 67, 104, 103]) },
            current: copy_bytes(&r.current),
            assigned: ass,
            new_name: copy_bytes(&r.name),
        };
        proof {
            assert(out@.origin =~= (if changed { date_change() } else { no_change() }));
        }
        return (RowOutcome::Updated(out), Ghost((a1@, second)));
    }
    let parts = split_bytes(r.name.as_slice(), 46);
    if parts.len() != 2 {
        return (RowOutcome::Failed(RowError::NotOnePeriod), Ghost((a1@, second)));
    }
    let base: &[u8] = parts[0].as_slice();
    let suffix: &[u8] = parts[1].as_slice();
    assert(name_parts(rv.name) == Some((base@, suffix@)));
    proof {
        lemma_split_two(rv.name, 46u8);
    }
    let short = match short_name_exec(base, suffix, s.file_len) {
        None => return (RowOutcome::Aborts, Ghost((a1@, second))),
        Some(v) => v,
    };
    proof {
        lemma_short_name_valid(rv.name, s.file_len as int);
    }
    let pattern_dot = "[^A-Za-z0-9.]";
    assert(pattern_dot@ == pattern_not_alnum_dot());
    let underscore_arr: [u8; 1] = [95u8];
    let underscore: &[u8] = &underscore_arr;
    assert(underscore@ == seq![95u8]);
    let clean = match replace_all(pattern_dot, short.as_slice(), underscore) {
        Some(c) => c,
        None => return (RowOutcome::Failed(RowError::BadAssignDate), Ghost((a1@, second))),
    };
    let (d2, a2) = match given {
        Some(g) => {
            let d = text_date_answered(ass.as_slice(), DirDate { year: None, month: None, day: None }, g.1);
            proof {
                if d is Some {
                    assert(stamp_valid(d->Some_0));
                }
            }
            (d, Ghost(g.1))
        },
        None => text_date_checked(ass.as_slice(), DirDate { year: None, month: None, day: None }, favourable_answers),
    };
    let st2 = match d2 {
        None => return (RowOutcome::Failed(RowError::BadAssignDate), Ghost((a1@, a2@))),
        Some(x) => x,
    };
    let pattern_name = "%Y_%m_%d_%H_%M_%S";
    assert(pattern_name@ == pattern_file_name());
    let mut new_name = format_stamp(st2, pattern_name);
    push_all(&mut new_name, &[95u8, 53, 48, 48, 95]);
    push_all(&mut new_name, clean.as_slice());
    let out = Row {
        name: copy_bytes(&r.name),
        origin: slice_to_vec_bytes(&[68u8, 97, 116, 101, 32, 67, 104, 103]),
        current: copy_bytes(&r.current),
        assigned: ass,
        new_name,
    };
    proof {
        assert(out@.new_name =~= file_name_text(st2) + mark_500() + underscored(short_name(base@, suffix@, s.file_len as int), true));
        assert(out@.origin =~= date_change());
    }
    (RowOutcome::Updated(out), Ghost((a1@, a2@)))
}

/// What one row gives once chrono has answered `a1` on the date it reads
/// and `a2` on the date to assign.
pub fn update_row_answered(r: &Row, s: &UpdateSettings, a1: bool, a2: bool) -> (o: RowOutcome)
    requires
        row_ok(r@),
        answers_possible(r@, *s, a1, a2),
    ensures
        match o {
            RowOutcome::Aborts => row_aborts(r@, *s, a1),
            RowOutcome::Failed(e) => !row_aborts(r@, *s, a1) && updated_row(r@, *s, a1, a2) == Err::<RowView, RowError>(e),
            RowOutcome::Updated(x) => !row_aborts(r@, *s, a1) && updated_row(r@, *s, a1, a2) == Ok::<RowView, RowError>(x@)
                && row_ok(x@),
        },
{
    update_row_exec(r, s, false, Some((a1, a2))).0
}

// ---------------------------------------------------------------- all rows

/// Whether a row is among those to update (`None`: every row).
pub open spec fn is_selected(name: Seq<u8>, sel: Option<Seq<Seq<u8>>>) -> bool {
    match sel {
        None => true,
        Some(v) => v.contains(name),
    }
}

/// A row left as it is: marked unchanged, `-` replaced by the current date.
pub open spec fn kept_row(r: RowView) -> RowView {
    RowView { name: r.name, origin: no_change(), current: r.current, assigned: assigned_or_current(r), new_name: r.new_name }
}

/// What one row gives in an update: kept as it is when it is not among
/// those to update, else updated or an error.
#[verifier::opaque]
pub open spec fn row_result(r: RowView, sel: Option<Seq<Seq<u8>>>, s: UpdateSettings, a: (bool, bool)) -> Result<RowView, RowError> {
    if !is_selected(r.name, sel) { Ok(kept_row(r)) } else { updated_row(r, s, a.0, a.1) }
}

/// The tool aborts on this row of an update.
#[verifier::opaque]
pub open spec fn row_stops(r: RowView, sel: Option<Seq<Seq<u8>>>, s: UpdateSettings, a: (bool, bool)) -> bool {
    is_selected(r.name, sel) && row_aborts(r, s, a.0)
}

/// The first `n` rows gone through: the rows written, and the row and
/// error at which the update stopped, if it did.
pub open spec fn update_prefix(rows: Seq<RowView>, sel: Option<Seq<Seq<u8>>>, s: UpdateSettings, ans: Seq<(bool, bool)>, n: int) -> (Seq<RowView>, Option<(int, RowError)>)
    decreases n,
{
    if n <= 0 {
        (Seq::empty(), None)
    } else {
        let (done, stop) = update_prefix(rows, sel, s, ans, n - 1);
        if stop is Some {
            (done, stop)
        } else {
            match row_result(rows[n - 1], sel, s, ans[n - 1]) {
                Ok(x) => (done.push(x), None),
                Err(e) => (done, Some((n - 1, e))),
            }
        }
    }
}

/// A written row comes from the row `r`: same name and current date, and
/// when `r` is not among those to update, `r` kept as it is.
pub open spec fn written_from(x: RowView, r: RowView, sel: Option<Seq<Seq<u8>>>) -> bool {
    x.name == r.name && x.current == r.current && (!is_selected(r.name, sel) ==> x == kept_row(r))
}

/// An update goes through the rows in order: it writes one row for each row
/// before the one it stopped at (for each row when it does not stop), and
/// each written row keeps the name and current date of its row; a row not
/// among those to update is kept, marked unchanged.
pub proof fn law_update_keeps_rows(rows: Seq<RowView>, sel: Option<Seq<Seq<u8>>>, s: UpdateSettings, ans: Seq<(bool, bool)>, n: int)
    requires
        0 <= n <= rows.len(),
    ensures
        match update_prefix(rows, sel, s, ans, n).1 {
            None => update_prefix(rows, sel, s, ans, n).0.len() == n,
            Some((k, _)) => 0 <= k < n && update_prefix(rows, sel, s, ans, n).0.len() == k,
        },
        forall|i: int| 0 <= i < update_prefix(rows, sel, s, ans, n).0.len()
            ==> #[trigger] written_from(update_prefix(rows, sel, s, ans, n).0[i], rows[i], sel),
    decreases n,
{
    if n > 0 {
        law_update_keeps_rows(rows, sel, s, ans, n - 1);
        let prev = update_prefix(rows, sel, s, ans, n - 1);
        let cur = update_prefix(rows, sel, s, ans, n);
        if prev.1 is None {
            let r = rows[n - 1];
            assert(row_result(r, sel, s, ans[n - 1]) matches Ok(x) ==> written_from(x, r, sel)) by {
                reveal(row_result);
            }
            assert forall|i: int| 0 <= i < cur.0.len() implies #[trigger] written_from(cur.0[i], rows[i], sel) by {
                if i < prev.0.len() {
                    assert(written_from(prev.0[i], rows[i], sel));
                }
            }
        }
    }
}

pub open spec fn answers_all_possible(rows: Seq<RowView>, s: UpdateSettings, ans: Seq<(bool, bool)>) -> bool {
    ans.len() == rows.len() && forall|i: int| 0 <= i < rows.len() ==> answers_possible(rows[i], s, #[trigger] ans[i].0, ans[i].1)
}

pub open spec fn favourable_all(rows: Seq<RowView>, s: UpdateSettings) -> Seq<(bool, bool)> {
    Seq::new(rows.len(), |i: int| (favourable1(rows[i], s), favourable2(rows[i], s)))
}

/// The tool aborts at row `i` with these answers.
pub open spec fn aborts_at(rows: Seq<RowView>, sel: Option<Seq<Seq<u8>>>, s: UpdateSettings, ans: Seq<(bool, bool)>, i: int) -> bool {
    0 <= i < rows.len() && update_prefix(rows, sel, s, ans, i).1 is None && row_stops(rows[i], sel, s, ans[i])
}

/// Whether some time zone could make the tool abort on these rows: it
/// does with the most favourable answers of chrono.
pub open spec fn update_may_abort(rows: Seq<RowView>, sel: Option<Seq<Seq<u8>>>, s: UpdateSettings) -> bool {
    exists|i: int| aborts_at(rows, sel, s, favourable_all(rows, s), i)
}

proof fn lemma_prefix_agree(rows: Seq<RowView>, sel: Option<Seq<Seq<u8>>>, s: UpdateSettings, a: Seq<(bool, bool)>, b: Seq<(bool, bool)>, n: int)
    requires
        forall|i: int| 0 <= i < n ==> a[i] == b[i],
    ensures
        update_prefix(rows, sel, s, a, n) == update_prefix(rows, sel, s, b, n),
    decreases n,
{
    if n > 0 {
        lemma_prefix_agree(rows, sel, s, a, b, n - 1);
    }
}

proof fn lemma_prefix_stopped(rows: Seq<RowView>, sel: Option<Seq<Seq<u8>>>, s: UpdateSettings, a: Seq<(bool, bool)>, k: int, n: int)
    requires
        0 <= k <= n,
        update_prefix(rows, sel, s, a, k).1 is Some,
    ensures
        update_prefix(rows, sel, s, a, n) == update_prefix(rows, sel, s, a, k),
    decreases n - k,
{
    if n > k {
        lemma_prefix_stopped(rows, sel, s, a, k, n - 1);
    }
}

proof fn lemma_row_result_favourable(r: RowView, sel: Option<Seq<Seq<u8>>>, s: UpdateSettings, a: (bool, bool))
    requires
        answers_possible(r, s, a.0, a.1),
    ensures
        row_result(r, sel, s, a) is Ok ==> row_result(r, sel, s, a) == row_result(r, sel, s, (favourable1(r, s), favourable2(r, s))),
        row_stops(r, sel, s, a) ==> row_stops(r, sel, s, (favourable1(r, s), favourable2(r, s))),
{
    reveal(row_result);
    reveal(row_stops);
    lemma_row_favourable(r, s, a.0, a.1);
}

proof fn lemma_prefix_favourable(rows: Seq<RowView>, sel: Option<Seq<Seq<u8>>>, s: UpdateSettings, a: Seq<(bool, bool)>, n: int)
    requires
        0 <= n <= rows.len(),
        a.len() >= n,
        forall|i: int| 0 <= i < n ==> answers_possible(rows[i], s, #[trigger] a[i].0, a[i].1),
        update_prefix(rows, sel, s, a, n).1 is None,
    ensures
        update_prefix(rows, sel, s, favourable_all(rows, s), n) == update_prefix(rows, sel, s, a, n),
    decreases n,
{
    if n > 0 {
        let (done, stop) = update_prefix(rows, sel, s, a, n - 1);
        if stop is Some {
            lemma_prefix_stopped(rows, sel, s, a, n - 1, n);
        }
        lemma_prefix_favourable(rows, sel, s, a, n - 1);
        lemma_row_result_favourable(rows[n - 1], sel, s, a[n - 1]);
    }
}

/// What an update gives.
#[derive(Debug)]
pub struct UpdateOutcome {
    /// The rows written (for an update of every row, the new list only when
    /// `stopped` is `None`).
    pub rows: Vec<Row>,
    /// The index of the row and the error that stopped the update.
    pub stopped: Option<(usize, RowError)>,
}

pub open spec fn outcome_view(o: &UpdateOutcome) -> (Seq<RowView>, Option<(int, RowError)>) {
    (rows_view(o.rows@), match o.stopped { None => None, Some((i, e)) => Some((i as int, e)) })
}

pub open spec fn sel_view(sel: Option<&Vec<Vec<u8>>>) -> Option<Seq<Seq<u8>>> {
    match sel {
        None => None,
        Some(v) => Some(crate::text::lines_view(v@)),
    }
}

fn selected_exec(name: &[u8], sel: Option<&Vec<Vec<u8>>>) -> (r: bool)
    ensures
        r == is_selected(name@, sel_view(sel)),
{
    match sel {
        None => true,
        Some(v) => {
            let ghost lv = crate::text::lines_view(v@);
            assert(sel_view(sel) == Some(lv));
            let mut i: usize = 0;
            while i < v.len()
                invariant
                    i <= v@.len(),
                    lv == crate::text::lines_view(v@),
                    sel_view(sel) == Some(lv),
                    forall|j: int| 0 <= j < i ==> lv[j] != name@,
                decreases v@.len() - i,
            {
                if bytes_eq(v[i].as_slice(), name) {
                    proof {
                        assert(lv[i as int] == v@[i as int]@);
                        assert(lv[i as int] == name@);
                        assert(lv.contains(name@));
                        assert(sel_view(sel) == Some(lv));
                    }
                    return true;
                }
                proof { assert(lv[i as int] == v@[i as int]@); }
                i = i + 1;
            }
            proof {
                assert(!lv.contains(name@));
                assert(sel_view(sel) == Some(lv));
            }
            false
        },
    }
}

fn kept_row_exec(r: &Row) -> (x: Row)
    ensures
        x@ == kept_row(r@),
{
    let dash_arr: [u8; 1] = [45u8];
    let dash_s: &[u8] = &dash_arr;
    assert(dash_s@ == dash());
    let ass: &[u8] = if bytes_eq(r.assigned.as_slice(), dash_s) { r.current.as_slice() } else { r.assigned.as_slice() };
    let x = Row {
        name: copy_bytes(&r.name),
        origin: slice_to_vec_bytes(&[78u8, 111, 32, 67, 104, 103]),
        current: copy_bytes(&r.current),
        assigned: slice_to_vec_bytes(ass),
        new_name: copy_bytes(&r.new_name),
    };
    proof { assert(x@.origin =~= no_change()); }
    x
}

proof fn lemma_rows_view_push(v: Seq<Row>, x: Row)
    ensures
        rows_view(v.push(x)) == rows_view(v).push(x@),
{
    assert(rows_view(v.push(x)) =~= rows_view(v).push(x@));
}

/// Appending one answer keeps what the rows before it gave.
proof fn lemma_extend(rv: Seq<RowView>, sv: Option<Seq<Seq<u8>>>, s: UpdateSettings, ans: Seq<(bool, bool)>, a: (bool, bool), i: int)
    requires
        ans.len() == i,
        forall|j: int| 0 <= j < i ==> !aborts_at(rv, sv, s, ans, j),
    ensures
        update_prefix(rv, sv, s, ans.push(a), i) == update_prefix(rv, sv, s, ans, i),
        forall|j: int| 0 <= j < i ==> !aborts_at(rv, sv, s, ans.push(a), j),
        ans.push(a)[i] == a,
{
    lemma_prefix_agree(rv, sv, s, ans, ans.push(a), i);
    assert forall|j: int| 0 <= j < i implies !aborts_at(rv, sv, s, ans.push(a), j) by {
        lemma_prefix_agree(rv, sv, s, ans, ans.push(a), j);
        assert(ans.push(a)[j] == ans[j]);
        assert(!aborts_at(rv, sv, s, ans, j));
    }
}

/// The answers so far, completed by the favourable ones.
proof fn lemma_fill(rv: Seq<RowView>, s: UpdateSettings, a: Seq<(bool, bool)>, favourable_answers: bool)
    requires
        a.len() <= rv.len(),
        forall|j: int| 0 <= j < a.len() ==> answers_possible(rv[j], s, #[trigger] a[j].0, a[j].1),
        favourable_answers ==> forall|j: int| 0 <= j < a.len() ==> #[trigger] a[j] == favourable_all(rv, s)[j],
    ensures
        ({
            let full = a + favourable_all(rv, s).skip(a.len() as int);
            &&& answers_all_possible(rv, s, full)
            &&& favourable_answers ==> full == favourable_all(rv, s)
            &&& forall|j: int| 0 <= j < a.len() ==> #[trigger] full[j] == a[j]
        }),
{
    let fav = favourable_all(rv, s);
    let full = a + fav.skip(a.len() as int);
    assert forall|j: int| 0 <= j < rv.len() implies answers_possible(rv[j], s, #[trigger] full[j].0, full[j].1) by {
        if j >= a.len() {
            assert(full[j] == fav[j]);
        } else {
            assert(full[j] == a[j]);
        }
    }
    if favourable_answers {
        assert forall|j: int| 0 <= j < rv.len() implies full[j] == fav[j] by {
            if j < a.len() {
                assert(full[j] == a[j]);
            }
        }
        assert(full =~= fav);
    }
}

/// A stop at row `i` is where the update ends, and no row aborts.
proof fn lemma_stop(rv: Seq<RowView>, sv: Option<Seq<Seq<u8>>>, s: UpdateSettings, a2: Seq<(bool, bool)>, full: Seq<(bool, bool)>, i: int, done: Seq<RowView>, e: RowError)
    requires
        0 <= i < rv.len(),
        a2.len() == i + 1,
        full.len() == rv.len(),
        forall|j: int| 0 <= j <= i ==> #[trigger] full[j] == a2[j],
        update_prefix(rv, sv, s, a2, i + 1) == (done, Some((i, e))),
        forall|j: int| 0 <= j < i ==> !aborts_at(rv, sv, s, a2, j),
        !row_stops(rv[i], sv, s, a2[i]),
    ensures
        update_prefix(rv, sv, s, full, rv.len() as int) == (done, Some((i, e))),
        forall|j: int| !aborts_at(rv, sv, s, full, j),
{
    lemma_prefix_agree(rv, sv, s, a2, full, i + 1);
    lemma_prefix_stopped(rv, sv, s, full, i + 1, rv.len() as int);
    assert forall|j: int| !aborts_at(rv, sv, s, full, j) by {
        if 0 <= j <= i {
            lemma_prefix_agree(rv, sv, s, a2, full, j);
            assert(full[j] == a2[j]);
            if j < i {
                assert(!aborts_at(rv, sv, s, a2, j));
            }
        } else if j > i && j < rv.len() {
            lemma_prefix_stopped(rv, sv, s, full, i + 1, j);
        }
    }
}

/// Goes through the rows; returns the outcome and the row at which the
/// tool would abort, if it does.
fn run_update(rows: &Vec<Row>, sel: Option<&Vec<Vec<u8>>>, s: &UpdateSettings, favourable_answers: bool)
    -> (res: (UpdateOutcome, Option<usize>, Ghost<Seq<(bool, bool)>>))
    requires
        forall|i: int| 0 <= i < rows@.len() ==> row_ok(#[trigger] rows@[i]@),
    ensures
        ({
            let rv = rows_view(rows@);
            let ans = res.2@;
            &&& answers_all_possible(rv, *s, ans)
            &&& favourable_answers ==> ans == favourable_all(rv, *s)
            &&& match res.1 {
                Some(i) => aborts_at(rv, sel_view(sel), *s, ans, i as int),
                None => (forall|i: int| !aborts_at(rv, sel_view(sel), *s, ans, i))
                    && outcome_view(&res.0) == update_prefix(rv, sel_view(sel), *s, ans, rv.len() as int),
            }
        }),
{
    let ghost rv = rows_view(rows@);
    let ghost sv = sel_view(sel);
    let ghost fav = favourable_all(rv, *s);
    let ghost mut ans: Seq<(bool, bool)> = Seq::empty();
    let mut out: Vec<Row> = Vec::new();
    let mut i: usize = 0;
    while i < rows.len()
        invariant
            i <= rows@.len(),
            rv == rows_view(rows@),
            sv == sel_view(sel),
            fav == favourable_all(rv, *s),
            forall|j: int| 0 <= j < rows@.len() ==> row_ok(#[trigger] rows@[j]@),
            ans.len() == i,
            forall|j: int| 0 <= j < i ==> answers_possible(rv[j], *s, #[trigger] ans[j].0, ans[j].1),
            favourable_answers ==> forall|j: int| 0 <= j < i ==> #[trigger] ans[j] == fav[j],
            update_prefix(rv, sv, *s, ans, i as int) == (rows_view(out@), None::<(int, RowError)>),
            forall|j: int| 0 <= j < i ==> !aborts_at(rv, sv, *s, ans, j),
        decreases rows@.len() - i,
    {
        assert(rv[i as int] == rows@[i as int]@);
        let ghost done = rows_view(out@);
        if !selected_exec(rows[i].name.as_slice(), sel) {
            let x = kept_row_exec(&rows[i]);
            proof {
                assert(row_result(rv[i as int], sv, *s, fav[i as int]) == Ok::<RowView, RowError>(kept_row(rv[i as int]))
                    && !row_stops(rv[i as int], sv, *s, fav[i as int])) by {
                    reveal(row_result);
                    reveal(row_stops);
                }
                lemma_extend(rv, sv, *s, ans, fav[i as int], i as int);
                lemma_rows_view_push(out@, x);
                ans = ans.push(fav[i as int]);
            }
            out.push(x);
        } else {
            let (step, a) = update_row_exec(&rows[i], s, favourable_answers, None);
            proof {
                lemma_extend(rv, sv, *s, ans, a@, i as int);
                assert(row_result(rv[i as int], sv, *s, a@) == updated_row(rv[i as int], *s, a@.0, a@.1)
                    && row_stops(rv[i as int], sv, *s, a@) == row_aborts(rv[i as int], *s, a@.0)) by {
                    reveal(row_result);
                    reveal(row_stops);
                }
            }
            let ghost a2 = ans.push(a@);
            match step {
                RowOutcome::Aborts => {
                    proof {
                        lemma_fill(rv, *s, a2, favourable_answers);
                        let full = a2 + fav.skip(i + 1);
                        lemma_prefix_agree(rv, sv, *s, a2, full, i as int);
                        assert(full[i as int] == a2[i as int]);
                        ans = full;
                    }
                    return (UpdateOutcome { rows: out, stopped: None }, Some(i), Ghost(ans));
                },
                RowOutcome::Failed(e) => {
                    proof {
                        lemma_fill(rv, *s, a2, favourable_answers);
                        let full = a2 + fav.skip(i + 1);
                        lemma_stop(rv, sv, *s, a2, full, i as int, done, e);
                        ans = full;
                    }
                    return (UpdateOutcome { rows: out, stopped: Some((i, e)) }, None, Ghost(ans));
                },
                RowOutcome::Updated(x) => {
                    proof {
                        lemma_rows_view_push(out@, x);
                        ans = a2;
                    }
                    out.push(x);
                },
            }
        }
        i = i + 1;
    }
    proof {
        lemma_fill(rv, *s, ans, favourable_answers);
        assert(ans + fav.skip(ans.len() as int) =~= ans);
    }
    (UpdateOutcome { rows: out, stopped: None }, None, Ghost(ans))
}

/// Whether some time zone could make the tool abort on these rows (a
/// name whose base cannot be cut to the length asked for).
pub fn update_may_abort_exec(rows: &Vec<Row>, sel: Option<&Vec<Vec<u8>>>, s: &UpdateSettings) -> (r: bool)
    requires
        forall|i: int| 0 <= i < rows@.len() ==> row_ok(#[trigger] rows@[i]@),
    ensures
        r == update_may_abort(rows_view(rows@), sel_view(sel), *s),
{
    let (_, abort, _) = run_update(rows, sel, s, true);
    abort.is_some()
}

/// Updates the rows (`sel` `None`: all of them; otherwise those whose name is
/// in `sel`, the others kept).  The outcome is the update for chrono's answers
/// on the dates read; when it goes through, it is the one for the most
/// favourable answers.
pub fn update_rows(rows: &Vec<Row>, sel: Option<&Vec<Vec<u8>>>, s: &UpdateSettings) -> (o: UpdateOutcome)
    requires
        forall|i: int| 0 <= i < rows@.len() ==> row_ok(#[trigger] rows@[i]@),
        !update_may_abort(rows_view(rows@), sel_view(sel), *s),
    ensures
        exists|ans: Seq<(bool, bool)>| answers_all_possible(rows_view(rows@), *s, ans)
            && (forall|i: int| !aborts_at(rows_view(rows@), sel_view(sel), *s, ans, i))
            && outcome_view(&o) == update_prefix(rows_view(rows@), sel_view(sel), *s, ans, rows@.len() as int),
        o.stopped is None ==> outcome_view(&o) == update_prefix(rows_view(rows@), sel_view(sel), *s, favourable_all(rows_view(rows@), *s), rows@.len() as int),
{
    let (o, abort, ans) = run_update(rows, sel, s, false);
    proof {
        let rv = rows_view(rows@);
        if abort is Some {
            let i = abort->Some_0 as int;
            lemma_prefix_favourable(rv, sel_view(sel), *s, ans@, i);
            lemma_row_result_favourable(rv[i], sel_view(sel), *s, ans@[i]);
            assert(aborts_at(rv, sel_view(sel), *s, favourable_all(rv, *s), i));
            assert(false);
        }
        if o.stopped is None {
            lemma_prefix_favourable(rv, sel_view(sel), *s, ans@, rv.len() as int);
        }
    }
    o
}


/// Updates the rows as the tool does, chrono answering on each date read:
/// `None` when the tool aborts on a row (a name whose base cannot be cut to
/// the length asked for) before any row stops the update.  That can only
/// happen where [`update_may_abort_exec`] says it may; otherwise the outcome
/// is that of [`update_rows`].  One run asks chrono once per date.
pub fn update_rows_checked(rows: &Vec<Row>, sel: Option<&Vec<Vec<u8>>>, s: &UpdateSettings) -> (o: Option<UpdateOutcome>)
    requires
        forall|i: int| 0 <= i < rows@.len() ==> row_ok(#[trigger] rows@[i]@),
    ensures
        exists|ans: Seq<(bool, bool)>| answers_all_possible(rows_view(rows@), *s, ans)
            && match o {
                None => exists|i: int| aborts_at(rows_view(rows@), sel_view(sel), *s, ans, i),
                Some(u) => (forall|i: int| !aborts_at(rows_view(rows@), sel_view(sel), *s, ans, i))
                    && outcome_view(&u) == update_prefix(rows_view(rows@), sel_view(sel), *s, ans, rows@.len() as int),
            },
        o is None ==> update_may_abort(rows_view(rows@), sel_view(sel), *s),
        o matches Some(u) ==> (u.stopped is None ==> outcome_view(&u) == update_prefix(rows_view(rows@), sel_view(sel), *s,
            favourable_all(rows_view(rows@), *s), rows@.len() as int)),
{
    if !update_may_abort_exec(rows, sel, s) {
        return Some(update_rows(rows, sel, s));
    }
    let (o, abort, ans) = run_update(rows, sel, s, false);
    let ghost rv = rows_view(rows@);
    match abort {
        Some(k) => {
            proof {
                let i = k as int;
                assert(aborts_at(rv, sel_view(sel), *s, ans@, i));
                lemma_prefix_favourable(rv, sel_view(sel), *s, ans@, i);
                lemma_row_result_favourable(rv[i], sel_view(sel), *s, ans@[i]);
                assert(aborts_at(rv, sel_view(sel), *s, favourable_all(rv, *s), i));
            }
            None
        },
        None => {
            proof {
                if o.stopped is None {
                    lemma_prefix_favourable(rv, sel_view(sel), *s, ans@, rv.len() as int);
                }
            }
            Some(o)
        },
    }
}

} // verus!
