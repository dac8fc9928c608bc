//! Comparison of a hard drive list with a disc catalogue list.
//!
//! Both lists are files of [`crate::records`] lines sorted by key and size.
//! The hard drive list is walked once; each of its files is written to the
//! "same" list when the catalogue holds a record with the same key and size,
//! to the "different" list when the catalogue holds the key with another
//! size, and to the "not found" list otherwise.

use vstd::prelude::*;
use crate::records::{
    build_result_line, can_get, get_ok, head_readable, head_size, read_record_tail, read_tail,
    result_line, RecordFault, TailRead,
};
use crate::text::{lines_view, bytes_eq, bytes_lt, lemma_lex_equal, lex_lt, parse_i64_or, parse_int, slice_to_vec_bytes};

verus! {

/// The lines of a list file as `read_line` returned them (line breaks
/// included), and whether reading stopped on an error rather than at the end.
#[derive(Debug)]
pub struct LineSource {
    pub lines: Vec<Vec<u8>>,
    pub read_error: bool,
}

impl LineSource {
    pub open spec fn view_lines(&self) -> Seq<Seq<u8>> {
        lines_view(self.lines@)
    }
}

/// Which of the two list files.
#[derive(Clone, Copy, PartialEq, Eq, Debug, Structural)]
pub enum Side {
    Hd,
    Cd,
}

/// Why an evaluation stopped.
#[derive(Clone, Copy, PartialEq, Eq, Debug, Structural)]
pub enum EvalError {
    /// The file has no line at all.
    Empty(Side),
    /// Reading the first line failed.
    FirstRead(Side),
    /// The first record is malformed.
    FirstRecord(Side, RecordFault),
    /// Reading a later line failed.
    Read(Side),
    /// A later record is malformed.
    Record(Side, RecordFault),
    /// A key is smaller than the one before it (or, in the hard drive list,
    /// equal with a smaller size).
    NotSorted(Side),
    /// A catalogue key equal to the one before it with a smaller size.
    CdSameKeySmaller,
}

/// One read from a list file.
pub enum Read {
    Line(Seq<u8>),
    Eof,
    Error,
}

pub open spec fn read_at(lines: Seq<Seq<u8>>, err: bool, i: int) -> Read {
    if 0 <= i < lines.len() {
        Read::Line(lines[i])
    } else if err {
        Read::Error
    } else {
        Read::Eof
    }
}

/// State of the merge between two reads.
pub struct MergeState {
    pub hd_pos: nat,
    pub cd_pos: nat,
    pub hd_key: Seq<u8>,
    pub hd_len: int,
    pub hd_dir: Seq<u8>,
    pub hd_name: Seq<u8>,
    pub hd_date: Seq<u8>,
    pub cd_key: Seq<u8>,
    pub cd_len: int,
    pub cd_done: bool,
    pub matched: bool,
    pub same: Seq<Seq<u8>>,
    pub diff: Seq<Seq<u8>>,
    pub not_found: Seq<Seq<u8>>,
}

pub enum Step {
    Next(MergeState),
    Done(MergeState, Option<EvalError>),
    Abort,
}

pub open spec fn hd_line(st: MergeState) -> Seq<u8> {
    result_line(st.hd_dir, st.hd_name, st.hd_len as nat, st.hd_date)
}

/// Reads the next hard drive record into the state; `first` is the first
/// line of the hard drive list, from which the file-name length is taken
/// when `len_from_first` holds.
pub open spec fn hd_advance(st: MergeState, r: Read, first: Seq<u8>, len_from_first: bool) -> Step {
    match r {
        Read::Eof => Step::Done(st, None),
        Read::Error => Step::Done(st, Some(EvalError::Read(Side::Hd))),
        Read::Line(l) => {
            if l.len() < 540 {
                Step::Done(st, Some(EvalError::Record(Side::Hd, RecordFault::TooSmall)))
            } else if !head_readable(l) {
                Step::Abort
            } else if head_size(l) < 0 {
                Step::Done(st, Some(EvalError::Record(Side::Hd, RecordFault::InvalidSize)))
            } else if lex_lt(l.subrange(0, 512), st.hd_key) || (l.subrange(0, 512) == st.hd_key
                && head_size(l) < st.hd_len) {
                Step::Done(st, Some(EvalError::NotSorted(Side::Hd)))
            } else {
                let st2 = MergeState {
                    hd_pos: st.hd_pos + 1,
                    hd_key: l.subrange(0, 512),
                    hd_len: head_size(l),
                    ..st
                };
                match read_tail(l, if len_from_first { first } else { l }) {
                    TailRead::Fields { dir, name, date } => Step::Next(
                        MergeState { hd_dir: dir, hd_name: name, hd_date: date, ..st2 },
                    ),
                    TailRead::Fault(f) => Step::Done(st2, Some(EvalError::Record(Side::Hd, f))),
                    TailRead::Abort => Step::Abort,
                }
            }
        },
    }
}

/// Reads the next catalogue record into the state.
pub open spec fn cd_advance(st: MergeState, r: Read) -> Step {
    match r {
        Read::Eof => Step::Next(MergeState { cd_done: true, ..st }),
        Read::Error => Step::Done(st, Some(EvalError::Read(Side::Cd))),
        Read::Line(l) => {
            if l.len() < 540 {
                Step::Done(st, Some(EvalError::Record(Side::Cd, RecordFault::TooSmall)))
            } else if !head_readable(l) {
                Step::Abort
            } else if head_size(l) < 0 {
                Step::Done(st, Some(EvalError::Record(Side::Cd, RecordFault::InvalidSize)))
            } else if lex_lt(l.subrange(0, 512), st.cd_key) {
                Step::Done(st, Some(EvalError::NotSorted(Side::Cd)))
            } else if l.subrange(0, 512) == st.cd_key && head_size(l) < st.cd_len {
                Step::Done(st, Some(EvalError::CdSameKeySmaller))
            } else {
                Step::Next(
                    MergeState {
                        cd_pos: st.cd_pos + 1,
                        cd_key: l.subrange(0, 512),
                        cd_len: head_size(l),
                        ..st
                    },
                )
            }
        },
    }
}

/// One turn of the merge loop.
pub open spec fn merge_step(st: MergeState, hd: Seq<Seq<u8>>, hd_err: bool, cd: Seq<Seq<u8>>, cd_err: bool, first: Seq<u8>) -> Step {
    let out = hd_line(st);
    if lex_lt(st.hd_key, st.cd_key) || st.cd_done {
        let st1 = if st.matched {
            MergeState { diff: st.diff.push(out), matched: false, ..st }
        } else {
            MergeState { not_found: st.not_found.push(out), ..st }
        };
        hd_advance(st1, read_at(hd, hd_err, st.hd_pos as int), first, false)
    } else if lex_lt(st.cd_key, st.hd_key) {
        cd_advance(st, read_at(cd, cd_err, st.cd_pos as int))
    } else if st.hd_len < st.cd_len {
        let st1 = MergeState { diff: st.diff.push(out), matched: false, ..st };
        hd_advance(st1, read_at(hd, hd_err, st.hd_pos as int), first, true)
    } else if st.hd_len > st.cd_len {
        cd_advance(MergeState { matched: true, ..st }, read_at(cd, cd_err, st.cd_pos as int))
    } else {
        let st1 = MergeState { same: st.same.push(out), matched: false, ..st };
        hd_advance(st1, read_at(hd, hd_err, st.hd_pos as int), first, false)
    }
}

/// What an evaluation produces.
pub struct EvalResult {
    pub same: Seq<Seq<u8>>,
    pub diff: Seq<Seq<u8>>,
    pub not_found: Seq<Seq<u8>>,
    /// Whether the three output lists were created at all.
    pub created: bool,
    pub error: Option<EvalError>,
    /// Whether the tool would have aborted (a field of a record
    /// reaching past its end or splitting a UTF-8 character).
    pub aborted: bool,
}

pub open spec fn measure(st: MergeState, hd: Seq<Seq<u8>>, cd: Seq<Seq<u8>>) -> int {
    2 * ((hd.len() - st.hd_pos) + (cd.len() - st.cd_pos)) + (if st.cd_done { 0int } else { 1int })
}

pub open spec fn state_ok(st: MergeState, hd: Seq<Seq<u8>>, cd: Seq<Seq<u8>>) -> bool {
    st.hd_pos <= hd.len() && st.cd_pos <= cd.len() && st.hd_len >= 0
}

pub open spec fn finished(st: MergeState, error: Option<EvalError>) -> EvalResult {
    EvalResult {
        same: st.same,
        diff: st.diff,
        not_found: st.not_found,
        created: true,
        error: error,
        aborted: false,
    }
}

pub open spec fn aborted_result() -> EvalResult {
    EvalResult {
        same: Seq::empty(),
        diff: Seq::empty(),
        not_found: Seq::empty(),
        created: false,
        error: None,
        aborted: true,
    }
}

/// The merge loop run to its end from `st`.
pub open spec fn merge_run(st: MergeState, hd: Seq<Seq<u8>>, hd_err: bool, cd: Seq<Seq<u8>>, cd_err: bool, first: Seq<u8>) -> EvalResult
    decreases measure(st, hd, cd),
{
    if !state_ok(st, hd, cd) {
        aborted_result()
    } else {
        match merge_step(st, hd, hd_err, cd, cd_err, first) {
            Step::Next(s2) => if state_ok(s2, hd, cd) && measure(s2, hd, cd) < measure(st, hd, cd) {
                merge_run(s2, hd, hd_err, cd, cd_err, first)
            } else {
                aborted_result()
            },
            Step::Done(s2, e) => finished(s2, e),
            Step::Abort => aborted_result(),
        }
    }
}

pub open spec fn not_created(e: EvalError) -> EvalResult {
    EvalResult {
        same: Seq::empty(),
        diff: Seq::empty(),
        not_found: Seq::empty(),
        created: false,
        error: Some(e),
        aborted: false,
    }
}

/// The whole evaluation: the first record of each list, then the merge.
pub open spec fn evaluate_spec(hd: Seq<Seq<u8>>, hd_err: bool, cd: Seq<Seq<u8>>, cd_err: bool) -> EvalResult {
    match read_at(hd, hd_err, 0) {
        Read::Eof => not_created(EvalError::Empty(Side::Hd)),
        Read::Error => not_created(EvalError::FirstRead(Side::Hd)),
        Read::Line(h) => {
            if h.len() < 540 {
                not_created(EvalError::FirstRecord(Side::Hd, RecordFault::TooSmall))
            } else if !head_readable(h) {
                aborted_result()
            } else if head_size(h) < 0 {
                not_created(EvalError::FirstRecord(Side::Hd, RecordFault::InvalidSize))
            } else {
                match read_tail(h, h) {
                    TailRead::Abort => aborted_result(),
                    TailRead::Fault(f) => not_created(EvalError::FirstRecord(Side::Hd, f)),
                    TailRead::Fields { dir, name, date } => match read_at(cd, cd_err, 0) {
                        Read::Eof => not_created(EvalError::Empty(Side::Cd)),
                        Read::Error => not_created(EvalError::FirstRead(Side::Cd)),
                        Read::Line(c) => {
                            if c.len() < 540 {
                                not_created(EvalError::FirstRecord(Side::Cd, RecordFault::TooSmall))
                            } else if !head_readable(c) {
                                aborted_result()
                            } else if head_size(c) < 0 {
                                not_created(EvalError::FirstRecord(Side::Cd, RecordFault::InvalidSize))
                            } else {
                                merge_run(
                                    MergeState {
                                        hd_pos: 1,
                                        cd_pos: 1,
                                        hd_key: h.subrange(0, 512),
                                        hd_len: head_size(h),
                                        hd_dir: dir,
                                        hd_name: name,
                                        hd_date: date,
                                        cd_key: c.subrange(0, 512),
                                        cd_len: head_size(c),
                                        cd_done: false,
                                        matched: false,
                                        same: Seq::empty(),
                                        diff: Seq::empty(),
                                        not_found: Seq::empty(),
                                    },
                                    hd,
                                    hd_err,
                                    cd,
                                    cd_err,
                                    h,
                                )
                            }
                        },
                    },
                }
            }
        },
    }
}


// ---------------------------------------------------------------- laws

pub open spec fn written(st: MergeState) -> int {
    (st.same.len() + st.diff.len() + st.not_found.len()) as int
}

pub open spec fn key_of(l: Seq<u8>) -> Seq<u8> {
    l.subrange(0, 512)
}

pub open spec fn keys_sorted_upto(hd: Seq<Seq<u8>>, n: int) -> bool {
    forall|i: int| 1 <= i < n ==> !lex_lt(key_of(#[trigger] hd[i]), key_of(hd[i - 1]))
}

proof fn lemma_run_laws(st: MergeState, hd: Seq<Seq<u8>>, hd_err: bool, cd: Seq<Seq<u8>>, cd_err: bool, first: Seq<u8>)
    requires
        state_ok(st, hd, cd),
        st.hd_pos >= 1,
        written(st) == st.hd_pos - 1,
        st.hd_key == key_of(hd[st.hd_pos - 1]),
        keys_sorted_upto(hd, st.hd_pos as int),
    ensures
        ({
            let r = merge_run(st, hd, hd_err, cd, cd_err, first);
            (!r.aborted && r.error is None) ==> (
                r.same.len() + r.diff.len() + r.not_found.len() == hd.len()
                && keys_sorted_upto(hd, hd.len() as int))
        }),
    decreases measure(st, hd, cd),
{
    match merge_step(st, hd, hd_err, cd, cd_err, first) {
        Step::Next(s2) => {
            lemma_step_progress(st, hd, hd_err, cd, cd_err, first);
            if s2.hd_pos != st.hd_pos {
                assert(s2.hd_key == key_of(hd[st.hd_pos as int]));
                assert(keys_sorted_upto(hd, s2.hd_pos as int)) by {
                    assert forall|i: int| 1 <= i < s2.hd_pos implies !lex_lt(key_of(#[trigger] hd[i]), key_of(hd[i - 1])) by {
                        if i == st.hd_pos {
                        }
                    }
                }
            }
            lemma_run_laws(s2, hd, hd_err, cd, cd_err, first);
        },
        Step::Done(s2, e) => {
        },
        Step::Abort => {
        },
    }
}

/// Every file of a hard drive list that was gone through to its end has been
/// written to exactly one of the three result lists.
pub proof fn law_each_hd_file_listed_once(hd: Seq<Seq<u8>>, hd_err: bool, cd: Seq<Seq<u8>>, cd_err: bool)
    ensures
        ({
            let r = evaluate_spec(hd, hd_err, cd, cd_err);
            (!r.aborted && r.error is None) ==> r.same.len() + r.diff.len() + r.not_found.len() == hd.len()
        }),
{
    lemma_evaluate_laws(hd, hd_err, cd, cd_err);
}

/// An evaluation only completes on a hard drive list whose keys never go
/// down from one record to the next.
pub proof fn law_completed_hd_list_sorted(hd: Seq<Seq<u8>>, hd_err: bool, cd: Seq<Seq<u8>>, cd_err: bool)
    ensures
        ({
            let r = evaluate_spec(hd, hd_err, cd, cd_err);
            (!r.aborted && r.error is None) ==> keys_sorted_upto(hd, hd.len() as int)
        }),
{
    lemma_evaluate_laws(hd, hd_err, cd, cd_err);
}

proof fn lemma_evaluate_laws(hd: Seq<Seq<u8>>, hd_err: bool, cd: Seq<Seq<u8>>, cd_err: bool)
    ensures
        ({
            let r = evaluate_spec(hd, hd_err, cd, cd_err);
            (!r.aborted && r.error is None) ==> (
                r.same.len() + r.diff.len() + r.not_found.len() == hd.len()
                && keys_sorted_upto(hd, hd.len() as int))
        }),
{
    if hd.len() > 0 && cd.len() > 0 {
        let h = hd[0];
        let c = cd[0];
        if h.len() >= 540 && head_readable(h) && head_size(h) >= 0 && c.len() >= 540 && head_readable(c) && head_size(c) >= 0 {
            match read_tail(h, h) {
                TailRead::Fields { dir, name, date } => {
                    let st = MergeState {
                        hd_pos: 1,
                        cd_pos: 1,
                        hd_key: h.subrange(0, 512),
                        hd_len: head_size(h),
                        hd_dir: dir,
                        hd_name: name,
                        hd_date: date,
                        cd_key: c.subrange(0, 512),
                        cd_len: head_size(c),
                        cd_done: false,
                        matched: false,
                        same: Seq::empty(),
                        diff: Seq::empty(),
                        not_found: Seq::empty(),
                    };
                    lemma_run_laws(st, hd, hd_err, cd, cd_err, h);
                },
                _ => {},
            }
        }
    }
}

/// The record at the current positions is the one last read from each list.
pub open spec fn at_records(st: MergeState, hd: Seq<Seq<u8>>, cd: Seq<Seq<u8>>) -> bool {
    &&& 1 <= st.hd_pos <= hd.len()
    &&& 1 <= st.cd_pos <= cd.len()
    &&& st.hd_key == key_of(hd[st.hd_pos - 1])
    &&& st.hd_len == head_size(hd[st.hd_pos - 1])
    &&& st.cd_key == key_of(cd[st.cd_pos - 1])
    &&& st.cd_len == head_size(cd[st.cd_pos - 1])
}

/// A hard drive record and a catalogue record with the same key and size.
pub open spec fn same_file(hd: Seq<Seq<u8>>, cd: Seq<Seq<u8>>, p: (int, int)) -> bool {
    &&& 0 <= p.0 < hd.len()
    &&& 0 <= p.1 < cd.len()
    &&& key_of(hd[p.0]) == key_of(cd[p.1])
    &&& head_size(hd[p.0]) == head_size(cd[p.1])
}

/// Each pair is a hard drive record and a catalogue record of the same file,
/// the hard drive record not before `lo`.
pub open spec fn pairs_ok(hd: Seq<Seq<u8>>, cd: Seq<Seq<u8>>, p: Seq<(int, int)>, lo: int) -> bool {
    forall|k: int| 0 <= k < p.len() ==> #[trigger] same_file(hd, cd, p[k]) && p[k].0 >= lo
}

/// The hard drive records of the pairs follow each other in the list.
pub open spec fn pairs_increasing(p: Seq<(int, int)>) -> bool {
    forall|k: int| 0 < k < p.len() ==> #[trigger] p[k].0 > p[k - 1].0
}

/// The turn writes the current hard drive record to the list of the same files.
pub open spec fn writes_same(st: MergeState) -> bool {
    !(lex_lt(st.hd_key, st.cd_key) || st.cd_done) && !lex_lt(st.cd_key, st.hd_key) && st.hd_len == st.cd_len
}

/// The records behind the lines the merge writes to the list of the same
/// files: (hard drive record, catalogue record), one pair per line.
pub open spec fn same_pairs(st: MergeState, hd: Seq<Seq<u8>>, hd_err: bool, cd: Seq<Seq<u8>>, cd_err: bool, first: Seq<u8>) -> Seq<(int, int)>
    decreases measure(st, hd, cd),
{
    let here: Seq<(int, int)> = if writes_same(st) { seq![(st.hd_pos - 1, st.cd_pos - 1)] } else { Seq::empty() };
    if !state_ok(st, hd, cd) {
        Seq::empty()
    } else {
        match merge_step(st, hd, hd_err, cd, cd_err, first) {
            Step::Next(s2) => if state_ok(s2, hd, cd) && measure(s2, hd, cd) < measure(st, hd, cd) {
                here + same_pairs(s2, hd, hd_err, cd, cd_err, first)
            } else {
                Seq::empty()
            },
            Step::Done(_, _) => here,
            Step::Abort => Seq::empty(),
        }
    }
}

/// One turn of the merge reads the next record of one list, or of none.
proof fn lemma_step_records(st: MergeState, hd: Seq<Seq<u8>>, hd_err: bool, cd: Seq<Seq<u8>>, cd_err: bool, first: Seq<u8>)
    requires
        state_ok(st, hd, cd),
        at_records(st, hd, cd),
    ensures
        match merge_step(st, hd, hd_err, cd, cd_err, first) {
            Step::Next(s2) => at_records(s2, hd, cd) && s2.hd_pos >= st.hd_pos
                && s2.same.len() == st.same.len() + (if writes_same(st) { 1int } else { 0int })
                && (writes_same(st) ==> s2.hd_pos == st.hd_pos + 1),
            Step::Done(s2, _) => s2.same.len() == st.same.len() + (if writes_same(st) { 1int } else { 0int }),
            Step::Abort => true,
        },
{
    let out = hd_line(st);
    if lex_lt(st.hd_key, st.cd_key) || st.cd_done {
        let st1 = if st.matched {
            MergeState { diff: st.diff.push(out), matched: false, ..st }
        } else {
            MergeState { not_found: st.not_found.push(out), ..st }
        };
        assert(merge_step(st, hd, hd_err, cd, cd_err, first) == hd_advance(st1, read_at(hd, hd_err, st.hd_pos as int), first, false));
    } else if lex_lt(st.cd_key, st.hd_key) {
    } else if st.hd_len < st.cd_len {
        let st1 = MergeState { diff: st.diff.push(out), matched: false, ..st };
        assert(merge_step(st, hd, hd_err, cd, cd_err, first) == hd_advance(st1, read_at(hd, hd_err, st.hd_pos as int), first, true));
    } else if st.hd_len > st.cd_len {
    } else {
        let st1 = MergeState { same: st.same.push(out), matched: false, ..st };
        assert(merge_step(st, hd, hd_err, cd, cd_err, first) == hd_advance(st1, read_at(hd, hd_err, st.hd_pos as int), first, false));
    }
}

proof fn lemma_same_pairs(st: MergeState, hd: Seq<Seq<u8>>, hd_err: bool, cd: Seq<Seq<u8>>, cd_err: bool, first: Seq<u8>)
    requires
        state_ok(st, hd, cd),
        at_records(st, hd, cd),
    ensures
        ({
            let r = merge_run(st, hd, hd_err, cd, cd_err, first);
            let p = same_pairs(st, hd, hd_err, cd, cd_err, first);
            &&& !r.aborted ==> r.same.len() == st.same.len() + p.len()
            &&& pairs_ok(hd, cd, p, st.hd_pos - 1)
            &&& pairs_increasing(p)
        }),
    decreases measure(st, hd, cd),
{
    let here: Seq<(int, int)> = if writes_same(st) { seq![(st.hd_pos - 1, st.cd_pos - 1)] } else { Seq::empty() };
    assert(forall|k: int| 0 <= k < here.len() ==> #[trigger] same_file(hd, cd, here[k]) && here[k].0 == st.hd_pos - 1) by {
        if writes_same(st) {
            lemma_lex_equal(st.hd_key, st.cd_key);
            assert(same_file(hd, cd, (st.hd_pos - 1, st.cd_pos - 1)));
        }
    }
    lemma_step_records(st, hd, hd_err, cd, cd_err, first);
    let step = merge_step(st, hd, hd_err, cd, cd_err, first);
    let p = same_pairs(st, hd, hd_err, cd, cd_err, first);
    if step is Next {
        let s2 = step->Next_0;
        lemma_step_progress(st, hd, hd_err, cd, cd_err, first);
        lemma_same_pairs(s2, hd, hd_err, cd, cd_err, first);
        let rest = same_pairs(s2, hd, hd_err, cd, cd_err, first);
        assert(p == here + rest);
        assert(pairs_ok(hd, cd, p, st.hd_pos - 1)) by {
            assert forall|k: int| 0 <= k < p.len() implies #[trigger] same_file(hd, cd, p[k]) && p[k].0 >= st.hd_pos - 1 by {
                if k >= here.len() {
                    assert(p[k] == rest[k - here.len()]);
                    assert(same_file(hd, cd, rest[k - here.len()]));
                } else {
                    assert(p[k] == here[k]);
                    assert(same_file(hd, cd, here[k]));
                }
            }
        }
        assert(pairs_increasing(p)) by {
            assert forall|k: int| 0 < k < p.len() implies #[trigger] p[k].0 > p[k - 1].0 by {
                if k >= here.len() + 1 {
                    assert(p[k] == rest[k - here.len()]);
                    assert(p[k - 1] == rest[k - 1 - here.len()]);
                    assert(rest[k - here.len()].0 > rest[k - here.len() - 1].0);
                } else if here.len() == 1 && k == 1 {
                    assert(p[0] == (st.hd_pos - 1, st.cd_pos - 1));
                    assert(p[1] == rest[0]);
                    assert(same_file(hd, cd, rest[0]));
                }
            }
        }
    } else if step is Done {
        assert(p == here);
        assert(pairs_ok(hd, cd, p, st.hd_pos - 1)) by {
            assert forall|k: int| 0 <= k < p.len() implies #[trigger] same_file(hd, cd, p[k]) && p[k].0 >= st.hd_pos - 1 by {
                assert(same_file(hd, cd, here[k]));
            }
        }
    }
}

proof fn lemma_no_pairs(hd: Seq<Seq<u8>>, cd: Seq<Seq<u8>>)
    ensures
        Seq::<(int, int)>::empty().len() == 0 && pairs_ok(hd, cd, Seq::<(int, int)>::empty(), 0)
            && pairs_increasing(Seq::<(int, int)>::empty()),
{
}

/// Every line an evaluation writes to the list of the same files stands for
/// a hard drive record that has, in the catalogue list, a record with its key
/// and its size; the lines follow the hard drive list, one record each.
pub proof fn law_same_files_are_in_the_catalogue(hd: Seq<Seq<u8>>, hd_err: bool, cd: Seq<Seq<u8>>, cd_err: bool)
    ensures
        ({
            let r = evaluate_spec(hd, hd_err, cd, cd_err);
            !r.aborted ==> exists|p: Seq<(int, int)>|
                p.len() == r.same.len() && #[trigger] pairs_ok(hd, cd, p, 0) && pairs_increasing(p)
        }),
{
    let r = evaluate_spec(hd, hd_err, cd, cd_err);
    if hd.len() > 0 && cd.len() > 0 {
        let h = hd[0];
        let c = cd[0];
        if h.len() >= 540 && head_readable(h) && head_size(h) >= 0 && c.len() >= 540 && head_readable(c) && head_size(c) >= 0 {
            match read_tail(h, h) {
                TailRead::Fields { dir, name, date } => {
                    let st = MergeState {
                        hd_pos: 1,
                        cd_pos: 1,
                        hd_key: h.subrange(0, 512),
                        hd_len: head_size(h),
                        hd_dir: dir,
                        hd_name: name,
                        hd_date: date,
                        cd_key: c.subrange(0, 512),
                        cd_len: head_size(c),
                        cd_done: false,
                        matched: false,
                        same: Seq::empty(),
                        diff: Seq::empty(),
                        not_found: Seq::empty(),
                    };
                    lemma_same_pairs(st, hd, hd_err, cd, cd_err, h);
                    let p = same_pairs(st, hd, hd_err, cd, cd_err, h);
                    if !r.aborted {
                        assert(p.len() == r.same.len() && pairs_ok(hd, cd, p, 0) && pairs_increasing(p));
                    }
                },
                _ => {
                    if !r.aborted {
                        lemma_no_pairs(hd, cd);
                    }
                },
            }
        } else if !r.aborted {
            lemma_no_pairs(hd, cd);
        }
    } else if !r.aborted {
        lemma_no_pairs(hd, cd);
    }
}

// ---------------------------------------------------------------- exec

struct Merge {
    hd_pos: usize,
    cd_pos: usize,
    hd_key: Vec<u8>,
    hd_len: i64,
    hd_dir: Vec<u8>,
    hd_name: Vec<u8>,
    hd_date: Vec<u8>,
    cd_key: Vec<u8>,
    cd_len: i64,
    cd_done: bool,
    matched: bool,
    same: Vec<Vec<u8>>,
    diff: Vec<Vec<u8>>,
    not_found: Vec<Vec<u8>>,
}

impl Merge {
    spec fn view(&self) -> MergeState {
        MergeState {
            hd_pos: self.hd_pos as nat,
            cd_pos: self.cd_pos as nat,
            hd_key: self.hd_key@,
            hd_len: self.hd_len as int,
            hd_dir: self.hd_dir@,
            hd_name: self.hd_name@,
            hd_date: self.hd_date@,
            cd_key: self.cd_key@,
            cd_len: self.cd_len as int,
            cd_done: self.cd_done,
            matched: self.matched,
            same: lines_view(self.same@),
            diff: lines_view(self.diff@),
            not_found: lines_view(self.not_found@),
        }
    }
}

enum Turn {
    Continue,
    Done(Option<EvalError>),
    Abort,
}

spec fn turn_matches(t: Turn, s: Step, after: MergeState) -> bool {
    match s {
        Step::Next(s2) => t is Continue && after == s2,
        Step::Done(s2, e) => t == Turn::Done(e) && after == s2,
        Step::Abort => t is Abort,
    }
}

proof fn lemma_push_view(v: Seq<Vec<u8>>, x: Vec<u8>)
    ensures
        lines_view(v.push(x)) == lines_view(v).push(x@),
{
    assert(lines_view(v.push(x)) =~= lines_view(v).push(x@));
}

/// `parse::<i64>().unwrap_or(-99)` on the size field.
fn size_field(l: &[u8]) -> (r: i64)
    requires
        l@.len() >= 528,
    ensures
        r == head_size(l@),
{
    match parse_int(&l[512..528], -9223372036854775808, 9223372036854775807) {
        Some(v) => v,
        None => -99,
    }
}

fn hd_advance_exec(st: &mut Merge, src: &LineSource, first: &[u8], len_from_first: bool) -> (t: Turn)
    requires
        old(st).hd_len >= 0,
    ensures
        turn_matches(t, hd_advance(old(st)@, read_at(src.view_lines(), src.read_error, old(st).hd_pos as int), first@, len_from_first), final(st)@),
        final(st).hd_len >= 0,
{
    let ghost r = read_at(src.view_lines(), src.read_error, st.hd_pos as int);
    if st.hd_pos >= src.lines.len() {
        if src.read_error {
            return Turn::Done(Some(EvalError::Read(Side::Hd)));
        } else {
            return Turn::Done(None);
        }
    }
    let l: &[u8] = src.lines[st.hd_pos].as_slice();
    assert(r == Read::Line(l@));
    if l.len() < 540 {
        return Turn::Done(Some(EvalError::Record(Side::Hd, RecordFault::TooSmall)));
    }
    if !(can_get(l, 0, 512) && can_get(l, 512, 528)) {
        return Turn::Abort;
    }
    let size = size_field(l);
    if size < 0 {
        return Turn::Done(Some(EvalError::Record(Side::Hd, RecordFault::InvalidSize)));
    }
    let key = &l[0..512];
    if bytes_lt(key, st.hd_key.as_slice()) || (bytes_eq(key, st.hd_key.as_slice()) && size < st.hd_len) {
        return Turn::Done(Some(EvalError::NotSorted(Side::Hd)));
    }
    st.hd_pos = st.hd_pos + 1;
    st.hd_key = slice_to_vec_bytes(key);
    st.hd_len = size;
    let src_line: &[u8] = if len_from_first { first } else { l };
    match read_record_tail(l, src_line) {
        Ok(Some((dir, name, date))) => {
            st.hd_dir = dir;
            st.hd_name = name;
            st.hd_date = date;
            Turn::Continue
        },
        Ok(None) => Turn::Abort,
        Err(f) => Turn::Done(Some(EvalError::Record(Side::Hd, f))),
    }
}

fn cd_advance_exec(st: &mut Merge, src: &LineSource) -> (t: Turn)
    ensures
        turn_matches(t, cd_advance(old(st)@, read_at(src.view_lines(), src.read_error, old(st).cd_pos as int)), final(st)@),
        final(st).hd_len == old(st).hd_len,
{
    let ghost r = read_at(src.view_lines(), src.read_error, st.cd_pos as int);
    if st.cd_pos >= src.lines.len() {
        if src.read_error {
            return Turn::Done(Some(EvalError::Read(Side::Cd)));
        } else {
            st.cd_done = true;
            return Turn::Continue;
        }
    }
    let l: &[u8] = src.lines[st.cd_pos].as_slice();
    assert(r == Read::Line(l@));
    if l.len() < 540 {
        return Turn::Done(Some(EvalError::Record(Side::Cd, RecordFault::TooSmall)));
    }
    if !(can_get(l, 0, 512) && can_get(l, 512, 528)) {
        return Turn::Abort;
    }
    let size = size_field(l);
    if size < 0 {
        return Turn::Done(Some(EvalError::Record(Side::Cd, RecordFault::InvalidSize)));
    }
    let key = &l[0..512];
    if bytes_lt(key, st.cd_key.as_slice()) {
        return Turn::Done(Some(EvalError::NotSorted(Side::Cd)));
    }
    if bytes_eq(key, st.cd_key.as_slice()) && size < st.cd_len {
        return Turn::Done(Some(EvalError::CdSameKeySmaller));
    }
    st.cd_pos = st.cd_pos + 1;
    st.cd_key = slice_to_vec_bytes(key);
    st.cd_len = size;
    Turn::Continue
}

fn merge_step_exec(st: &mut Merge, hd: &LineSource, cd: &LineSource, first: &[u8]) -> (t: Turn)
    requires
        old(st).hd_len >= 0,
    ensures
        turn_matches(t, merge_step(old(st)@, hd.view_lines(), hd.read_error, cd.view_lines(), cd.read_error, first@), final(st)@),
        final(st).hd_len >= 0,
{
    let out = build_result_line(st.hd_dir.as_slice(), st.hd_name.as_slice(), st.hd_len as u64, st.hd_date.as_slice());
    let hd_first = bytes_lt(st.hd_key.as_slice(), st.cd_key.as_slice());
    if hd_first || st.cd_done {
        if st.matched {
            proof { lemma_push_view(st.diff@, out); }
            st.diff.push(out);
            st.matched = false;
        } else {
            proof { lemma_push_view(st.not_found@, out); }
            st.not_found.push(out);
        }
        hd_advance_exec(st, hd, first, false)
    } else if bytes_lt(st.cd_key.as_slice(), st.hd_key.as_slice()) {
        cd_advance_exec(st, cd)
    } else if st.hd_len < st.cd_len {
        proof { lemma_push_view(st.diff@, out); }
        st.diff.push(out);
        st.matched = false;
        hd_advance_exec(st, hd, first, true)
    } else if st.hd_len > st.cd_len {
        st.matched = true;
        cd_advance_exec(st, cd)
    } else {
        proof { lemma_push_view(st.same@, out); }
        st.same.push(out);
        st.matched = false;
        hd_advance_exec(st, hd, first, false)
    }
}


proof fn lemma_step_progress(st: MergeState, hd: Seq<Seq<u8>>, hd_err: bool, cd: Seq<Seq<u8>>, cd_err: bool, first: Seq<u8>)
    requires
        state_ok(st, hd, cd),
        merge_step(st, hd, hd_err, cd, cd_err, first) is Next,
    ensures
        state_ok(merge_step(st, hd, hd_err, cd, cd_err, first)->Next_0, hd, cd),
        measure(merge_step(st, hd, hd_err, cd, cd_err, first)->Next_0, hd, cd) < measure(st, hd, cd),
        merge_run(st, hd, hd_err, cd, cd_err, first) == merge_run(merge_step(st, hd, hd_err, cd, cd_err, first)->Next_0, hd, hd_err, cd, cd_err, first),
{
}

/// The three lists an evaluation wrote, whether it created them, and why it
/// stopped early (`None`: the whole hard drive list was gone through).
#[derive(Debug)]
pub struct EvalOutcome {
    pub same: Vec<Vec<u8>>,
    pub diff: Vec<Vec<u8>>,
    pub not_found: Vec<Vec<u8>>,
    pub created: bool,
    pub error: Option<EvalError>,
}

pub open spec fn outcome_is(o: &EvalOutcome, r: EvalResult) -> bool {
    &&& lines_view(o.same@) == r.same
    &&& lines_view(o.diff@) == r.diff
    &&& lines_view(o.not_found@) == r.not_found
    &&& o.created == r.created
    &&& o.error == r.error
}

fn stopped_early(e: EvalError) -> (o: EvalOutcome)
    ensures
        outcome_is(&o, not_created(e)),
{
    let o = EvalOutcome { same: Vec::new(), diff: Vec::new(), not_found: Vec::new(), created: false, error: Some(e) };
    proof {
        assert(lines_view(o.same@) =~= Seq::<Seq<u8>>::empty());
        assert(lines_view(o.diff@) =~= Seq::<Seq<u8>>::empty());
        assert(lines_view(o.not_found@) =~= Seq::<Seq<u8>>::empty());
    }
    o
}

fn empty_outcome() -> (o: EvalOutcome)
    ensures
        o.same@.len() == 0,
        o.diff@.len() == 0,
        o.not_found@.len() == 0,
        !o.created,
        o.error is None,
{
    EvalOutcome { same: Vec::new(), diff: Vec::new(), not_found: Vec::new(), created: false, error: None }
}

fn run_evaluation(hd: &LineSource, cd: &LineSource) -> (r: (EvalOutcome, bool))
    ensures
        r.1 == evaluate_spec(hd.view_lines(), hd.read_error, cd.view_lines(), cd.read_error).aborted,
        !r.1 ==> outcome_is(&r.0, evaluate_spec(hd.view_lines(), hd.read_error, cd.view_lines(), cd.read_error)),
{
    let ghost hdv = hd.view_lines();
    let ghost cdv = cd.view_lines();
    if hd.lines.len() == 0 {
        if hd.read_error {
            return (stopped_early(EvalError::FirstRead(Side::Hd)), false);
        }
        return (stopped_early(EvalError::Empty(Side::Hd)), false);
    }
    let h: &[u8] = hd.lines[0].as_slice();
    assert(hdv[0] == h@);
    if h.len() < 540 {
        return (stopped_early(EvalError::FirstRecord(Side::Hd, RecordFault::TooSmall)), false);
    }
    if !(can_get(h, 0, 512) && can_get(h, 512, 528)) {
        return (empty_outcome(), true);
    }
    let hsize = size_field(h);
    if hsize < 0 {
        return (stopped_early(EvalError::FirstRecord(Side::Hd, RecordFault::InvalidSize)), false);
    }
    let (dir, name, date) = match read_record_tail(h, h) {
        Ok(Some(t)) => t,
        Ok(None) => return (empty_outcome(), true),
        Err(f) => return (stopped_early(EvalError::FirstRecord(Side::Hd, f)), false),
    };
    if cd.lines.len() == 0 {
        if cd.read_error {
            return (stopped_early(EvalError::FirstRead(Side::Cd)), false);
        }
        return (stopped_early(EvalError::Empty(Side::Cd)), false);
    }
    let c: &[u8] = cd.lines[0].as_slice();
    assert(cdv[0] == c@);
    if c.len() < 540 {
        return (stopped_early(EvalError::FirstRecord(Side::Cd, RecordFault::TooSmall)), false);
    }
    if !(can_get(c, 0, 512) && can_get(c, 512, 528)) {
        return (empty_outcome(), true);
    }
    let csize = size_field(c);
    if csize < 0 {
        return (stopped_early(EvalError::FirstRecord(Side::Cd, RecordFault::InvalidSize)), false);
    }
    let mut st = Merge {
        hd_pos: 1,
        cd_pos: 1,
        hd_key: slice_to_vec_bytes(&h[0..512]),
        hd_len: hsize,
        hd_dir: dir,
        hd_name: name,
        hd_date: date,
        cd_key: slice_to_vec_bytes(&c[0..512]),
        cd_len: csize,
        cd_done: false,
        matched: false,
        same: Vec::new(),
        diff: Vec::new(),
        not_found: Vec::new(),
    };
    proof {
        assert(lines_view(st.same@) =~= Seq::<Seq<u8>>::empty());
        assert(lines_view(st.diff@) =~= Seq::<Seq<u8>>::empty());
        assert(lines_view(st.not_found@) =~= Seq::<Seq<u8>>::empty());
    }
    let ghost target = merge_run(st@, hdv, hd.read_error, cdv, cd.read_error, h@);
    assert(target == evaluate_spec(hdv, hd.read_error, cdv, cd.read_error));
    loop
        invariant
            st.hd_len >= 0,
            state_ok(st@, hdv, cdv),
            merge_run(st@, hdv, hd.read_error, cdv, cd.read_error, h@) == target,
            target == evaluate_spec(hdv, hd.read_error, cdv, cd.read_error),
            hdv == hd.view_lines(),
            cdv == cd.view_lines(),
        decreases measure(st@, hdv, cdv),
    {
        let ghost before = st@;
        let t = merge_step_exec(&mut st, hd, cd, h);
        match t {
            Turn::Continue => {
                proof {
                    lemma_step_progress(before, hdv, hd.read_error, cdv, cd.read_error, h@);
                }
            },
            Turn::Done(e) => {
                proof {
                    assert(merge_step(before, hdv, hd.read_error, cdv, cd.read_error, h@) == Step::Done(st@, e));
                    assert(merge_run(before, hdv, hd.read_error, cdv, cd.read_error, h@) == finished(st@, e));
                }
                let o = EvalOutcome { same: st.same, diff: st.diff, not_found: st.not_found, created: true, error: e };
                return (o, false);
            },
            Turn::Abort => {
                return (empty_outcome(), true);
            },
        }
    }
}

/// Whether the tool would abort on these two lists: a record
/// field that reaches past its line or cuts a UTF-8 character in two.
pub fn evaluation_aborts(hd: &LineSource, cd: &LineSource) -> (r: bool)
    ensures
        r == evaluate_spec(hd.view_lines(), hd.read_error, cd.view_lines(), cd.read_error).aborted,
{
    run_evaluation(hd, cd).1
}

/// Compares the hard drive list `hd` with the catalogue list `cd`.
pub fn evaluate_lists(hd: &LineSource, cd: &LineSource) -> (o: EvalOutcome)
    requires
        !evaluate_spec(hd.view_lines(), hd.read_error, cd.view_lines(), cd.read_error).aborted,
    ensures
        outcome_is(&o, evaluate_spec(hd.view_lines(), hd.read_error, cd.view_lines(), cd.read_error)),
{
    run_evaluation(hd, cd).0
}

} // verus!
