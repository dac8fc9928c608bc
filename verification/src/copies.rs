//! The copies the change makes: for each row with a date to assign and a new
//! name, `exiftool -v -o <to folder>/<new name> -AllDates=<date> <from
//! folder>/<name>`, in the order of the rows, stopping at a date to assign
//! that is no date.

use vstd::prelude::*;
use vstd::utf8::valid_utf8;
use crate::date_text::{answer_possible, date_candidate, favourable, no_dir_date, text_date_answered, text_date_checked, text_date_with, DirDate};
use crate::dates::{assign_text, format_stamp, pattern_assign, stamp_valid, Stamp};
use crate::text::{bytes_eq, push_all};
use crate::updates::{dash, row_ok, rows_view, Row, RowView};

verus! {

/// One copy: the file copied, the file written, and the option that sets
/// the dates.
#[derive(Clone, Debug)]
pub struct Copy {
    pub from: Vec<u8>,
    pub to: Vec<u8>,
    pub date_arg: Vec<u8>,
}

pub struct CopyView {
    pub from: Seq<u8>,
    pub to: Seq<u8>,
    pub date_arg: Seq<u8>,
}

impl Copy {
    pub open spec fn view(&self) -> CopyView {
        CopyView { from: self.from@, to: self.to@, date_arg: self.date_arg@ }
    }
}

pub open spec fn copies_view(cs: Seq<Copy>) -> Seq<CopyView> {
    Seq::new(cs.len(), |i: int| cs[i]@)
}

/// `-AllDates=`
pub open spec fn all_dates() -> Seq<u8> {
    seq![45u8, 65u8, 108u8, 108u8, 68u8, 97u8, 116u8, 101u8, 115u8, 61u8]
}

/// `folder/name`
pub open spec fn path_in(dir: Seq<u8>, name: Seq<u8>) -> Seq<u8> {
    dir + seq![47u8] + name
}

/// A row is copied when it has a date to assign and a new name.
pub open spec fn copy_wanted(r: RowView) -> bool {
    r.assigned != dash() && r.new_name != dash()
}

pub open spec fn copy_of(r: RowView, from_dir: Seq<u8>, to_dir: Seq<u8>, st: Stamp) -> CopyView {
    CopyView { from: path_in(from_dir, r.name), to: path_in(to_dir, r.new_name), date_arg: all_dates() + assign_text(st) }
}

/// The copy of a wanted row, `None` when its date to assign is no date;
/// `a` is chrono's answer on that date.
#[verifier::opaque]
pub open spec fn copy_step(r: RowView, from_dir: Seq<u8>, to_dir: Seq<u8>, a: bool) -> Option<CopyView> {
    match text_date_with(r.assigned, no_dir_date(), a) {
        None => None,
        Some(st) => Some(copy_of(r, from_dir, to_dir, st)),
    }
}

/// The first `n` rows gone through: the copies, and the row whose date to
/// assign is no date, if the plan stopped there.  `ans` are chrono's answers
/// on the dates read.
pub open spec fn copy_prefix(rows: Seq<RowView>, from_dir: Seq<u8>, to_dir: Seq<u8>, ans: Seq<bool>, n: int)
    -> (Seq<CopyView>, Option<int>)
    decreases n,
{
    if n <= 0 {
        (Seq::empty(), None)
    } else {
        let (done, stop) = copy_prefix(rows, from_dir, to_dir, ans, n - 1);
        if stop is Some || !copy_wanted(rows[n - 1]) {
            (done, stop)
        } else {
            match copy_step(rows[n - 1], from_dir, to_dir, ans[n - 1]) {
                None => (done, Some(n - 1)),
                Some(c) => (done.push(c), None),
            }
        }
    }
}

/// The number of rows to copy among the first `n`.
pub open spec fn wanted_count(rows: Seq<RowView>, n: int) -> int
    decreases n,
{
    if n <= 0 { 0 } else { wanted_count(rows, n - 1) + if copy_wanted(rows[n - 1]) { 1int } else { 0 } }
}

/// Unless a date to assign that is no date stops it, a change makes one copy
/// per row with a date to assign and a new name, in the order of the rows.
pub proof fn law_one_copy_per_dated_row(rows: Seq<RowView>, from_dir: Seq<u8>, to_dir: Seq<u8>, ans: Seq<bool>, n: int)
    requires
        0 <= n <= rows.len(),
        copy_prefix(rows, from_dir, to_dir, ans, n).1 is None,
    ensures
        copy_prefix(rows, from_dir, to_dir, ans, n).0.len() == wanted_count(rows, n),
    decreases n,
{
    if n > 0 {
        assert(copy_prefix(rows, from_dir, to_dir, ans, n - 1).1 is None);
        law_one_copy_per_dated_row(rows, from_dir, to_dir, ans, n - 1);
    }
}

pub open spec fn copy_answers_possible(rows: Seq<RowView>, ans: Seq<bool>) -> bool {
    ans.len() == rows.len() && forall|i: int|
        0 <= i < rows.len() ==> answer_possible(date_candidate(rows[i].assigned, no_dir_date()), #[trigger] ans[i])
}

/// The most favourable answers of chrono on the dates to assign.
pub open spec fn copy_answers(rows: Seq<RowView>) -> Seq<bool> {
    Seq::new(rows.len(), |i: int| favourable(date_candidate(rows[i].assigned, no_dir_date())))
}

proof fn lemma_copy_stopped(rows: Seq<RowView>, f: Seq<u8>, t: Seq<u8>, a: Seq<bool>, k: int, n: int)
    requires
        0 <= k <= n,
        copy_prefix(rows, f, t, a, k).1 is Some,
    ensures
        copy_prefix(rows, f, t, a, n) == copy_prefix(rows, f, t, a, k),
    decreases n - k,
{
    if n > k {
        lemma_copy_stopped(rows, f, t, a, k, n - 1);
    }
}

proof fn lemma_copy_favourable(rows: Seq<RowView>, f: Seq<u8>, t: Seq<u8>, a: Seq<bool>, n: int)
    requires
        0 <= n <= rows.len(),
        a.len() >= n,
        forall|i: int| 0 <= i < n ==> answer_possible(date_candidate(rows[i].assigned, no_dir_date()), #[trigger] a[i]),
        copy_prefix(rows, f, t, a, n).1 is None,
    ensures
        copy_prefix(rows, f, t, copy_answers(rows), n) == copy_prefix(rows, f, t, a, n),
    decreases n,
{
    if n > 0 {
        if copy_prefix(rows, f, t, a, n - 1).1 is Some {
            lemma_copy_stopped(rows, f, t, a, n - 1, n);
        }
        lemma_copy_favourable(rows, f, t, a, n - 1);
        let r = rows[n - 1];
        reveal(copy_step);
        if !a[n - 1] {
            assert(text_date_with(r.assigned, no_dir_date(), a[n - 1]) is None);
        }
    }
}

/// What a change plans: the copies, and the row whose date to assign is no
/// date, if it stopped there.
#[derive(Debug)]
pub struct CopyPlan {
    pub copies: Vec<Copy>,
    pub bad_date_at: Option<usize>,
}

pub open spec fn plan_view(p: &CopyPlan) -> (Seq<CopyView>, Option<int>) {
    (copies_view(p.copies@), match p.bad_date_at { None => None, Some(i) => Some(i as int) })
}

fn path_exec(dir: &[u8], name: &[u8]) -> (r: Vec<u8>)
    ensures
        r@ == path_in(dir@, name@),
{
    let mut out: Vec<u8> = Vec::new();
    push_all(&mut out, dir);
    out.push(47);
    push_all(&mut out, name);
    proof {
        assert(out@ =~= path_in(dir@, name@));
    }
    out
}

/// Plans the copies of a change from `from_dir` to `to_dir`.  The plan is
/// the one for chrono's answers on the dates read; when it does not stop,
/// it is the one for the most favourable answers.
pub fn plan_copies(rows: &Vec<Row>, from_dir: &[u8], to_dir: &[u8]) -> (p: CopyPlan)
    requires
        forall|i: int| 0 <= i < rows@.len() ==> row_ok(#[trigger] rows@[i]@),
    ensures
        exists|ans: Seq<bool>| #[trigger] copy_answers_possible(rows_view(rows@), ans)
            && plan_view(&p) == copy_prefix(rows_view(rows@), from_dir@, to_dir@, ans, rows@.len() as int),
        p.bad_date_at is None ==> plan_view(&p) == copy_prefix(rows_view(rows@), from_dir@, to_dir@,
            copy_answers(rows_view(rows@)), rows@.len() as int),
{
    let ghost rv = rows_view(rows@);
    let ghost fav = copy_answers(rv);
    let ghost mut ans: Seq<bool> = Seq::empty();
    let mut copies: Vec<Copy> = Vec::new();
    let dash_arr: [u8; 1] = [45u8];
    let dash_s: &[u8] = &dash_arr;
    assert(dash_s@ == dash());
    let mut i: usize = 0;
    while i < rows.len()
        invariant
            i <= rows@.len(),
            rv == rows_view(rows@),
            fav == copy_answers(rv),
            dash_s@ == dash(),
            forall|j: int| 0 <= j < rows@.len() ==> row_ok(#[trigger] rows@[j]@),
            ans.len() == i,
            forall|j: int| 0 <= j < i ==> answer_possible(date_candidate(rv[j].assigned, no_dir_date()), #[trigger] ans[j]),
            copy_prefix(rv, from_dir@, to_dir@, ans, i as int) == (copies_view(copies@), None::<int>),
        decreases rows@.len() - i,
    {
        let r = &rows[i];
        assert(rv[i as int] == r@);
        if bytes_eq(r.assigned.as_slice(), dash_s) || bytes_eq(r.new_name.as_slice(), dash_s) {
            proof {
                lemma_copy_agree(rv, from_dir@, to_dir@, ans, ans.push(fav[i as int]), i as int);
                ans = ans.push(fav[i as int]);
            }
        } else {
            let (d, a) = text_date_checked(r.assigned.as_slice(), DirDate { year: None, month: None, day: None }, false);
            proof {
                lemma_copy_agree(rv, from_dir@, to_dir@, ans, ans.push(a@), i as int);
            }
            let ghost a2 = ans.push(a@);
            proof {
                assert(copy_step(rv[i as int], from_dir@, to_dir@, a@) == (match d {
                    None => None,
                    Some(st) => Some(copy_of(rv[i as int], from_dir@, to_dir@, st)),
                })) by {
                    reveal(copy_step);
                }
            }
            match d {
                None => {
                    proof {
                        let full = a2 + fav.skip(i + 1);
                        lemma_copy_agree(rv, from_dir@, to_dir@, a2, full, i + 1);
                        lemma_copy_stopped(rv, from_dir@, to_dir@, full, i + 1, rv.len() as int);
                        assert forall|j: int| 0 <= j < rv.len() implies answer_possible(
                            date_candidate(rv[j].assigned, no_dir_date()), #[trigger] full[j]) by {
                            if j > i {
                                assert(full[j] == fav[j]);
                            } else {
                                assert(full[j] == a2[j]);
                            }
                        }
                        ans = full;
                    }
                    let p = CopyPlan { copies, bad_date_at: Some(i) };
                    proof {
                        assert(plan_view(&p) == copy_prefix(rv, from_dir@, to_dir@, ans, rv.len() as int));
                        assert(copy_answers_possible(rv, ans));
                    }
                    return p;
                },
                Some(st) => {
                    let c = make_copy(r, from_dir, to_dir, st);
                    proof {
                        assert(copies_view(copies@.push(c)) =~= copies_view(copies@).push(c@));
                        ans = a2;
                    }
                    copies.push(c);
                },
            }
        }
        i = i + 1;
    }
    let p = CopyPlan { copies, bad_date_at: None };
    proof {
        lemma_copy_favourable(rv, from_dir@, to_dir@, ans, rv.len() as int);
        assert(plan_view(&p) == copy_prefix(rv, from_dir@, to_dir@, ans, rv.len() as int));
        assert(copy_answers_possible(rv, ans));
    }
    p
}

/// The copy of a row that chrono dated `st`.
fn make_copy(r: &Row, from_dir: &[u8], to_dir: &[u8], st: Stamp) -> (c: Copy)
    requires
        stamp_valid(st),
    ensures
        c@ == copy_of(r@, from_dir@, to_dir@, st),
{
    let pattern = "%Y:%m:%d %H:%M:%S";
    assert(pattern@ == pattern_assign());
    let date = format_stamp(st, pattern);
    let mut date_arg: Vec<u8> = Vec::new();
    push_all(&mut date_arg, &[45u8, 65, 108, 108, 68, 97, 116, 101, 115, 61]);
    push_all(&mut date_arg, date.as_slice());
    let c = Copy {
        from: path_exec(from_dir, r.name.as_slice()),
        to: path_exec(to_dir, r.new_name.as_slice()),
        date_arg,
    };
    proof {
        assert(c@.date_arg =~= all_dates() + assign_text(st));
    }
    c
}

/// Plans the copies of a change from `from_dir` to `to_dir` once chrono has
/// answered `answers[i]` on the date to assign of row `i`.
pub fn plan_copies_answered(rows: &Vec<Row>, from_dir: &[u8], to_dir: &[u8], answers: &Vec<bool>) -> (p: CopyPlan)
    requires
        forall|i: int| 0 <= i < rows@.len() ==> row_ok(#[trigger] rows@[i]@),
        copy_answers_possible(rows_view(rows@), answers@),
    ensures
        plan_view(&p) == copy_prefix(rows_view(rows@), from_dir@, to_dir@, answers@, rows@.len() as int),
{
    let ghost rv = rows_view(rows@);
    let mut copies: Vec<Copy> = Vec::new();
    let dash_arr: [u8; 1] = [45u8];
    let dash_s: &[u8] = &dash_arr;
    assert(dash_s@ == dash());
    let mut i: usize = 0;
    while i < rows.len()
        invariant
            i <= rows@.len(),
            rv == rows_view(rows@),
            dash_s@ == dash(),
            forall|j: int| 0 <= j < rows@.len() ==> row_ok(#[trigger] rows@[j]@),
            copy_answers_possible(rv, answers@),
            copy_prefix(rv, from_dir@, to_dir@, answers@, i as int) == (copies_view(copies@), None::<int>),
        decreases rows@.len() - i,
    {
        let r = &rows[i];
        assert(rv[i as int] == r@);
        if !(bytes_eq(r.assigned.as_slice(), dash_s) || bytes_eq(r.new_name.as_slice(), dash_s)) {
            let a = answers[i];
            assert(answer_possible(date_candidate(rv[i as int].assigned, no_dir_date()), answers@[i as int]));
            let d = text_date_answered(r.assigned.as_slice(), DirDate { year: None, month: None, day: None }, a);
            proof {
                assert(DirDate { year: None, month: None, day: None } == no_dir_date());
                assert(copy_step(rv[i as int], from_dir@, to_dir@, a) == (match d {
                    None => None,
                    Some(st) => Some(copy_of(rv[i as int], from_dir@, to_dir@, st)),
                })) by {
                    reveal(copy_step);
                }
            }
            match d {
                None => {
                    let p = CopyPlan { copies, bad_date_at: Some(i) };
                    proof {
                        lemma_copy_stopped(rv, from_dir@, to_dir@, answers@, i + 1, rv.len() as int);
                    }
                    return p;
                },
                Some(st) => {
                    assert(stamp_valid(st));
                    let c = make_copy(r, from_dir, to_dir, st);
                    proof {
                        assert(copies_view(copies@.push(c)) =~= copies_view(copies@).push(c@));
                    }
                    copies.push(c);
                },
            }
        }
        i = i + 1;
    }
    CopyPlan { copies, bad_date_at: None }
}

proof fn lemma_copy_agree(rows: Seq<RowView>, f: Seq<u8>, t: Seq<u8>, a: Seq<bool>, b: Seq<bool>, n: int)
    requires
        forall|i: int| 0 <= i < n ==> a[i] == b[i],
    ensures
        copy_prefix(rows, f, t, a, n) == copy_prefix(rows, f, t, b, n),
    decreases n,
{
    if n > 0 {
        lemma_copy_agree(rows, f, t, a, b, n - 1);
    }
}

} // verus!
