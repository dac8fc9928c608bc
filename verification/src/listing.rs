//! The list of the images of a folder: one line `name|origin|date|-|-` per
//! image file, the date read from the file name or handed in from the file's
//! metadata, the lines sorted as strings and cut back into rows.

use vstd::prelude::*;
use vstd::utf8::valid_utf8;
use crate::date_text::{
    name_answer_possible, name_can_be_cut, name_cut_ok, name_date_answered, name_date_checked, name_date_with,
    name_favourable,
};
use crate::dates::{format_stamp, lemma_stamp_text_ascii, listing_text, pattern_listing, stamp_valid};
use crate::records::ascii;
use crate::text::{
    bytes_lt, ends_with, lemma_lex_irreflexive, lemma_lex_transitive, lemma_split_lengths, lex_lt, lines_view,
    push_all, slice_to_vec_bytes, split_bytes, split_spec,
};
use crate::updates::{row_ok, rows_view, Row, RowView};
use crate::utf8_facts::{lemma_ascii_valid, lemma_concat_valid, lemma_split_valid};

verus! {

/// Sorted in the order of strings (equal lines may follow each other).
pub open spec fn lex_sorted(s: Seq<Seq<u8>>) -> bool {
    forall|i: int, j: int| 0 <= i < j < s.len() ==> !lex_lt(#[trigger] s[j], #[trigger] s[i])
}

proof fn lemma_lines_view_insert(v: Seq<Vec<u8>>, p: int, x: Vec<u8>)
    requires
        0 <= p <= v.len(),
    ensures
        lines_view(v.insert(p, x)) == lines_view(v).insert(p, x@),
{
    assert(lines_view(v.insert(p, x)) =~= lines_view(v).insert(p, x@));
}

/// Inserting `x` before the first line greater than it keeps the lines sorted.
proof fn lemma_insert_sorted(o: Seq<Seq<u8>>, p: int, x: Seq<u8>)
    requires
        lex_sorted(o),
        0 <= p <= o.len(),
        forall|j: int| 0 <= j < p ==> !lex_lt(x, #[trigger] o[j]),
        p < o.len() ==> lex_lt(x, o[p]),
    ensures
        lex_sorted(o.insert(p, x)),
{
    let n = o.insert(p, x);
    assert forall|i: int, j: int| 0 <= i < j < n.len() implies !lex_lt(#[trigger] n[j], #[trigger] n[i]) by {
        if j < p {
            assert(n[i] == o[i] && n[j] == o[j]);
        } else if j == p {
            assert(n[i] == o[i] && n[j] == x);
        } else if i < p {
            assert(n[i] == o[i] && n[j] == o[j - 1]);
        } else if i == p {
            assert(n[i] == x && n[j] == o[j - 1]);
            if lex_lt(o[j - 1], x) {
                lemma_lex_transitive(o[j - 1], x, o[p]);
                if j - 1 == p {
                    lemma_lex_irreflexive(o[p]);
                }
            }
        } else {
            assert(n[i] == o[i - 1] && n[j] == o[j - 1]);
        }
    }
}

/// The lines sorted as strings: the same lines, each as often, in order.
pub fn sort_lines(lines: &Vec<Vec<u8>>) -> (r: Vec<Vec<u8>>)
    ensures
        lex_sorted(lines_view(r@)),
        lines_view(r@).to_multiset() == lines_view(lines@).to_multiset(),
        forall|j: int| 0 <= j < r@.len() ==> lines_view(lines@).contains(#[trigger] lines_view(r@)[j]),
{
    let ghost input = lines_view(lines@);
    let mut out: Vec<Vec<u8>> = Vec::new();
    let mut i: usize = 0;
    proof {
        assert(input.take(0) =~= Seq::<Seq<u8>>::empty());
        assert(lines_view(out@) =~= Seq::<Seq<u8>>::empty());
    }
    while i < lines.len()
        invariant
            i <= lines@.len(),
            input == lines_view(lines@),
            lex_sorted(lines_view(out@)),
            lines_view(out@).to_multiset() == input.take(i as int).to_multiset(),
            forall|j: int| 0 <= j < out@.len() ==> input.contains(#[trigger] lines_view(out@)[j]),
        decreases lines@.len() - i,
    {
        let x = slice_to_vec_bytes(lines[i].as_slice());
        let mut p: usize = 0;
        while p < out.len()
            invariant
                p <= out@.len(),
                forall|j: int| 0 <= j < p ==> !lex_lt(x@, #[trigger] lines_view(out@)[j]),
            ensures
                p <= out@.len(),
                forall|j: int| 0 <= j < p ==> !lex_lt(x@, #[trigger] lines_view(out@)[j]),
                p < out@.len() ==> lex_lt(x@, lines_view(out@)[p as int]),
            decreases out@.len() - p,
        {
            if bytes_lt(x.as_slice(), out[p].as_slice()) {
                break;
            }
            p = p + 1;
        }
        let ghost o = lines_view(out@);
        let ghost old_out = out@;
        proof {
            if p < out@.len() {
                assert(o[p as int] == out@[p as int]@);
            }
            lemma_insert_sorted(o, p as int, x@);
            lemma_lines_view_insert(out@, p as int, x);
            vstd::seq_lib::to_multiset_insert(o, p as int, x@);
            assert(input.take(i + 1) =~= input.take(i as int).push(input[i as int]));
            vstd::seq_lib::to_multiset_build(input.take(i as int), input[i as int]);
            assert(input[i as int] == x@);
        }
        out.insert(p, x);
        proof {
            assert forall|j: int| 0 <= j < out@.len() implies input.contains(#[trigger] lines_view(out@)[j]) by {
                if j < p {
                    assert(out@[j] == old_out[j]);
                    assert(lines_view(out@)[j] == o[j]);
                } else if j == p {
                    assert(lines_view(out@)[j] == input[i as int]);
                } else {
                    assert(out@[j] == old_out[j - 1]);
                    assert(lines_view(out@)[j] == o[j - 1]);
                }
            }
        }
        i = i + 1;
    }
    proof {
        assert(input.take(lines@.len() as int) =~= input);
    }
    out
}


// ---------------------------------------------------------------- entries

/// A directory entry: its name, whether it is a plain file, and the date of
/// the file with where it comes from (`file date`, `date taken`, `image
/// date`), used when the date is not read from the name.
#[derive(Clone, Debug)]
pub struct Entry {
    pub name: Vec<u8>,
    pub is_file: bool,
    pub origin: Vec<u8>,
    pub date: Vec<u8>,
}

/// `date taken`
pub open spec fn origin_taken() -> Seq<u8> {
    seq![100u8, 97u8, 116u8, 101u8, 32u8, 116u8, 97u8, 107u8, 101u8, 110u8]
}

/// `image date`
pub open spec fn origin_image() -> Seq<u8> {
    seq![105u8, 109u8, 97u8, 103u8, 101u8, 32u8, 100u8, 97u8, 116u8, 101u8]
}

/// `file date`
pub open spec fn origin_file() -> Seq<u8> {
    seq![102u8, 105u8, 108u8, 101u8, 32u8, 100u8, 97u8, 116u8, 101u8]
}

/// The date of an image not read from its name, with where it comes from:
/// the date the picture was taken, else the date of the image, else the
/// modification date of the file.
pub open spec fn own_date_of(taken: Option<Seq<u8>>, image: Option<Seq<u8>>, file_date: Seq<u8>) -> (Seq<u8>, Seq<u8>) {
    match taken {
        Some(t) => (origin_taken(), t),
        None => match image {
            Some(i) => (origin_image(), i),
            None => (origin_file(), file_date),
        },
    }
}

pub open spec fn opt_view(o: Option<Vec<u8>>) -> Option<Seq<u8>> {
    match o {
        Some(v) => Some(v@),
        None => None,
    }
}

/// Chooses the date of an image not read from its name (origin, date), from
/// the EXIF date taken, the EXIF image date and the file's modification date.
pub fn own_date(taken: Option<Vec<u8>>, image: Option<Vec<u8>>, file_date: Vec<u8>) -> (r: (Vec<u8>, Vec<u8>))
    ensures
        (r.0@, r.1@) == own_date_of(opt_view(taken), opt_view(image), file_date@),
{
    match taken {
        Some(t) => {
            let o = slice_to_vec_bytes(&[100u8, 97, 116, 101, 32, 116, 97, 107, 101, 110]);
            proof { assert(o@ =~= origin_taken()); }
            (o, t)
        },
        None => match image {
            Some(i) => {
                let o = slice_to_vec_bytes(&[105u8, 109, 97, 103, 101, 32, 100, 97, 116, 101]);
                proof { assert(o@ =~= origin_image()); }
                (o, i)
            },
            None => {
                let o = slice_to_vec_bytes(&[102u8, 105, 108, 101, 32, 100, 97, 116, 101]);
                proof { assert(o@ =~= origin_file()); }
                (o, file_date)
            },
        },
    }
}

pub struct EntryView {
    pub name: Seq<u8>,
    pub is_file: bool,
    pub origin: Seq<u8>,
    pub date: Seq<u8>,
}

impl Entry {
    pub open spec fn view(&self) -> EntryView {
        EntryView { name: self.name@, is_file: self.is_file, origin: self.origin@, date: self.date@ }
    }
}

pub open spec fn entries_view(es: Seq<Entry>) -> Seq<EntryView> {
    Seq::new(es.len(), |i: int| es[i]@)
}

/// The texts of an entry are UTF-8 and its name has a length that fits an `i32`.
pub open spec fn entry_ok(e: EntryView) -> bool {
    valid_utf8(e.name) && valid_utf8(e.origin) && valid_utf8(e.date) && e.name.len() < 0x8000_0000
}

pub open spec fn has_suffix(s: Seq<u8>, suffix: Seq<u8>) -> bool {
    suffix.len() <= s.len() && s.subrange(s.len() - suffix.len(), s.len() as int) == suffix
}

/// A name ending in `.jpg`, `.JPG`, `.jpeg` or `.JPEG`.
pub open spec fn image_name(name: Seq<u8>) -> bool {
    has_suffix(name, seq![46u8, 106u8, 112u8, 103u8]) || has_suffix(name, seq![46u8, 74u8, 80u8, 71u8])
        || has_suffix(name, seq![46u8, 106u8, 112u8, 101u8, 103u8]) || has_suffix(name, seq![46u8, 74u8, 80u8, 69u8, 71u8])
}

/// Whether a file name is that of an image.
pub fn is_image_name(name: &[u8]) -> (r: bool)
    ensures
        r == image_name(name@),
{
    let jpg: [u8; 4] = [46u8, 106, 112, 103];
    let jpg_upper: [u8; 4] = [46u8, 74, 80, 71];
    let jpeg: [u8; 5] = [46u8, 106, 112, 101, 103];
    let jpeg_upper: [u8; 5] = [46u8, 74, 80, 69, 71];
    let a: &[u8] = &jpg;
    let b: &[u8] = &jpg_upper;
    let c: &[u8] = &jpeg;
    let d: &[u8] = &jpeg_upper;
    assert(a@ == seq![46u8, 106u8, 112u8, 103u8]);
    assert(b@ == seq![46u8, 74u8, 80u8, 71u8]);
    assert(c@ == seq![46u8, 106u8, 112u8, 101u8, 103u8]);
    assert(d@ == seq![46u8, 74u8, 80u8, 69u8, 71u8]);
    ends_with(name, a) || ends_with(name, b) || ends_with(name, c) || ends_with(name, d)
}

/// An entry that goes into the list: a plain file with an image name.
pub open spec fn listed_entry(e: EntryView) -> bool {
    e.is_file && image_name(e.name)
}

/// `date in name`
pub open spec fn from_name() -> Seq<u8> {
    seq![100u8, 97u8, 116u8, 101u8, 32u8, 105u8, 110u8, 32u8, 110u8, 97u8, 109u8, 101u8]
}

/// `name|origin|date|-|-`
pub open spec fn list_line(name: Seq<u8>, origin: Seq<u8>, date: Seq<u8>) -> Seq<u8> {
    name + seq![124u8] + origin + seq![124u8] + date + seq![124u8, 45u8, 124u8, 45u8]
}

/// The line of a listed entry, `a` being chrono's answer on the date in its
/// name; `None` when the name holds no date.
#[verifier::opaque]
pub open spec fn entry_line(e: EntryView, date_in_name: bool, a: bool) -> Option<Seq<u8>> {
    if !date_in_name {
        Some(list_line(e.name, e.origin, e.date))
    } else {
        match name_date_with(e.name, a) {
            None => None,
            Some(st) => Some(list_line(e.name, from_name(), listing_text(st))),
        }
    }
}

/// The first `n` entries gone through: the lines made, and whether a name
/// without a date stopped the listing.
pub open spec fn list_prefix(es: Seq<EntryView>, date_in_name: bool, ans: Seq<bool>, n: int) -> (Seq<Seq<u8>>, bool)
    decreases n,
{
    if n <= 0 {
        (Seq::empty(), false)
    } else {
        let (ls, bad) = list_prefix(es, date_in_name, ans, n - 1);
        if bad || !listed_entry(es[n - 1]) {
            (ls, bad)
        } else {
            match entry_line(es[n - 1], date_in_name, ans[n - 1]) {
                None => (ls, true),
                Some(l) => (ls.push(l), false),
            }
        }
    }
}

/// The tool aborts at entry `i`: its name cannot be cut where the date ends.
pub open spec fn list_aborts_at(es: Seq<EntryView>, date_in_name: bool, ans: Seq<bool>, i: int) -> bool {
    date_in_name && 0 <= i < es.len() && !list_prefix(es, date_in_name, ans, i).1 && listed_entry(es[i])
        && !name_cut_ok(es[i].name)
}

/// The most favourable answers of chrono on the dates in the names.
pub open spec fn name_answers(es: Seq<EntryView>) -> Seq<bool> {
    Seq::new(es.len(), |i: int| name_favourable(es[i].name))
}

pub open spec fn list_answers_possible(es: Seq<EntryView>, ans: Seq<bool>) -> bool {
    ans.len() == es.len() && forall|i: int| 0 <= i < es.len() ==> name_answer_possible(es[i].name, #[trigger] ans[i])
}

/// Whether some time zone could make the tool abort on these entries: it
/// does with the most favourable answers.
pub open spec fn listing_may_abort(es: Seq<EntryView>, date_in_name: bool) -> bool {
    exists|i: int| list_aborts_at(es, date_in_name, name_answers(es), i)
}

/// The number of listed entries among the first `n`.
pub open spec fn listed_count(es: Seq<EntryView>, n: int) -> int
    decreases n,
{
    if n <= 0 { 0 } else { listed_count(es, n - 1) + if listed_entry(es[n - 1]) { 1int } else { 0 } }
}

/// The line starts with the name and a `|`.
pub open spec fn line_of(l: Seq<u8>, name: Seq<u8>) -> bool {
    l.len() > name.len() && l.take(name.len() as int) == name && l[name.len() as int] == 124u8
}

/// The line is that of one of the first `n` entries, an image file.
pub open spec fn line_of_some_entry(es: Seq<EntryView>, l: Seq<u8>, n: int) -> bool {
    exists|i: int| 0 <= i < n && listed_entry(es[i]) && line_of(l, #[trigger] es[i].name)
}

/// Unless a name without a date stops it, the listing has one line per image
/// file, and each line starts with the name of an image file and a `|`.
pub proof fn law_one_line_per_image(es: Seq<EntryView>, date_in_name: bool, ans: Seq<bool>, n: int)
    requires
        0 <= n <= es.len(),
        ans.len() == es.len(),
        !list_prefix(es, date_in_name, ans, n).1,
    ensures
        list_prefix(es, date_in_name, ans, n).0.len() == listed_count(es, n),
        forall|k: int| 0 <= k < list_prefix(es, date_in_name, ans, n).0.len()
            ==> #[trigger] line_of_some_entry(es, list_prefix(es, date_in_name, ans, n).0[k], n),
    decreases n,
{
    if n > 0 {
        assert(!list_prefix(es, date_in_name, ans, n - 1).1);
        law_one_line_per_image(es, date_in_name, ans, n - 1);
        let prev = list_prefix(es, date_in_name, ans, n - 1).0;
        let cur = list_prefix(es, date_in_name, ans, n).0;
        if listed_entry(es[n - 1]) {
            let e = es[n - 1];
            let l = entry_line(e, date_in_name, ans[n - 1])->Some_0;
            assert(line_of(l, e.name)) by {
                reveal(entry_line);
                assert(l.take(e.name.len() as int) =~= e.name);
            }
            assert(cur == prev.push(l));
        } else {
            assert(cur == prev);
        }
        assert forall|k: int| 0 <= k < cur.len() implies #[trigger] line_of_some_entry(es, cur[k], n) by {
            if k < prev.len() {
                assert(cur[k] == prev[k]);
                assert(line_of_some_entry(es, prev[k], n - 1));
                let i = choose|i: int| 0 <= i < n - 1 && listed_entry(es[i]) && line_of(prev[k], #[trigger] es[i].name);
                assert(0 <= i < n && listed_entry(es[i]) && line_of(cur[k], es[i].name));
            } else {
                assert(0 <= n - 1 < n && listed_entry(es[n - 1]) && line_of(cur[k], es[n - 1].name));
            }
        }
    }
}

proof fn lemma_list_agree(es: Seq<EntryView>, din: bool, a: Seq<bool>, b: Seq<bool>, n: int)
    requires
        forall|i: int| 0 <= i < n ==> a[i] == b[i],
    ensures
        list_prefix(es, din, a, n) == list_prefix(es, din, b, n),
    decreases n,
{
    if n > 0 {
        lemma_list_agree(es, din, a, b, n - 1);
    }
}

proof fn lemma_list_stopped(es: Seq<EntryView>, din: bool, a: Seq<bool>, k: int, n: int)
    requires
        0 <= k <= n,
        list_prefix(es, din, a, k).1,
    ensures
        list_prefix(es, din, a, n) == list_prefix(es, din, a, k),
    decreases n - k,
{
    if n > k {
        lemma_list_stopped(es, din, a, k, n - 1);
    }
}

proof fn lemma_entry_favourable(e: EntryView, din: bool, a: bool)
    requires
        name_answer_possible(e.name, a),
    ensures
        entry_line(e, din, a) is Some ==> entry_line(e, din, a) == entry_line(e, din, name_favourable(e.name)),
{
    reveal(entry_line);
    if din && name_date_with(e.name, a) is Some {
        assert(a);
    }
}

proof fn lemma_list_favourable(es: Seq<EntryView>, din: bool, a: Seq<bool>, n: int)
    requires
        0 <= n <= es.len(),
        a.len() >= n,
        forall|i: int| 0 <= i < n ==> name_answer_possible(es[i].name, #[trigger] a[i]),
        !list_prefix(es, din, a, n).1,
    ensures
        list_prefix(es, din, name_answers(es), n) == list_prefix(es, din, a, n),
    decreases n,
{
    if n > 0 {
        if list_prefix(es, din, a, n - 1).1 {
            lemma_list_stopped(es, din, a, n - 1, n);
        }
        lemma_list_favourable(es, din, a, n - 1);
        lemma_entry_favourable(es[n - 1], din, a[n - 1]);
    }
}


// ---------------------------------------------------------------- exec

/// A line the listing makes: UTF-8, with a `|` within the first 2^31 bytes.
pub open spec fn line_ok(l: Seq<u8>) -> bool {
    valid_utf8(l) && exists|k: int| 0 <= k < l.len() && k < 0x8000_0000 && #[trigger] l[k] == 124u8
}

fn make_line(name: &[u8], origin: &[u8], date: &[u8]) -> (r: Vec<u8>)
    requires
        valid_utf8(name@),
        valid_utf8(origin@),
        valid_utf8(date@),
        name@.len() < 0x8000_0000,
    ensures
        r@ == list_line(name@, origin@, date@),
        line_ok(r@),
{
    let mut out: Vec<u8> = Vec::new();
    push_all(&mut out, name);
    out.push(124);
    push_all(&mut out, origin);
    out.push(124);
    push_all(&mut out, date);
    push_all(&mut out, &[124u8, 45, 124, 45]);
    proof {
        let bar = seq![124u8];
        let tail = seq![124u8, 45u8, 124u8, 45u8];
        assert(out@ =~= list_line(name@, origin@, date@));
        assert(ascii(bar));
        assert(ascii(tail));
        lemma_ascii_valid(bar);
        lemma_ascii_valid(tail);
        lemma_concat_valid(name@, bar);
        lemma_concat_valid(name@ + bar, origin@);
        lemma_concat_valid(name@ + bar + origin@, bar);
        lemma_concat_valid(name@ + bar + origin@ + bar, date@);
        lemma_concat_valid(name@ + bar + origin@ + bar + date@, tail);
        assert(out@[name@.len() as int] == 124u8);
    }
    out
}

/// The line of one listed entry, with chrono's answer on the date in its
/// name (or, with `favourable`, the most favourable one).
fn entry_line_exec(e: &Entry, date_in_name: bool, favourable: bool, given: Option<bool>) -> (r: (Option<Vec<u8>>, Ghost<bool>))
    requires
        entry_ok(e@),
        date_in_name ==> name_cut_ok(e@.name),
        given matches Some(a) ==> name_answer_possible(e@.name, a),
    ensures
        name_answer_possible(e@.name, r.1@),
        given is None && favourable ==> r.1@ == name_favourable(e@.name),
        given matches Some(a) ==> r.1@ == a,
        entry_line(e@, date_in_name, r.1@) == (match r.0 {
            None => None,
            Some(v) => Some(v@),
        }),
        r.0 matches Some(v) ==> line_ok(v@),
{
    if !date_in_name {
        let line = make_line(e.name.as_slice(), e.origin.as_slice(), e.date.as_slice());
        proof {
            reveal(entry_line);
        }
        let ghost unasked: bool = match given {
            Some(a) => a,
            None => name_favourable(e@.name),
        };
        return (Some(line), Ghost(unasked));
    }
    let (d, a) = match given {
        Some(a) => {
            let d = name_date_answered(e.name.as_slice(), a);
            proof {
                if d is Some {
                    assert(stamp_valid(d->Some_0));
                }
            }
            (d, Ghost(a))
        },
        None => name_date_checked(e.name.as_slice(), favourable),
    };
    match d {
        None => {
            proof {
                reveal(entry_line);
            }
            (None, a)
        },
        Some(st) => {
            let pattern = "%Y-%m-%d %T";
            assert(pattern@ == pattern_listing());
            let date = format_stamp(st, pattern);
            let origin = slice_to_vec_bytes(&[100u8, 97, 116, 101, 32, 105, 110, 32, 110, 97, 109, 101]);
            proof {
                assert(origin@ =~= from_name());
                assert(ascii(from_name()));
                lemma_ascii_valid(from_name());
                lemma_stamp_text_ascii(st, 45u8, 32u8, 58u8);
                lemma_ascii_valid(date@);
                reveal(entry_line);
            }
            let line = make_line(e.name.as_slice(), origin.as_slice(), date.as_slice());
            (Some(line), a)
        },
    }
}

/// The line of a listed entry once chrono has answered `exists_locally` on
/// the date in its name (`None`: the name holds no date).
pub fn entry_line_answered(e: &Entry, date_in_name: bool, exists_locally: bool) -> (r: Option<Vec<u8>>)
    requires
        entry_ok(e@),
        date_in_name ==> name_cut_ok(e@.name),
        name_answer_possible(e@.name, exists_locally),
    ensures
        entry_line(e@, date_in_name, exists_locally) == (match r {
            None => None,
            Some(v) => Some(v@),
        }),
{
    entry_line_exec(e, date_in_name, false, Some(exists_locally)).0
}

/// The `k`-th piece of a split, empty when there are fewer pieces.
pub open spec fn piece(p: Seq<Seq<u8>>, k: int) -> Seq<u8> {
    if 0 <= k < p.len() { p[k] } else { Seq::empty() }
}

/// A listed line cut back into the five columns of a row.
pub open spec fn line_row(l: Seq<u8>) -> RowView {
    let p = split_spec(l, 124u8);
    RowView { name: piece(p, 0), origin: piece(p, 1), current: piece(p, 2), assigned: piece(p, 3), new_name: piece(p, 4) }
}

fn piece_exec(parts: &Vec<Vec<u8>>, k: usize) -> (r: Vec<u8>)
    ensures
        r@ == piece(lines_view(parts@), k as int),
{
    if k < parts.len() {
        slice_to_vec_bytes(parts[k].as_slice())
    } else {
        Vec::new()
    }
}

fn line_to_row(l: &[u8]) -> (r: Row)
    requires
        line_ok(l@),
    ensures
        r@ == line_row(l@),
        row_ok(r@),
{
    let parts = split_bytes(l, 124);
    let ghost p = split_spec(l@, 124u8);
    proof {
        assert(lines_view(parts@) =~= p);
        lemma_split_valid(l@, 124u8);
        lemma_split_lengths(l@, 124u8);
        crate::text::lemma_split_shape(l@, 124u8);
        let k = choose|k: int| 0 <= k < l@.len() && k < 0x8000_0000 && #[trigger] l@[k] == 124u8;
        assert(p[0].len() <= k);
        assert(ascii(Seq::<u8>::empty()));
        lemma_ascii_valid(Seq::<u8>::empty());
        assert(valid_utf8(piece(p, 2)));
        assert(valid_utf8(piece(p, 3)));
    }
    Row {
        name: piece_exec(&parts, 0),
        origin: piece_exec(&parts, 1),
        current: piece_exec(&parts, 2),
        assigned: piece_exec(&parts, 3),
        new_name: piece_exec(&parts, 4),
    }
}


// ---------------------------------------------------------------- all entries

proof fn lemma_list_extend(es: Seq<EntryView>, din: bool, ans: Seq<bool>, a: bool, i: int)
    requires
        ans.len() == i,
        forall|j: int| 0 <= j < i ==> !list_aborts_at(es, din, ans, j),
    ensures
        list_prefix(es, din, ans.push(a), i) == list_prefix(es, din, ans, i),
        forall|j: int| 0 <= j < i ==> !list_aborts_at(es, din, ans.push(a), j),
        ans.push(a)[i] == a,
{
    lemma_list_agree(es, din, ans, ans.push(a), i);
    assert forall|j: int| 0 <= j < i implies !list_aborts_at(es, din, ans.push(a), j) by {
        lemma_list_agree(es, din, ans, ans.push(a), j);
        assert(!list_aborts_at(es, din, ans, j));
    }
}

/// The answers so far, completed by the favourable ones.
proof fn lemma_list_fill(es: Seq<EntryView>, a: Seq<bool>, favourable: bool)
    requires
        a.len() <= es.len(),
        forall|j: int| 0 <= j < a.len() ==> name_answer_possible(es[j].name, #[trigger] a[j]),
        favourable ==> forall|j: int| 0 <= j < a.len() ==> #[trigger] a[j] == name_answers(es)[j],
    ensures
        ({
            let full = a + name_answers(es).skip(a.len() as int);
            &&& list_answers_possible(es, full)
            &&& favourable ==> full == name_answers(es)
            &&& forall|j: int| 0 <= j < a.len() ==> #[trigger] full[j] == a[j]
        }),
{
    let fav = name_answers(es);
    let full = a + fav.skip(a.len() as int);
    assert forall|j: int| 0 <= j < es.len() implies name_answer_possible(es[j].name, #[trigger] full[j]) by {
        if j >= a.len() {
            assert(full[j] == fav[j]);
        } else {
            assert(full[j] == a[j]);
        }
    }
    if favourable {
        assert forall|j: int| 0 <= j < es.len() implies full[j] == fav[j] by {
            if j < a.len() {
                assert(full[j] == a[j]);
            }
        }
        assert(full =~= fav);
    }
}

/// A name without a date ends the listing, and no later entry aborts.
proof fn lemma_list_stop(es: Seq<EntryView>, din: bool, a2: Seq<bool>, full: Seq<bool>, i: int)
    requires
        0 <= i < es.len(),
        a2.len() == i + 1,
        full.len() == es.len(),
        forall|j: int| 0 <= j <= i ==> #[trigger] full[j] == a2[j],
        list_prefix(es, din, a2, i + 1).1,
        forall|j: int| 0 <= j < i ==> !list_aborts_at(es, din, a2, j),
        !list_aborts_at(es, din, a2, i),
    ensures
        list_prefix(es, din, full, es.len() as int) == list_prefix(es, din, a2, i + 1),
        forall|j: int| !list_aborts_at(es, din, full, j),
{
    lemma_list_agree(es, din, a2, full, i + 1);
    lemma_list_stopped(es, din, full, i + 1, es.len() as int);
    assert forall|j: int| !list_aborts_at(es, din, full, j) by {
        if 0 <= j <= i {
            lemma_list_agree(es, din, a2, full, j);
            assert(!list_aborts_at(es, din, a2, j));
        } else if j > i && j < es.len() {
            lemma_list_stopped(es, din, full, i + 1, j);
        }
    }
}

/// Goes through the entries; returns the lines, whether a name without a
/// date stopped the listing, and the entry at which the tool would
/// abort, if it does.
fn run_listing(entries: &Vec<Entry>, din: bool, favourable: bool)
    -> (res: (Vec<Vec<u8>>, bool, Option<usize>, Ghost<Seq<bool>>))
    requires
        forall|i: int| 0 <= i < entries@.len() ==> entry_ok(#[trigger] entries@[i]@),
    ensures
        ({
            let es = entries_view(entries@);
            let ans = res.3@;
            &&& list_answers_possible(es, ans)
            &&& favourable ==> ans == name_answers(es)
            &&& forall|j: int| 0 <= j < res.0@.len() ==> line_ok(#[trigger] lines_view(res.0@)[j])
            &&& match res.2 {
                Some(i) => list_aborts_at(es, din, ans, i as int),
                None => (forall|i: int| !list_aborts_at(es, din, ans, i))
                    && list_prefix(es, din, ans, es.len() as int) == (lines_view(res.0@), res.1),
            }
        }),
{
    let ghost es = entries_view(entries@);
    let ghost fav = name_answers(es);
    let ghost mut ans: Seq<bool> = Seq::empty();
    let mut lines: Vec<Vec<u8>> = Vec::new();
    let mut i: usize = 0;
    while i < entries.len()
        invariant
            i <= entries@.len(),
            es == entries_view(entries@),
            fav == name_answers(es),
            forall|j: int| 0 <= j < entries@.len() ==> entry_ok(#[trigger] entries@[j]@),
            ans.len() == i,
            forall|j: int| 0 <= j < i ==> name_answer_possible(es[j].name, #[trigger] ans[j]),
            favourable ==> forall|j: int| 0 <= j < i ==> #[trigger] ans[j] == fav[j],
            list_prefix(es, din, ans, i as int) == (lines_view(lines@), false),
            forall|j: int| 0 <= j < i ==> !list_aborts_at(es, din, ans, j),
            forall|j: int| 0 <= j < lines@.len() ==> line_ok(#[trigger] lines_view(lines@)[j]),
        decreases entries@.len() - i,
    {
        let e = &entries[i];
        assert(es[i as int] == e@);
        let listed = e.is_file && is_image_name(e.name.as_slice());
        if !listed {
            proof {
                lemma_list_extend(es, din, ans, fav[i as int], i as int);
                ans = ans.push(fav[i as int]);
            }
        } else {
            if din && !name_can_be_cut(e.name.as_slice()) {
                proof {
                    lemma_list_fill(es, ans, favourable);
                    let full = ans + fav.skip(i as int);
                    lemma_list_agree(es, din, ans, full, i as int);
                    ans = full;
                }
                return (lines, false, Some(i), Ghost(ans));
            }
            let (l, a) = entry_line_exec(e, din, favourable, None);
            proof {
                lemma_list_extend(es, din, ans, a@, i as int);
            }
            let ghost a2 = ans.push(a@);
            match l {
                None => {
                    proof {
                        lemma_list_fill(es, a2, favourable);
                        let full = a2 + fav.skip(i + 1);
                        lemma_list_stop(es, din, a2, full, i as int);
                        ans = full;
                    }
                    return (lines, true, None, Ghost(ans));
                },
                Some(l) => {
                    proof {
                        ans = a2;
                        assert(lines_view(lines@.push(l)) =~= lines_view(lines@).push(l@));
                    }
                    lines.push(l);
                },
            }
        }
        i = i + 1;
    }
    proof {
        lemma_list_fill(es, ans, favourable);
        assert(ans + fav.skip(ans.len() as int) =~= ans);
    }
    (lines, false, None, Ghost(ans))
}

/// Whether some time zone could make the tool abort on these entries
/// (an image name, read for a date, that cannot be cut after its 23rd byte).
pub fn listing_may_abort_exec(entries: &Vec<Entry>, date_in_name: bool) -> (r: bool)
    requires
        forall|i: int| 0 <= i < entries@.len() ==> entry_ok(#[trigger] entries@[i]@),
    ensures
        r == listing_may_abort(entries_view(entries@), date_in_name),
{
    let (_, _, abort, _) = run_listing(entries, date_in_name, true);
    abort.is_some()
}

/// What the listing of a folder gives.
#[derive(Debug)]
pub enum Listing {
    /// An image name holds no date (reading dates from names).
    BadDateInName,
    /// No image in the folder.
    NoImages,
    /// The rows, sorted.
    Listed(Vec<Row>),
}

/// The rows are the lines sorted as strings, each cut into its columns.
pub open spec fn line_rows(lines: Seq<Seq<u8>>, rows: Seq<RowView>) -> bool {
    exists|sorted: Seq<Seq<u8>>|
        lex_sorted(sorted) && sorted.to_multiset() == lines.to_multiset()
            && rows == Seq::new(sorted.len(), |i: int| line_row(sorted[i]))
}

pub open spec fn listing_is(r: &Listing, lines: Seq<Seq<u8>>, bad: bool) -> bool {
    match *r {
        Listing::BadDateInName => bad,
        Listing::NoImages => !bad && lines.len() == 0,
        Listing::Listed(rows) => !bad && lines.len() > 0 && line_rows(lines, rows_view(rows@)),
    }
}

/// Lists the images of a folder: with `date_in_name`, each date is read from
/// the name (`date in name`); otherwise the entry's own date is taken.  The
/// outcome is the one for chrono's answers on the dates read; unless a name
/// holds no date, it is the one for the most favourable answers.
pub fn list_images(entries: &Vec<Entry>, date_in_name: bool) -> (r: Listing)
    requires
        forall|i: int| 0 <= i < entries@.len() ==> entry_ok(#[trigger] entries@[i]@),
        !listing_may_abort(entries_view(entries@), date_in_name),
    ensures
        exists|ans: Seq<bool>| list_answers_possible(entries_view(entries@), ans)
            && #[trigger] listing_is(&r, list_prefix(entries_view(entries@), date_in_name, ans, entries@.len() as int).0,
                list_prefix(entries_view(entries@), date_in_name, ans, entries@.len() as int).1),
        !(r is BadDateInName) ==> listing_is(&r,
            list_prefix(entries_view(entries@), date_in_name, name_answers(entries_view(entries@)), entries@.len() as int).0,
            list_prefix(entries_view(entries@), date_in_name, name_answers(entries_view(entries@)), entries@.len() as int).1),
        r matches Listing::Listed(rows) ==> forall|i: int| 0 <= i < rows@.len() ==> row_ok(#[trigger] rows@[i]@),
{
    let ghost es = entries_view(entries@);
    let (lines, bad, abort, ans) = run_listing(entries, date_in_name, false);
    proof {
        if abort is Some {
            let i = abort->Some_0 as int;
            lemma_list_favourable(es, date_in_name, ans@, i);
            assert(list_aborts_at(es, date_in_name, name_answers(es), i));
            assert(false);
        }
        if !bad {
            lemma_list_favourable(es, date_in_name, ans@, es.len() as int);
        }
    }
    let r = listing_of_lines(lines, bad);
    proof {
        assert(listing_is(&r, list_prefix(es, date_in_name, ans@, es.len() as int).0, list_prefix(es, date_in_name, ans@, es.len() as int).1));
    }
    r
}

/// The listing that the lines of the images give, `bad` when a name held no
/// date: the rows are the lines sorted, each cut into its columns.
fn listing_of_lines(lines: Vec<Vec<u8>>, bad: bool) -> (r: Listing)
    requires
        forall|j: int| 0 <= j < lines@.len() ==> line_ok(#[trigger] lines_view(lines@)[j]),
    ensures
        listing_is(&r, lines_view(lines@), bad),
        r matches Listing::Listed(rows) ==> forall|i: int| 0 <= i < rows@.len() ==> row_ok(#[trigger] rows@[i]@),
{
    if bad {
        let r = Listing::BadDateInName;
        return r;
    }
    if lines.len() == 0 {
        let r = Listing::NoImages;
        return r;
    }
    let sorted = sort_lines(&lines);
    let mut rows: Vec<Row> = Vec::new();
    let mut k: usize = 0;
    while k < sorted.len()
        invariant
            k <= sorted@.len(),
            rows@.len() == k,
            forall|j: int| 0 <= j < sorted@.len() ==> lines_view(lines@).contains(#[trigger] lines_view(sorted@)[j]),
            forall|j: int| 0 <= j < lines@.len() ==> line_ok(#[trigger] lines_view(lines@)[j]),
            forall|j: int| 0 <= j < k ==> #[trigger] rows@[j]@ == line_row(lines_view(sorted@)[j]) && row_ok(rows@[j]@),
        decreases sorted@.len() - k,
    {
        proof {
            assert(lines_view(lines@).contains(lines_view(sorted@)[k as int]));
            let m = choose|m: int| 0 <= m < lines_view(lines@).len() && lines_view(lines@)[m] == lines_view(sorted@)[k as int];
            assert(line_ok(lines_view(lines@)[m]));
            assert(sorted@[k as int]@ == lines_view(sorted@)[k as int]);
        }
        let row = line_to_row(sorted[k].as_slice());
        rows.push(row);
        k = k + 1;
    }
    let r = Listing::Listed(rows);
    proof {
        let sv = lines_view(sorted@);
        assert(rows_view(rows@) =~= Seq::new(sv.len(), |i: int| line_row(sv[i])));
        assert(line_rows(lines_view(lines@), rows_view(rows@)));
    }
    r
}


/// What a checked listing gives with these answers of chrono: `None` where
/// the tool aborts, else the listing, no entry aborting.
pub open spec fn checked_listing_is(r: Option<Listing>, es: Seq<EntryView>, date_in_name: bool, ans: Seq<bool>) -> bool {
    match r {
        None => exists|i: int| list_aborts_at(es, date_in_name, ans, i),
        Some(l) => (forall|i: int| !list_aborts_at(es, date_in_name, ans, i))
            && listing_is(&l, list_prefix(es, date_in_name, ans, es.len() as int).0,
                list_prefix(es, date_in_name, ans, es.len() as int).1),
    }
}

/// Lists the images as the tool does, chrono answering on each date read:
/// `None` when the tool aborts on an entry (an image name, read for a date,
/// that cannot be cut after its 23rd byte) before a name without a date
/// stops the listing.  That can only happen where [`listing_may_abort_exec`]
/// says it may; otherwise the outcome is that of [`list_images`].  One run
/// asks chrono once per date.
pub fn list_images_checked(entries: &Vec<Entry>, date_in_name: bool) -> (r: Option<Listing>)
    requires
        forall|i: int| 0 <= i < entries@.len() ==> entry_ok(#[trigger] entries@[i]@),
    ensures
        exists|ans: Seq<bool>| list_answers_possible(entries_view(entries@), ans)
            && #[trigger] checked_listing_is(r, entries_view(entries@), date_in_name, ans),
        r is None ==> listing_may_abort(entries_view(entries@), date_in_name),
        r matches Some(l) ==> (!(l is BadDateInName) ==> listing_is(&l,
            list_prefix(entries_view(entries@), date_in_name, name_answers(entries_view(entries@)), entries@.len() as int).0,
            list_prefix(entries_view(entries@), date_in_name, name_answers(entries_view(entries@)), entries@.len() as int).1)),
        r matches Some(Listing::Listed(rows)) ==> forall|i: int| 0 <= i < rows@.len() ==> row_ok(#[trigger] rows@[i]@),
{
    let ghost es = entries_view(entries@);
    if !listing_may_abort_exec(entries, date_in_name) {
        let l = list_images(entries, date_in_name);
        proof {
            let ans = choose|ans: Seq<bool>| list_answers_possible(es, ans)
                && #[trigger] listing_is(&l, list_prefix(es, date_in_name, ans, es.len() as int).0,
                    list_prefix(es, date_in_name, ans, es.len() as int).1);
            assert forall|i: int| !list_aborts_at(es, date_in_name, ans, i) by {
                if list_aborts_at(es, date_in_name, ans, i) {
                    lemma_list_favourable(es, date_in_name, ans, i);
                    assert(list_aborts_at(es, date_in_name, name_answers(es), i));
                }
            }
            assert(checked_listing_is(Some(l), es, date_in_name, ans));
        }
        return Some(l);
    }
    let (lines, bad, abort, ans) = run_listing(entries, date_in_name, false);
    if abort.is_some() {
        proof {
            let i = abort->Some_0 as int;
            lemma_list_favourable(es, date_in_name, ans@, i);
            assert(list_aborts_at(es, date_in_name, name_answers(es), i));
            assert(checked_listing_is(None, es, date_in_name, ans@));
        }
        return None;
    }
    proof {
        if !bad {
            lemma_list_favourable(es, date_in_name, ans@, es.len() as int);
        }
    }
    let l = listing_of_lines(lines, bad);
    proof {
        assert(checked_listing_is(Some(l), es, date_in_name, ans@));
    }
    Some(l)
}

} // verus!
