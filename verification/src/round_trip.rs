//! What the tool writes, it reads back: a date written in the list, as the
//! date to assign or at the start of a new file name is read as the same date
//! by the steps that take it up again.

use vstd::prelude::*;
use crate::date_text::{
    answer_possible, date_candidate, favourable, fields_of, name_candidate, name_cut_ok, name_date_with, name_favourable,
    no_dir_date, piece_value, text_date_with,
};
use crate::dates::{file_name_text, stamp_text, stamp_tuple, stamp_valid, year_text, Stamp};
use crate::patterns::{is_alnum, is_continuation, underscored};
use crate::text::{
    all_digits, dec_pad, is_digit, lemma_dec_len_bound, lemma_dec_pad_parse, lemma_first_sep_exists, lemma_split_first,
    lemma_split_shape, pow10, split_spec,
};
use crate::updates::{mark_500, updated_row, RowView};
use crate::settings::{label_cut_ok, label_fields, tag_y, tag_ym, tag_ymd, UpdateSettings};
use crate::copies::{all_dates, copy_of, copy_step, copy_wanted, path_in, CopyView};
use crate::dates::assign_text;
use crate::text::{digits_value, parse_i32_or};

verus! {

/// A separator the tool writes between the fields of a date: ASCII, neither
/// a letter, a digit nor a dot.
pub open spec fn separator(c: u8) -> bool {
    c < 0x80 && !is_alnum(c) && c != 46
}

proof fn lemma_underscored_concat(a: Seq<u8>, b: Seq<u8>, keep_dot: bool)
    ensures
        underscored(a + b, keep_dot) == underscored(a, keep_dot) + underscored(b, keep_dot),
    decreases b.len(),
{
    if b.len() == 0 {
        assert(a + b =~= a);
        assert(underscored(a, keep_dot) + underscored(b, keep_dot) =~= underscored(a, keep_dot));
    } else {
        assert((a + b).drop_last() =~= a + b.drop_last());
        assert((a + b).last() == b.last());
        lemma_underscored_concat(a, b.drop_last(), keep_dot);
        let ua = underscored(a, keep_dot);
        let ub = underscored(b.drop_last(), keep_dot);
        assert((ua + ub).push(b.last()) =~= ua + ub.push(b.last()));
        assert((ua + ub).push(95u8) =~= ua + ub.push(95u8));
    }
}

proof fn lemma_underscored_digits(d: Seq<u8>, keep_dot: bool)
    requires
        all_digits(d),
    ensures
        underscored(d, keep_dot) == d,
    decreases d.len(),
{
    if d.len() > 0 {
        assert(all_digits(d.drop_last())) by {
            assert forall|i: int| 0 <= i < d.drop_last().len() implies is_digit(#[trigger] d.drop_last()[i]) by {
                assert(d.drop_last()[i] == d[i]);
            }
        }
        lemma_underscored_digits(d.drop_last(), keep_dot);
        assert(is_digit(d[d.len() - 1]));
        assert(d.drop_last().push(d.last()) =~= d);
    }
}

proof fn lemma_underscored_separator(c: u8, keep_dot: bool)
    requires
        separator(c),
    ensures
        underscored(seq![c], keep_dot) == seq![95u8],
{
    assert(seq![c].drop_last() =~= Seq::<u8>::empty());
    assert(seq![c].last() == c);
    assert(underscored(Seq::<u8>::empty(), keep_dot) =~= Seq::<u8>::empty());
    assert(!is_continuation(c));
    assert(!(is_alnum(c) || (keep_dot && c == 46)));
    assert(Seq::<u8>::empty().push(95u8) =~= seq![95u8]);
}

/// The digits of a field written `w` wide, and what they read as.
proof fn lemma_field(n: nat, w: nat)
    requires
        w >= 1,
        n < pow10(w),
        n <= i32::MAX,
    ensures
        all_digits(dec_pad(n, w)),
        dec_pad(n, w).len() == w,
        piece_value(dec_pad(n, w)) == n,
        forall|i: int| 0 <= i < dec_pad(n, w).len() ==> #[trigger] dec_pad(n, w)[i] != 95u8,
{
    lemma_dec_len_bound(n, w);
    lemma_dec_pad_parse(n, w, i32::MIN as int, i32::MAX as int);
    let p = dec_pad(n, w);
    assert forall|i: int| 0 <= i < p.len() implies #[trigger] p[i] != 95u8 by {
        assert(is_digit(p[i]));
    }
}

/// Splitting at the first separator of `p + sep + rest`, `p` holding none.
proof fn lemma_split_cons(p: Seq<u8>, rest: Seq<u8>, sep: u8)
    requires
        forall|i: int| 0 <= i < p.len() ==> #[trigger] p[i] != sep,
    ensures
        split_spec(p + seq![sep] + rest, sep) == seq![p] + split_spec(rest, sep),
{
    let s = p + seq![sep] + rest;
    let i = p.len() as int;
    assert(s[i] == sep);
    assert forall|j: int| 0 <= j < i implies s[j] != sep by {
        assert(s[j] == p[j]);
    }
    lemma_split_first(s, sep, i);
    assert(s.take(i) =~= p);
    assert(s.skip(i + 1) =~= rest);
}

proof fn lemma_split_alone(p: Seq<u8>, sep: u8)
    requires
        forall|i: int| 0 <= i < p.len() ==> #[trigger] p[i] != sep,
    ensures
        split_spec(p, sep) == seq![p],
{
    lemma_split_shape(p, sep);
}

/// The fields of a stamp as the tool writes them.
pub open spec fn stamp_fields(st: Stamp) -> Seq<Seq<u8>> {
    seq![
        year_text(st.year as int),
        dec_pad(st.month as nat, 2),
        dec_pad(st.day as nat, 2),
        dec_pad(st.hour as nat, 2),
        dec_pad(st.minute as nat, 2),
        dec_pad(st.second as nat, 2)
    ]
}

proof fn lemma_stamp_fields(st: Stamp)
    requires
        stamp_valid(st),
        0 <= st.year <= 9999,
    ensures
        forall|k: int| 0 <= k < 6 ==> all_digits(#[trigger] stamp_fields(st)[k]),
        forall|k: int, i: int| 0 <= k < 6 && 0 <= i < stamp_fields(st)[k].len() ==> #[trigger] stamp_fields(st)[k][i] != 95u8,
        stamp_fields(st)[0].len() == 4,
        forall|k: int| 1 <= k < 6 ==> #[trigger] stamp_fields(st)[k].len() == 2,
        piece_value(stamp_fields(st)[0]) == st.year,
        piece_value(stamp_fields(st)[1]) == st.month,
        piece_value(stamp_fields(st)[2]) == st.day,
        piece_value(stamp_fields(st)[3]) == st.hour,
        piece_value(stamp_fields(st)[4]) == st.minute,
        piece_value(stamp_fields(st)[5]) == st.second,
{
    reveal_with_fuel(pow10, 5);
    lemma_field(st.year as nat, 4);
    lemma_field(st.month as nat, 2);
    lemma_field(st.day as nat, 2);
    lemma_field(st.hour as nat, 2);
    lemma_field(st.minute as nat, 2);
    lemma_field(st.second as nat, 2);
}

/// Splitting `a + sep + b`, `b` holding no separator: the pieces of `a`, then `b`.
proof fn lemma_split_snoc(a: Seq<u8>, b: Seq<u8>, sep: u8)
    requires
        forall|i: int| 0 <= i < b.len() ==> #[trigger] b[i] != sep,
    ensures
        split_spec(a + seq![sep] + b, sep) == split_spec(a, sep).push(b),
    decreases a.len(),
{
    let s = a + seq![sep] + b;
    if exists|j: int| 0 <= j < a.len() && a[j] == sep {
        lemma_first_sep_exists(a, sep);
        let f = choose|f: int| 0 <= f < a.len() && a[f] == sep && forall|j: int| 0 <= j < f ==> a[j] != sep;
        lemma_split_first(a, sep, f);
        assert(s[f] == sep);
        assert forall|j: int| 0 <= j < f implies s[j] != sep by {
            assert(s[j] == a[j]);
        }
        lemma_split_first(s, sep, f);
        assert(s.take(f) =~= a.take(f));
        assert(s.skip(f + 1) =~= a.skip(f + 1) + seq![sep] + b);
        lemma_split_snoc(a.skip(f + 1), b, sep);
        assert(seq![a.take(f)] + split_spec(a.skip(f + 1), sep).push(b)
            =~= (seq![a.take(f)] + split_spec(a.skip(f + 1), sep)).push(b));
    } else {
        lemma_split_cons(a, b, sep);
        lemma_split_alone(b, sep);
        lemma_split_alone(a, sep);
        assert(seq![a] + seq![b] =~= seq![a].push(b));
    }
}

/// A stamp written with underscores splits into its six fields.
proof fn lemma_split_file_name_text(st: Stamp)
    requires
        stamp_valid(st),
        0 <= st.year <= 9999,
    ensures
        split_spec(file_name_text(st), 95u8) == stamp_fields(st),
{
    lemma_stamp_fields(st);
    let f = stamp_fields(st);
    let u = seq![95u8];
    let a2 = f[0] + u + f[1];
    let a4 = a2 + u + f[2];
    let a6 = a4 + u + f[3];
    let a8 = a6 + u + f[4];
    let a10 = a8 + u + f[5];
    assert(file_name_text(st) == a10);
    assert(forall|i: int| 0 <= i < f[1].len() ==> #[trigger] f[1][i] != 95u8);
    assert(forall|i: int| 0 <= i < f[2].len() ==> #[trigger] f[2][i] != 95u8);
    assert(forall|i: int| 0 <= i < f[3].len() ==> #[trigger] f[3][i] != 95u8);
    assert(forall|i: int| 0 <= i < f[4].len() ==> #[trigger] f[4][i] != 95u8);
    assert(forall|i: int| 0 <= i < f[5].len() ==> #[trigger] f[5][i] != 95u8);
    assert(forall|i: int| 0 <= i < f[0].len() ==> #[trigger] f[0][i] != 95u8);
    lemma_split_alone(f[0], 95u8);
    lemma_split_snoc(f[0], f[1], 95u8);
    lemma_split_snoc(a2, f[2], 95u8);
    lemma_split_snoc(a4, f[3], 95u8);
    lemma_split_snoc(a6, f[4], 95u8);
    lemma_split_snoc(a8, f[5], 95u8);
    assert(split_spec(a10, 95u8) =~= f);
}

/// A stamp written with any separators reads, once every separator is an
/// underscore, as written with underscores.
proof fn lemma_underscored_stamp(st: Stamp, dsep: u8, mid: u8, tsep: u8)
    requires
        stamp_valid(st),
        0 <= st.year <= 9999,
        separator(dsep),
        separator(mid),
        separator(tsep),
    ensures
        underscored(stamp_text(st, dsep, mid, tsep), false) == file_name_text(st),
{
    lemma_stamp_fields(st);
    let f = stamp_fields(st);
    lemma_underscored_digits(f[0], false);
    lemma_underscored_digits(f[1], false);
    lemma_underscored_digits(f[2], false);
    lemma_underscored_digits(f[3], false);
    lemma_underscored_digits(f[4], false);
    lemma_underscored_digits(f[5], false);
    lemma_underscored_separator(dsep, false);
    lemma_underscored_separator(mid, false);
    lemma_underscored_separator(tsep, false);
    let a1 = f[0] + seq![dsep];
    let a2 = a1 + f[1];
    let a3 = a2 + seq![dsep];
    let a4 = a3 + f[2];
    let a5 = a4 + seq![mid];
    let a6 = a5 + f[3];
    let a7 = a6 + seq![tsep];
    let a8 = a7 + f[4];
    let a9 = a8 + seq![tsep];
    let a10 = a9 + f[5];
    assert(stamp_text(st, dsep, mid, tsep) == a10);
    lemma_underscored_concat(f[0], seq![dsep], false);
    lemma_underscored_concat(a1, f[1], false);
    lemma_underscored_concat(a2, seq![dsep], false);
    lemma_underscored_concat(a3, f[2], false);
    lemma_underscored_concat(a4, seq![mid], false);
    lemma_underscored_concat(a5, f[3], false);
    lemma_underscored_concat(a6, seq![tsep], false);
    lemma_underscored_concat(a7, f[4], false);
    lemma_underscored_concat(a8, seq![tsep], false);
    lemma_underscored_concat(a9, f[5], false);
}

/// A date the tool writes with ASCII punctuation between its fields (the
/// date of the list, the date to assign, the date of a new file name) is
/// read back as the same date by the steps that take it up again, for the
/// years 0 to 9999: chrono is asked about that date, and the date comes back
/// when it confirms it.
pub proof fn law_written_date_reads_back(st: Stamp, dsep: u8, mid: u8, tsep: u8)
    requires
        stamp_valid(st),
        0 <= st.year <= 9999,
        separator(dsep),
        separator(mid),
        separator(tsep),
    ensures
        date_candidate(stamp_text(st, dsep, mid, tsep), no_dir_date()) == Some(stamp_tuple(st)),
        favourable(date_candidate(stamp_text(st, dsep, mid, tsep), no_dir_date())),
        text_date_with(stamp_text(st, dsep, mid, tsep), no_dir_date(), true) == Some(st),
{
    lemma_underscored_stamp(st, dsep, mid, tsep);
    lemma_split_file_name_text(st);
    let f = stamp_fields(st);
    lemma_stamp_fields(st);
    let pieces = split_spec(file_name_text(st), 95u8);
    assert(pieces == f);
    assert(!(exists|i: int| 0 <= i < pieces.len() && piece_value(#[trigger] pieces[i]) == -9999)) by {
        assert forall|i: int| 0 <= i < pieces.len() implies piece_value(#[trigger] pieces[i]) != -9999 by {
            assert(piece_value(f[i]) >= 0) by {
                if i == 0 {} else if i == 1 {} else if i == 2 {} else if i == 3 {} else if i == 4 {} else {}
            }
        }
    }
    let v = fields_of(pieces, 6);
    assert(v == Some(Seq::new(6, |i: int| piece_value(pieces[i]))));
}

/// `500`
pub open spec fn text_500() -> Seq<u8> {
    seq![53u8, 48u8, 48u8]
}

/// `500` reads as 500.
proof fn lemma_five_hundred()
    ensures
        piece_value(text_500()) == 500,
        forall|i: int| 0 <= i < text_500().len() ==> #[trigger] text_500()[i] != 95u8,
{
    let t = seq![53u8, 48u8, 48u8];
    assert(t.drop_last() =~= seq![53u8, 48u8]);
    assert(t.drop_last().drop_last() =~= seq![53u8]);
    assert(t.drop_last().drop_last().drop_last() =~= Seq::<u8>::empty());
    assert(crate::text::digits_value(Seq::<u8>::empty()) == 0);
    assert(crate::text::digits_value(seq![53u8]) == 5);
    assert(crate::text::digits_value(seq![53u8, 48u8]) == 50);
    assert(crate::text::digits_value(t) == 500);
    assert(all_digits(t));
}

/// The first 23 bytes of a new file name split into the six fields of its
/// date and `500`.
proof fn lemma_split_name_head(st: Stamp)
    requires
        stamp_valid(st),
        0 <= st.year <= 9999,
    ensures
        split_spec(file_name_text(st) + seq![95u8, 53u8, 48u8, 48u8], 95u8) == stamp_fields(st).push(text_500()),
{
    lemma_five_hundred();
    lemma_split_file_name_text(st);
    assert(file_name_text(st) + seq![95u8, 53u8, 48u8, 48u8] =~= file_name_text(st) + seq![95u8] + text_500());
    lemma_split_snoc(file_name_text(st), text_500(), 95u8);
}

/// A file renamed by the tool (`YYYY_MM_DD_hh_mm_ss`, `_500_`, and the
/// rest of its new name) gives back its date when dates are read from the
/// file names, for the years 0 to 9999; chrono is asked about that date.
pub proof fn law_renamed_file_reads_back(st: Stamp, rest: Seq<u8>)
    requires
        stamp_valid(st),
        0 <= st.year <= 9999,
        rest.len() > 0,
    ensures
        name_cut_ok(file_name_text(st) + mark_500() + rest),
        name_favourable(file_name_text(st) + mark_500() + rest),
        name_date_with(file_name_text(st) + mark_500() + rest, true) == Some(st),
{
    lemma_stamp_fields(st);
    lemma_five_hundred();
    lemma_split_name_head(st);
    let f = stamp_fields(st);
    let name = file_name_text(st) + mark_500() + rest;
    let head = file_name_text(st) + seq![95u8, 53u8, 48u8, 48u8];
    assert(file_name_text(st).len() == 19);
    assert(name.take(23) =~= head);
    assert(name[23] == 95u8);
    let pieces = split_spec(head, 95u8);
    assert(pieces == f.push(text_500()));
    assert forall|i: int| 0 <= i < pieces.len() implies piece_value(#[trigger] pieces[i]) != -9999 by {
        if i < 6 {
            assert(pieces[i] == f[i]);
            if i == 0 {} else if i == 1 {} else if i == 2 {} else if i == 3 {} else if i == 4 {} else {}
        }
    }
    assert(name_candidate(name) == Some(Seq::new(7, |i: int| piece_value(pieces[i]))));
}


// ---------------------------------------------------------------- folder labels

proof fn lemma_digits_value_bound(d: Seq<u8>)
    requires
        all_digits(d),
    ensures
        digits_value(d) < pow10(d.len()),
    decreases d.len(),
{
    if d.len() > 0 {
        assert(all_digits(d.drop_last())) by {
            assert forall|i: int| 0 <= i < d.drop_last().len() implies is_digit(#[trigger] d.drop_last()[i]) by {
                assert(d.drop_last()[i] == d[i]);
            }
        }
        lemma_digits_value_bound(d.drop_last());
        assert(is_digit(d[d.len() - 1]));
        assert(pow10(d.len()) == 10 * pow10((d.len() - 1) as nat));
    }
}

/// A run of at most four digits reads as its value.
proof fn lemma_read_digits(d: Seq<u8>)
    requires
        all_digits(d),
        1 <= d.len() <= 4,
    ensures
        parse_i32_or(d, -99) == digits_value(d),
{
    lemma_digits_value_bound(d);
    reveal_with_fuel(pow10, 5);
    assert(is_digit(d[0]));
}

proof fn lemma_all_digits_sub(d: Seq<u8>, a: int, e: int)
    requires
        all_digits(d),
        0 <= a <= e <= d.len(),
    ensures
        all_digits(d.subrange(a, e)),
{
    assert forall|i: int| 0 <= i < d.subrange(a, e).len() implies is_digit(#[trigger] d.subrange(a, e)[i]) by {
        assert(d.subrange(a, e)[i] == d[a + i]);
    }
}

/// The folder date label is read back by the update: `YYYYMMDD: ` and eight
/// digits give year, month and day, `YYYYMM: ` and six digits year and month,
/// `YYYY: ` and four digits the year, each the value of its digits.
pub proof fn law_label_reads_back(d: Seq<u8>)
    requires
        all_digits(d),
        d.len() == 8 || d.len() == 6 || d.len() == 4,
    ensures
        d.len() == 8 ==> label_cut_ok(tag_ymd() + d) && label_fields(tag_ymd() + d) == Some((
            digits_value(d.subrange(0, 4)) as int,
            Some(digits_value(d.subrange(4, 6)) as int),
            Some(digits_value(d.subrange(6, 8)) as int),
        )),
        d.len() == 6 ==> label_cut_ok(tag_ym() + d) && label_fields(tag_ym() + d) == Some((
            digits_value(d.subrange(0, 4)) as int,
            Some(digits_value(d.subrange(4, 6)) as int),
            None::<int>,
        )),
        d.len() == 4 ==> label_cut_ok(tag_y() + d) && label_fields(tag_y() + d) == Some((
            digits_value(d) as int,
            None::<int>,
            None::<int>,
        )),
{
    if d.len() == 8 {
        let t = tag_ymd() + d;
        assert(t.subrange(10, 14) =~= d.subrange(0, 4));
        assert(t.subrange(14, 16) =~= d.subrange(4, 6));
        assert(t.subrange(16, 18) =~= d.subrange(6, 8));
        lemma_all_digits_sub(d, 0, 4);
        lemma_all_digits_sub(d, 4, 6);
        lemma_all_digits_sub(d, 6, 8);
        lemma_read_digits(d.subrange(0, 4));
        lemma_read_digits(d.subrange(4, 6));
        lemma_read_digits(d.subrange(6, 8));
        assert(is_digit(t[14]) && is_digit(t[16]));
    } else if d.len() == 6 {
        let t = tag_ym() + d;
        assert(t.subrange(8, 12) =~= d.subrange(0, 4));
        assert(t.subrange(12, 14) =~= d.subrange(4, 6));
        lemma_all_digits_sub(d, 0, 4);
        lemma_all_digits_sub(d, 4, 6);
        lemma_read_digits(d.subrange(0, 4));
        lemma_read_digits(d.subrange(4, 6));
        assert(is_digit(t[8]) && is_digit(t[12]));
    } else {
        let t = tag_y() + d;
        assert(t.subrange(6, 10) =~= d);
        lemma_read_digits(d);
        assert(is_digit(t[6]));
    }
}

// ---------------------------------------------------------------- rows

/// A renamed row's new name carries the date it assigns: reading the date
/// from the new name gives the date to assign, for the years 0 to 9999.
pub proof fn law_new_name_carries_date(r: RowView, s: UpdateSettings, a1: bool, a2: bool)
    requires
        s.rename,
        updated_row(r, s, a1, a2) is Ok,
        answer_possible(date_candidate(updated_row(r, s, a1, a2)->Ok_0.assigned, no_dir_date()), a2),
        text_date_with(updated_row(r, s, a1, a2)->Ok_0.assigned, no_dir_date(), a2) matches Some(st)
            && 0 <= st.year <= 9999,
    ensures
        name_date_with(updated_row(r, s, a1, a2)->Ok_0.new_name, true)
            == text_date_with(updated_row(r, s, a1, a2)->Ok_0.assigned, no_dir_date(), a2),
{
    let x = updated_row(r, s, a1, a2)->Ok_0;
    let st = text_date_with(x.assigned, no_dir_date(), a2)->Some_0;
    let parts = crate::updates::name_parts(r.name)->Some_0;
    let short = crate::updates::short_name(parts.0, parts.1, s.file_len as int);
    let l = parts.0.len() as int;
    let n = s.file_len as int;
    let head = if l < n { crate::updates::xs((n - l) as nat) + parts.0 } else { parts.0.skip(l - n) };
    assert(short == head + seq![46u8] + parts.1);
    lemma_underscored_concat(head + seq![46u8], parts.1, true);
    lemma_underscored_concat(head, seq![46u8], true);
    assert(seq![46u8].drop_last() =~= Seq::<u8>::empty());
    assert(underscored(Seq::<u8>::empty(), true) =~= Seq::<u8>::empty());
    assert(underscored(seq![46u8], true) =~= seq![46u8]);
    assert(underscored(short, true).len() >= 1);
    assert(stamp_valid(st));
    law_renamed_file_reads_back(st, underscored(short, true));
}

/// A copy sets the dates of the file to the row's date to assign, unchanged,
/// when that date is in the tool's format (years 0 to 9999).
pub proof fn law_copy_keeps_assigned_date(r: RowView, from_dir: Seq<u8>, to_dir: Seq<u8>, st: Stamp)
    requires
        copy_wanted(r),
        stamp_valid(st),
        0 <= st.year <= 9999,
        r.assigned == assign_text(st),
    ensures
        copy_step(r, from_dir, to_dir, true) == Some(CopyView {
            from: path_in(from_dir, r.name),
            to: path_in(to_dir, r.new_name),
            date_arg: all_dates() + r.assigned,
        }),
{
    law_written_date_reads_back(st, 58u8, 32u8, 58u8);
    reveal(copy_step);
}

} // verus!
