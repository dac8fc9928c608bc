//! Facts about UTF-8 validity of the texts the tool builds.

use vstd::prelude::*;
use vstd::utf8::{
    is_char_boundary, is_char_boundary_iff_not_is_continuation_byte,
    is_char_boundary_start_end_of_seq, partial_valid_utf8, partial_valid_utf8_extend_ascii_block,
    valid_utf8, valid_utf8_concat, valid_utf8_split,
};
use crate::records::{ascii, boundary};
use crate::text::{lemma_first_sep_exists, lemma_split_first, lemma_split_shape, split_spec};

verus! {

/// ASCII text is valid UTF-8.
pub proof fn lemma_ascii_valid(s: Seq<u8>)
    requires
        ascii(s),
    ensures
        valid_utf8(s),
{
    assert(s.subrange(0, 0) =~= Seq::<u8>::empty());
    assert(valid_utf8(Seq::<u8>::empty()));
    assert(partial_valid_utf8(s, 0));
    assert forall|i: int| 0 <= 0 <= i < s.len() <= s.len() implies #[trigger] vstd::utf8::is_leading_byte_width_1(s[i]) by {
        assert(s[i] < 0x80);
    }
    partial_valid_utf8_extend_ascii_block(s, 0, s.len() as int);
    assert(s.subrange(0, s.len() as int) =~= s);
}

/// For valid UTF-8 the boundary of `str::is_char_boundary` is vstd's.
pub proof fn lemma_boundary_is_char_boundary(s: Seq<u8>, i: int)
    requires
        valid_utf8(s),
        boundary(s, i),
    ensures
        is_char_boundary(s, i),
{
    is_char_boundary_start_end_of_seq(s);
    if 0 < i < s.len() {
        is_char_boundary_iff_not_is_continuation_byte(s, i);
    }
}

/// Cutting valid UTF-8 at a boundary leaves valid UTF-8 on both sides.
pub proof fn lemma_cut_valid(s: Seq<u8>, i: int)
    requires
        valid_utf8(s),
        boundary(s, i),
    ensures
        valid_utf8(s.take(i)),
        valid_utf8(s.skip(i)),
{
    lemma_boundary_is_char_boundary(s, i);
    valid_utf8_split(s, i);
    assert(s.take(i) =~= s.subrange(0, i));
    assert(s.skip(i) =~= s.subrange(i, s.len() as int));
}

pub proof fn lemma_concat_valid(a: Seq<u8>, b: Seq<u8>)
    requires
        valid_utf8(a),
        valid_utf8(b),
    ensures
        valid_utf8(a + b),
{
    valid_utf8_concat(a, b);
}

/// Valid UTF-8 cut around an ASCII byte: the parts before and after it are
/// valid UTF-8.
pub proof fn lemma_cut_around_ascii(s: Seq<u8>, i: int)
    requires
        valid_utf8(s),
        0 <= i < s.len(),
        s[i] < 0x80,
    ensures
        valid_utf8(s.take(i)),
        valid_utf8(s.skip(i + 1)),
{
    lemma_cut_valid(s, i);
    let rest = s.skip(i);
    assert(rest[0] == s[i]);
    assert(boundary(rest, 1)) by {
        if rest.len() > 1 {
            assert(valid_utf8(rest));
            // the byte after an ASCII byte starts a character
            lemma_after_ascii(rest);
        }
    }
    lemma_cut_valid(rest, 1);
    assert(rest.skip(1) =~= s.skip(i + 1));
}

proof fn lemma_after_ascii(s: Seq<u8>)
    requires
        valid_utf8(s),
        s.len() > 1,
        s[0] < 0x80,
    ensures
        !(0x80 <= s[1] && s[1] <= 0xbf),
{
    is_char_boundary_iff_not_is_continuation_byte(s, 0);
    reveal_with_fuel(is_char_boundary, 2);
    assert(vstd::utf8::pop_first_scalar(s) =~= s.subrange(1, s.len() as int));
    is_char_boundary_iff_not_is_continuation_byte(s, 1);
}

/// Splitting valid UTF-8 at an ASCII byte gives valid UTF-8 pieces.
pub proof fn lemma_split_valid(s: Seq<u8>, sep: u8)
    requires
        valid_utf8(s),
        sep < 0x80,
    ensures
        forall|k: int| 0 <= k < split_spec(s, sep).len() ==> valid_utf8(#[trigger] split_spec(s, sep)[k]),
    decreases s.len(),
{
    lemma_split_shape(s, sep);
    if exists|j: int| 0 <= j < s.len() && s[j] == sep {
        lemma_first_sep_exists(s, sep);
        let f = choose|f: int| 0 <= f < s.len() && s[f] == sep && forall|j: int| 0 <= j < f ==> s[j] != sep;
        lemma_split_first(s, sep, f);
        lemma_cut_around_ascii(s, f);
        let rest = s.skip(f + 1);
        lemma_split_valid(rest, sep);
        assert forall|k: int| 0 <= k < split_spec(s, sep).len() implies valid_utf8(#[trigger] split_spec(s, sep)[k]) by {
            if k > 0 {
                assert(split_spec(s, sep)[k] == split_spec(rest, sep)[k - 1]);
            }
        }
    }
}

} // verus!
