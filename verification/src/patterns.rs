//! The regular expressions the tool applies, through the `regex` crate.

use vstd::prelude::*;
use vstd::utf8::valid_utf8;
use regex::bytes::Regex;
use crate::text::lines_view;

verus! {

pub open spec fn pattern_digits8() -> Seq<char> { "(\\d{8})"@ }
pub open spec fn pattern_digits6() -> Seq<char> { "(\\d{6})"@ }
pub open spec fn pattern_digits4() -> Seq<char> { "(\\d{4})"@ }
pub open spec fn pattern_not_alnum() -> Seq<char> { "[^A-Za-z0-9]"@ }
pub open spec fn pattern_not_alnum_dot() -> Seq<char> { "[^A-Za-z0-9.]"@ }

/// The successive non-overlapping matches of `pattern` in `text`, leftmost
/// first, as `regex::bytes::Regex::find_iter` gives them; `None` when the
/// pattern does not compile.
pub uninterp spec fn regex_matches(pattern: Seq<char>, text: Seq<u8>) -> Option<Seq<Seq<u8>>>;

/// `Regex::new(pattern)` then the text of each match of `find_iter(text)`.
///
/// The matches are named; stated besides is only that the digit-run patterns
/// the tool uses compile.
#[verifier::external_body]
pub(crate) fn find_all(pattern: &str, text: &[u8]) -> (r: Option<Vec<Vec<u8>>>)
    ensures
        match regex_matches(pattern@, text@) {
            None => r is None,
            Some(ms) => r matches Some(v) && lines_view(v@) == ms,
        },
        pattern@ == pattern_digits8() || pattern@ == pattern_digits6() || pattern@ == pattern_digits4()
            ==> r is Some,
{
    match Regex::new(pattern) {
        Ok(re) => Some(re.find_iter(text).map(|m| m.as_bytes().to_vec()).collect()),
        Err(_) => None,
    }
}

pub open spec fn is_alnum(b: u8) -> bool {
    (48 <= b <= 57) || (65 <= b <= 90) || (97 <= b <= 122)
}

pub open spec fn is_continuation(b: u8) -> bool {
    0x80 <= b <= 0xbf
}

/// UTF-8 text with every character other than an ASCII letter or digit (or,
/// with `keep_dot`, a `.`) replaced by `_`: a character of several bytes
/// becomes one `_`.
pub open spec fn underscored(s: Seq<u8>, keep_dot: bool) -> Seq<u8>
    decreases s.len(),
{
    if s.len() == 0 {
        Seq::empty()
    } else {
        let b = s.last();
        let rest = underscored(s.drop_last(), keep_dot);
        if is_continuation(b) {
            rest
        } else if is_alnum(b) || (keep_dot && b == 46) {
            rest.push(b)
        } else {
            rest.push(95u8)
        }
    }
}

/// What `Regex::new(pattern)?.replace_all(text, rep)` gives, `None` when the
/// pattern does not compile.
pub uninterp spec fn regex_replaced(pattern: Seq<char>, text: Seq<u8>, rep: Seq<u8>) -> Option<Seq<u8>>;

/// `Regex::new(pattern)` then `replace_all(text, rep)`.
///
/// Stated besides the name: the two character-class patterns the tool uses,
/// replaced by `_` in UTF-8 text, give [`underscored`] (each match of such a
/// class is one whole character).
#[verifier::external_body]
pub(crate) fn replace_all(pattern: &str, text: &[u8], rep: &[u8]) -> (r: Option<Vec<u8>>)
    ensures
        match regex_replaced(pattern@, text@, rep@) {
            None => r is None,
            Some(t) => r matches Some(v) && v@ == t,
        },
        pattern@ == pattern_not_alnum() && rep@ == seq![95u8] && valid_utf8(text@)
            ==> r is Some && r->Some_0@ == underscored(text@, false),
        pattern@ == pattern_not_alnum_dot() && rep@ == seq![95u8] && valid_utf8(text@)
            ==> r is Some && r->Some_0@ == underscored(text@, true),
{
    match Regex::new(pattern) {
        Ok(re) => Some(re.replace_all(text, rep).into_owned()),
        Err(_) => None,
    }
}

} // verus!
