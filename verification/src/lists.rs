//! The hard drive listing and the checks on the names of the files the
//! tools write.

use vstd::prelude::*;
use crate::records::{
    build_list_record, can_get, get_ok, head_readable, head_size, law_list_record_read_back, lemma_name_key_ascii,
    lemma_name_key_len, list_record, name_key, push_name_key, read_tail, record_reference, starts_clean, TailRead,
};
use crate::text::{
    contains, contains_spec, dec_pad, find, is_first_occurrence, is_last_occurrence, parse_i64_or, parse_int, push_dec_pad,
    rfind, slice_to_vec_bytes,
};

verus! {

/// Whether a file path can be cut at its last `/` the way the listing does:
/// there is a `/`, and the byte after the last one starts a character.
pub open spec fn path_splits(path: Seq<u8>) -> bool {
    exists|i: int| is_last_occurrence(path, seq![47u8], i) && get_ok(path, i + 1, path.len() as int)
}

/// The record of one file of the hard drive listing: the name is the path
/// after its last `/`, the directory the path before it, the size in 16 digits.
pub open spec fn hd_record(reference: Seq<u8>, path: Seq<u8>, date: Seq<u8>, len: nat, slash: int) -> Seq<u8> {
    let name = path.subrange(slash + 1, path.len() as int);
    let dir = path.subrange(0, slash);
    list_record(name_key(name), dec_pad(len, 16), reference, dir, name, date)
}

/// Whether `path` can be cut as the listing needs.
pub fn path_can_split(path: &[u8]) -> (r: bool)
    ensures
        r == path_splits(path@),
{
    let slash: [u8; 1] = [47u8];
    assert(slash@ == seq![47u8]);
    match rfind(path, &slash) {
        None => {
            proof {
                assert forall|i: int| !is_last_occurrence(path@, seq![47u8], i) by {
                    if is_last_occurrence(path@, seq![47u8], i) {
                        assert(crate::text::occurs_at(path@, seq![47u8], i));
                    }
                }
            }
            false
        },
        Some(i) => {
            let ok = i < path.len() && can_get(path, i + 1, path.len());
            proof {
                assert forall|j: int| is_last_occurrence(path@, seq![47u8], j) implies j == i by {
                    if j < i {
                        assert(crate::text::occurs_at(path@, seq![47u8], i as int));
                    }
                }
            }
            ok
        },
    }
}

/// The listing record of the file at `path` (its display form), for the
/// drive called `reference`, with its modification date and length.
pub fn hd_list_record(reference: &[u8], path: &[u8], date: &[u8], len: u64) -> (r: Vec<u8>)
    requires
        path_splits(path@),
    ensures
        exists|i: int| is_last_occurrence(path@, seq![47u8], i) && r@ == hd_record(reference@, path@, date@, len as nat, i),
{
    let slash: [u8; 1] = [47u8];
    assert(slash@ == seq![47u8]);
    let i = match rfind(path, &slash) {
        Some(i) => i,
        None => {
            proof {
                let k = choose|k: int| is_last_occurrence(path@, seq![47u8], k) && get_ok(path@, k + 1, path@.len() as int);
                assert(crate::text::occurs_at(path@, seq![47u8], k));
            }
            0
        },
    };
    let n: usize = path.len();
    proof {
        assert(crate::text::occurs_at(path@, seq![47u8], i as int));
    }
    let name = &path[i + 1..n];
    let dir = &path[0..i];
    let mut key: Vec<u8> = Vec::new();
    push_name_key(&mut key, name);
    let mut size: Vec<u8> = Vec::new();
    push_dec_pad(&mut size, len, 16);
    proof {
        assert(key@ =~= name_key(name@));
        assert(size@ =~= dec_pad(len as nat, 16));
    }
    build_list_record(key.as_slice(), size.as_slice(), reference, dir, name, date)
}

/// A record of the hard drive listing is read back by the evaluation: the
/// key of the file name and the size from the head, the reference,
/// directory, name and date from the tail, when the name has at most 255
/// bytes and the other fields fit their length digits.
pub proof fn law_hd_record_reads_back(reference: Seq<u8>, path: Seq<u8>, date: Seq<u8>, len: nat, slash: int)
    requires
        is_last_occurrence(path, seq![47u8], slash),
        len < 10000000000000000,
        reference.len() < 100,
        slash < 1000,
        path.len() - slash - 1 <= 255,
        date.len() < 100,
        starts_clean(reference),
        starts_clean(path.subrange(0, slash)),
        starts_clean(path.subrange(slash + 1, path.len() as int)),
        starts_clean(date),
    ensures
        ({
            let l = hd_record(reference, path, date, len, slash);
            let name = path.subrange(slash + 1, path.len() as int);
            &&& l.len() >= 540
            &&& head_readable(l)
            &&& l.subrange(0, 512) == name_key(name)
            &&& head_size(l) == len
            &&& read_tail(l, l) == (TailRead::Fields { dir: path.subrange(0, slash), name, date })
            &&& record_reference(l) == reference
        }),
{
    let name = path.subrange(slash + 1, path.len() as int);
    lemma_name_key_len(name);
    lemma_name_key_ascii(name);
    law_list_record_read_back(name_key(name), len, reference, path.subrange(0, slash), name, date);
}

/// What is wrong with the name of a file to write.
#[derive(Clone, Copy, PartialEq, Eq, Debug, Structural)]
pub enum NameError {
    /// Fewer than 4 bytes.
    TooShort,
    /// No `.` in it.
    NoType,
    /// Fewer than 3 bytes after the last `.`.
    TypeTooShort,
    /// Fewer than 3 bytes before the first `.`.
    BaseTooShort,
}

pub open spec fn dot() -> Seq<u8> {
    seq![46u8]
}

/// The checks made on the name of a list file to write, in their order.
pub open spec fn name_check(name: Seq<u8>) -> Option<NameError> {
    if name.len() < 4 {
        Some(NameError::TooShort)
    } else if !contains_spec(name, dot()) {
        Some(NameError::NoType)
    } else if exists|i: int| is_last_occurrence(name, dot(), i) && name.len() - i < 4 {
        Some(NameError::TypeTooShort)
    } else if exists|i: int| is_first_occurrence(name, dot(), i) && i < 3 {
        Some(NameError::BaseTooShort)
    } else {
        None
    }
}

/// Checks the name of a list file to write (`None`: acceptable).
pub fn check_output_name(name: &[u8]) -> (r: Option<NameError>)
    ensures
        r == name_check(name@),
{
    if name.len() < 4 {
        return Some(NameError::TooShort);
    }
    let d: [u8; 1] = [46u8];
    assert(d@ == dot());
    if !contains(name, &d) {
        return Some(NameError::NoType);
    }
    let last = match rfind(name, &d) {
        Some(i) => i,
        None => return Some(NameError::NoType),
    };
    proof {
        assert forall|j: int| is_last_occurrence(name@, dot(), j) implies j == last by {
            if j < last {
                assert(crate::text::occurs_at(name@, dot(), last as int));
            }
        }
    }
    if name.len() - last < 4 {
        return Some(NameError::TypeTooShort);
    }
    let first = match find(name, &d) {
        Some(i) => i,
        None => return Some(NameError::NoType),
    };
    proof {
        assert forall|j: int| is_first_occurrence(name@, dot(), j) implies j == first by {
            crate::text::lemma_first_occurrence_unique(name@, dot(), j, first as int);
        }
    }
    if first < 3 {
        return Some(NameError::BaseTooShort);
    }
    None
}

/// What is wrong with the reference name of a drive.
#[derive(Clone, Copy, PartialEq, Eq, Debug, Structural)]
pub enum ReferenceError {
    /// Fewer than 3 bytes.
    TooShort,
    /// More than 15 bytes.
    TooLong,
}

/// Checks the reference name given to a hard drive listing.
pub fn check_reference(reference: &[u8]) -> (r: Option<ReferenceError>)
    ensures
        r == (if reference@.len() < 3 {
            Some(ReferenceError::TooShort)
        } else if reference@.len() > 15 {
            Some(ReferenceError::TooLong)
        } else {
            None
        }),
{
    if reference.len() < 3 {
        Some(ReferenceError::TooShort)
    } else if reference.len() > 15 {
        Some(ReferenceError::TooLong)
    } else {
        None
    }
}


/// The number of lines entered for a catalogue conversion: accepted from 10
/// on (`None` below, a text that is no `i64` counting as -99).
pub fn line_count_entry(text: &[u8]) -> (r: Option<i64>)
    ensures
        parse_i64_or(text@, -99) >= 10 ==> r == Some(parse_i64_or(text@, -99) as i64),
        parse_i64_or(text@, -99) < 10 ==> r is None,
{
    let n: i64 = match parse_int(text, -9223372036854775808, 9223372036854775807) {
        Some(v) => v,
        None => -99,
    };
    if n < 10 {
        None
    } else {
        Some(n)
    }
}

} // verus!
