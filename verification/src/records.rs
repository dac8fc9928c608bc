//! The fixed-layout list record shared by the disc catalogue and the hard
//! drive listing, and the reading of its fields back.
//!
//! A record is: the name as 512 upper-case hex digits (zero bytes appended up
//! to 256 bytes), the size in 16 digits, a blank, then the reference name, the
//! directory, the file name and the date, each preceded by its length in
//! bytes written in 2, 3, 3 and 2 digits.

use vstd::prelude::*;
use crate::text::{
    dec, dec_pad, hex_bytes, hex_digit, lex_lt, zeros, lemma_dec_len_bound, lemma_dec_pad_parse, lemma_hex_ascii, pow10, lemma_hex_bytes_len, parse_i32_or, parse_i64_or, parse_int, push_all,
    push_dec_pad, push_hex, slice_to_vec_bytes,
};

use vstd::utf8::valid_utf8;

verus! {

/// `str::is_char_boundary` on the bytes of a `str`.
pub open spec fn boundary(b: Seq<u8>, i: int) -> bool {
    i == 0 || i == b.len() || (0 < i < b.len() && !(0x80 <= b[i] && b[i] <= 0xbf))
}

/// `line.get(a..e)` is `Some`.
pub open spec fn get_ok(b: Seq<u8>, a: int, e: int) -> bool {
    0 <= a <= e <= b.len() && boundary(b, a) && boundary(b, e)
}

pub fn is_boundary(b: &[u8], i: usize) -> (r: bool)
    ensures
        r == boundary(b@, i as int),
{
    if i == 0 || i == b.len() {
        true
    } else if i > b.len() {
        false
    } else {
        !(0x80 <= b[i] && b[i] <= 0xbf)
    }
}

/// Whether `line.get(a..e)` succeeds.
pub fn can_get(b: &[u8], a: usize, e: usize) -> (r: bool)
    ensures
        r == get_ok(b@, a as int, e as int),
{
    a <= e && e <= b.len() && is_boundary(b, a) && is_boundary(b, e)
}

/// The key of a file name: its bytes in hex, zero bytes appended up to 256
/// bytes; a name longer than 255 bytes gives only the first 511 hex digits.
pub open spec fn name_key(name: Seq<u8>) -> Seq<u8> {
    if name.len() > 255 {
        hex_bytes(name).take(511)
    } else {
        hex_bytes(name) + Seq::new((2 * (256 - name.len())) as nat, |i: int| 48u8)
    }
}

pub proof fn lemma_name_key_len(name: Seq<u8>)
    ensures
        name.len() <= 255 ==> name_key(name).len() == 512,
        name.len() > 255 ==> name_key(name).len() == 511,
{
    lemma_hex_bytes_len(name);
}

/// Appends the key of `name`.
pub fn push_name_key(out: &mut Vec<u8>, name: &[u8])
    ensures
        final(out)@ == old(out)@ + name_key(name@),
{
    let ghost start = out@;
    let mut hex: Vec<u8> = Vec::new();
    push_hex(&mut hex, name);
    proof {
        lemma_hex_bytes_len(name@);
        assert(hex@ =~= hex_bytes(name@));
    }
    if name.len() > 255 {
        push_all(out, &hex.as_slice()[0..511]);
        proof {
            assert(out@ =~= start + name_key(name@));
        }
    } else {
        push_all(out, hex.as_slice());
        let mut k: usize = name.len();
        while k < 256
            invariant
                name@.len() <= k <= 256,
                out@ == start + hex_bytes(name@) + Seq::new((2 * (k - name@.len())) as nat, |i: int| 48u8),
            decreases 256 - k,
        {
            out.push(48);
            out.push(48);
            k = k + 1;
            proof {
                assert(out@ =~= start + hex_bytes(name@) + Seq::new((2 * (k - name@.len())) as nat, |i: int| 48u8));
            }
        }
        proof {
            assert(out@ =~= start + name_key(name@));
        }
    }
}

/// The record line the tools write for one file (the line break included).
pub open spec fn list_record(key: Seq<u8>, size: Seq<u8>, reference: Seq<u8>, dir: Seq<u8>, name: Seq<u8>, date: Seq<u8>) -> Seq<u8> {
    key + size + seq![32u8]
        + dec_pad(reference.len(), 2) + reference
        + dec_pad(dir.len(), 3) + dir
        + dec_pad(name.len(), 3) + name
        + dec_pad(date.len(), 2) + date
        + seq![10u8]
}

/// Builds a record line.
pub fn build_list_record(key: &[u8], size: &[u8], reference: &[u8], dir: &[u8], name: &[u8], date: &[u8]) -> (r: Vec<u8>)
    ensures
        r@ == list_record(key@, size@, reference@, dir@, name@, date@),
{
    let mut out: Vec<u8> = Vec::new();
    push_all(&mut out, key);
    push_all(&mut out, size);
    out.push(32);
    push_dec_pad(&mut out, reference.len() as u64, 2);
    push_all(&mut out, reference);
    push_dec_pad(&mut out, dir.len() as u64, 3);
    push_all(&mut out, dir);
    push_dec_pad(&mut out, name.len() as u64, 3);
    push_all(&mut out, name);
    push_dec_pad(&mut out, date.len() as u64, 2);
    push_all(&mut out, date);
    out.push(10);
    proof {
        assert(out@ =~= list_record(key@, size@, reference@, dir@, name@, date@));
    }
    out
}

/// The line written to the same / different / not found lists for a hard
/// drive file: directory, name, the literal `16`, the size in 16 digits, date.
pub open spec fn result_line(dir: Seq<u8>, name: Seq<u8>, len: nat, date: Seq<u8>) -> Seq<u8> {
    dec_pad(dir.len(), 3) + dir + dec_pad(name.len(), 3) + name + seq![49u8, 54u8]
        + dec_pad(len, 16) + dec_pad(date.len(), 2) + date + seq![10u8]
}

pub fn build_result_line(dir: &[u8], name: &[u8], len: u64, date: &[u8]) -> (r: Vec<u8>)
    ensures
        r@ == result_line(dir@, name@, len as nat, date@),
{
    let mut out: Vec<u8> = Vec::new();
    push_dec_pad(&mut out, dir.len() as u64, 3);
    push_all(&mut out, dir);
    push_dec_pad(&mut out, name.len() as u64, 3);
    push_all(&mut out, name);
    out.push(49);
    out.push(54);
    push_dec_pad(&mut out, len, 16);
    push_dec_pad(&mut out, date.len() as u64, 2);
    push_all(&mut out, date);
    out.push(10);
    proof {
        assert(out@ =~= result_line(dir@, name@, len as nat, date@));
    }
    out
}

/// What is wrong with a record, in the order the fields are checked.
#[derive(Clone, Copy, PartialEq, Eq, Debug, Structural)]
pub enum RecordFault {
    TooSmall,
    InvalidSize,
    InvalidRefLen,
    InvalidDirLen,
    InvalidNameLen,
    InvalidDateLen,
}

/// Key and size of a record, as read from its first 528 bytes.
pub open spec fn head_readable(line: Seq<u8>) -> bool {
    get_ok(line, 0, 512) && get_ok(line, 512, 528)
}

/// The size field read as `parse::<i64>().unwrap_or(-99)`.
pub open spec fn head_size(line: Seq<u8>) -> int {
    parse_i64_or(line.subrange(512, 528), -99)
}

/// Reading of the part of a record after the size, starting at byte 529.
/// `len_src` is the line from which the file-name length is taken.
pub enum TailRead {
    Fields { dir: Seq<u8>, name: Seq<u8>, date: Seq<u8> },
    Fault(RecordFault),
    Abort,
}

#[verifier::opaque]
pub open spec fn read_tail(line: Seq<u8>, len_src: Seq<u8>) -> TailRead {
    if !get_ok(line, 529, 531) {
        TailRead::Abort
    } else {
        let rlen = parse_i32_or(line.subrange(529, 531), -99);
        if rlen < 0 {
            TailRead::Fault(RecordFault::InvalidRefLen)
        } else {
            let p = 531 + rlen;
            if !get_ok(line, 531, p) || !get_ok(line, p, p + 3) {
                TailRead::Abort
            } else {
                let dlen = parse_i32_or(line.subrange(p, p + 3), -99);
                if dlen < 0 {
                    TailRead::Fault(RecordFault::InvalidDirLen)
                } else {
                    let q = p + 3 + dlen;
                    if !get_ok(line, p + 3, q) || !get_ok(len_src, q, q + 3) {
                        TailRead::Abort
                    } else {
                        let nlen = parse_i32_or(len_src.subrange(q, q + 3), -99);
                        if nlen < 0 {
                            TailRead::Fault(RecordFault::InvalidNameLen)
                        } else {
                            let r = q + 3 + nlen;
                            if !get_ok(line, q + 3, r) || !get_ok(line, r, r + 2) {
                                TailRead::Abort
                            } else {
                                let tlen = parse_i32_or(line.subrange(r, r + 2), -99);
                                if tlen < 0 {
                                    TailRead::Fault(RecordFault::InvalidDateLen)
                                } else if !get_ok(line, r + 2, r + 2 + tlen) {
                                    TailRead::Abort
                                } else {
                                    TailRead::Fields {
                                        dir: line.subrange(p + 3, q),
                                        name: line.subrange(q + 3, r),
                                        date: line.subrange(r + 2, r + 2 + tlen),
                                    }
                                }
                            }
                        }
                    }
                }
            }
        }
    }
}

/// `text.parse::<i32>().unwrap_or(-99)` on `b[a..e]`.
fn field_int(b: &[u8], a: usize, e: usize) -> (r: i64)
    requires
        a <= e <= b@.len(),
    ensures
        r == parse_i32_or(b@.subrange(a as int, e as int), -99),
{
    match parse_int(&b[a..e], -2147483648, 2147483647) {
        Some(v) => v,
        None => -99,
    }
}

/// Exec form of [`read_tail`]: `Ok(Some((dir, name, date)))`, `Ok(None)` when the
/// tool would abort, `Err(fault)`.
pub fn read_record_tail(line: &[u8], len_src: &[u8]) -> (r: Result<Option<(Vec<u8>, Vec<u8>, Vec<u8>)>, RecordFault>)
    ensures
        match read_tail(line@, len_src@) {
            TailRead::Fields { dir, name, date } => r matches Ok(Some(t)) && t.0@ == dir && t.1@ == name && t.2@ == date,
            TailRead::Fault(f) => r == Err::<Option<(Vec<u8>, Vec<u8>, Vec<u8>)>, RecordFault>(f),
            TailRead::Abort => r matches Ok(None),
        },
{
    let line_len: usize = line.len();
    let src_len: usize = len_src.len();
    proof {
        reveal(read_tail);
        assert(line@.len() == line_len && len_src@.len() == src_len);
    }
    if !can_get(line, 529, 531) {
        return Ok(None);
    }
    let rlen = field_int(line, 529, 531);
    if rlen < 0 {
        return Err(RecordFault::InvalidRefLen);
    }
    let p: usize = match 531usize.checked_add(rlen as usize) {
        Some(p) => p,
        None => return Ok(None),
    };
    if !can_get(line, 531, p) || !can_get(line, p, p + 3) {
        return Ok(None);
    }
    let dlen = field_int(line, p, p + 3);
    if dlen < 0 {
        return Err(RecordFault::InvalidDirLen);
    }
    let q: usize = match (p + 3).checked_add(dlen as usize) {
        Some(q) => q,
        None => return Ok(None),
    };
    let q3: usize = match q.checked_add(3) {
        Some(v) => v,
        None => return Ok(None),
    };
    if !can_get(line, p + 3, q) || !can_get(len_src, q, q3) {
        return Ok(None);
    }
    let nlen = field_int(len_src, q, q3);
    if nlen < 0 {
        return Err(RecordFault::InvalidNameLen);
    }
    let r: usize = match q3.checked_add(nlen as usize) {
        Some(r) => r,
        None => return Ok(None),
    };
    let r2: usize = match r.checked_add(2) {
        Some(v) => v,
        None => return Ok(None),
    };
    if !can_get(line, q3, r) || !can_get(line, r, r2) {
        return Ok(None);
    }
    let tlen = field_int(line, r, r2);
    if tlen < 0 {
        return Err(RecordFault::InvalidDateLen);
    }
    let e: usize = match r2.checked_add(tlen as usize) {
        Some(e) => e,
        None => return Ok(None),
    };
    if !can_get(line, r2, e) {
        return Ok(None);
    }
    let dir = slice_to_vec_bytes(&line[p + 3..q]);
    let name = slice_to_vec_bytes(&line[q3..r]);
    let date = slice_to_vec_bytes(&line[r2..e]);
    Ok(Some((dir, name, date)))
}


// ---------------------------------------------------------------- laws

/// A field does not start in the middle of a UTF-8 character (true of any
/// field cut out of valid UTF-8 text at character boundaries).
pub open spec fn starts_clean(f: Seq<u8>) -> bool {
    f.len() == 0 || !(0x80 <= f[0] && f[0] <= 0xbf)
}

pub open spec fn ascii(s: Seq<u8>) -> bool {
    forall|i: int| 0 <= i < s.len() ==> #[trigger] s[i] < 0x80
}

pub proof fn lemma_name_key_ascii(name: Seq<u8>)
    ensures
        ascii(name_key(name)),
{
    lemma_hex_ascii(name);
    lemma_hex_bytes_len(name);
    let k = name_key(name);
    let h = hex_bytes(name);
    assert forall|i: int| 0 <= i < k.len() implies #[trigger] k[i] < 0x80 by {
        if name.len() > 255 {
            assert(k[i] == h[i]);
        } else if i < h.len() {
            assert(k[i] == h[i]);
        }
    }
}

proof fn lemma_width(n: nat, w: nat, bound: nat)
    requires
        w >= 1,
        n < bound,
        bound == pow10(w),
    ensures
        dec_pad(n, w).len() == w,
{
    lemma_dec_len_bound(n, w);
    lemma_dec_pad_parse(n, w, 0, n as int);
}

proof fn lemma_record_layout(key: Seq<u8>, sz: Seq<u8>, reference: Seq<u8>, rl: Seq<u8>, dir: Seq<u8>, dl: Seq<u8>, name: Seq<u8>, nl: Seq<u8>, date: Seq<u8>, tl: Seq<u8>)
    requires
        key.len() == 512,
        ascii(key),
        sz.len() == 16,
        rl.len() == 2,
        dl.len() == 3,
        nl.len() == 3,
        tl.len() == 2,
        sz[0] < 0x80,
        rl[0] < 0x80,
        dl[0] < 0x80,
        nl[0] < 0x80,
        tl[0] < 0x80,
        starts_clean(reference),
        starts_clean(dir),
        starts_clean(name),
        starts_clean(date),
    ensures
        ({
            let l = key + sz + seq![32u8] + rl + reference + dl + dir + nl + name + tl + date + seq![10u8];
            let p = 531 + reference.len() as int;
            let q = p + 3 + dir.len() as int;
            let e = q + 3 + name.len() as int;
            &&& l.len() == 540 + reference.len() + dir.len() + name.len() + date.len()
            &&& l.subrange(0, 512) == key
            &&& l.subrange(512, 528) == sz
            &&& l.subrange(529, 531) == rl
            &&& l.subrange(531, p) == reference
            &&& l.subrange(p, p + 3) == dl
            &&& l.subrange(p + 3, q) == dir
            &&& l.subrange(q, q + 3) == nl
            &&& l.subrange(q + 3, e) == name
            &&& l.subrange(e, e + 2) == tl
            &&& l.subrange(e + 2, e + 2 + date.len() as int) == date
            &&& boundary(l, 512) && boundary(l, 528) && boundary(l, 529) && boundary(l, 531)
            &&& boundary(l, p) && boundary(l, p + 3) && boundary(l, q) && boundary(l, q + 3)
            &&& boundary(l, e) && boundary(l, e + 2) && boundary(l, e + 2 + date.len() as int)
        }),
{
    let l = key + sz + seq![32u8] + rl + reference + dl + dir + nl + name + tl + date + seq![10u8];
    let r = reference.len() as int;
    let d = dir.len() as int;
    let n = name.len() as int;
    let t = date.len() as int;
    let p = 531 + r;
    let q = p + 3 + d;
    let e = q + 3 + n;
    assert(l.subrange(0, 512) =~= key);
    assert(l.subrange(512, 528) =~= sz);
    assert(l.subrange(529, 531) =~= rl);
    assert(l.subrange(531, p) =~= reference);
    assert(l.subrange(p, p + 3) =~= dl);
    assert(l.subrange(p + 3, q) =~= dir);
    assert(l.subrange(q, q + 3) =~= nl);
    assert(l.subrange(q + 3, e) =~= name);
    assert(l.subrange(e, e + 2) =~= tl);
    assert(l.subrange(e + 2, e + 2 + t) =~= date);
    assert(l[512] == sz[0]);
    assert(l[528] == 32u8);
    assert(l[529] == rl[0]);
    assert(l[p] == dl[0]);
    assert(l[q] == nl[0]);
    assert(l[e] == tl[0]);
    assert(l[e + 2 + t] == 10u8);
    if r > 0 { assert(l[531] == reference[0]); }
    if d > 0 { assert(l[p + 3] == dir[0]); }
    if n > 0 { assert(l[q + 3] == name[0]); }
    if t > 0 { assert(l[e + 2] == date[0]); }
}

/// The reference name of a record: the bytes after the size that its
/// two length digits cover (the evaluation reads that length to find the
/// directory).
pub open spec fn record_reference(line: Seq<u8>) -> Seq<u8> {
    line.subrange(531, 531 + parse_i32_or(line.subrange(529, 531), -99))
}

/// A record written by the tools is read back by the evaluation: the key and
/// size from the head, the reference, and directory, name and date from the
/// tail, when the fields fit their length digits.
pub proof fn law_list_record_read_back(key: Seq<u8>, size: nat, reference: Seq<u8>, dir: Seq<u8>, name: Seq<u8>, date: Seq<u8>)
    requires
        key.len() == 512,
        ascii(key),
        size < 10000000000000000,
        reference.len() < 100,
        dir.len() < 1000,
        name.len() < 1000,
        date.len() < 100,
        starts_clean(reference),
        starts_clean(dir),
        starts_clean(name),
        starts_clean(date),
    ensures
        ({
            let l = list_record(key, dec_pad(size, 16), reference, dir, name, date);
            &&& l.len() >= 540
            &&& head_readable(l)
            &&& l.subrange(0, 512) == key
            &&& head_size(l) == size
            &&& read_tail(l, l) == (TailRead::Fields { dir, name, date })
            &&& record_reference(l) == reference
        }),
{
    let sz = dec_pad(size, 16);
    let rl = dec_pad(reference.len(), 2);
    let dl = dec_pad(dir.len(), 3);
    let nl = dec_pad(name.len(), 3);
    let tl = dec_pad(date.len(), 2);
    reveal_with_fuel(pow10, 17);
    assert(pow10(16) == 10000000000000000);
    assert(pow10(2) == 100);
    assert(pow10(3) == 1000);
    lemma_width(size, 16, 10000000000000000);
    lemma_width(reference.len(), 2, 100);
    lemma_width(dir.len(), 3, 1000);
    lemma_width(name.len(), 3, 1000);
    lemma_width(date.len(), 2, 100);
    lemma_dec_pad_parse(size, 16, i64::MIN as int, i64::MAX as int);
    lemma_dec_pad_parse(reference.len(), 2, i32::MIN as int, i32::MAX as int);
    lemma_dec_pad_parse(dir.len(), 3, i32::MIN as int, i32::MAX as int);
    lemma_dec_pad_parse(name.len(), 3, i32::MIN as int, i32::MAX as int);
    lemma_dec_pad_parse(date.len(), 2, i32::MIN as int, i32::MAX as int);
    assert(crate::text::is_digit(sz[0]));
    assert(crate::text::is_digit(rl[0]));
    assert(crate::text::is_digit(dl[0]));
    assert(crate::text::is_digit(nl[0]));
    assert(crate::text::is_digit(tl[0]));
    lemma_record_layout(key, sz, reference, rl, dir, dl, name, nl, date, tl);
    reveal(read_tail);
    let l = list_record(key, sz, reference, dir, name, date);
    assert(l == key + sz + seq![32u8] + rl + reference + dl + dir + nl + name + tl + date + seq![10u8]);
}

// ---------------------------------------------------------------- key order

/// `k` zero bytes.
pub open spec fn nul_bytes(k: nat) -> Seq<u8> {
    Seq::new(k, |i: int| 0u8)
}

/// A name with no zero byte in it.
pub open spec fn no_nul(name: Seq<u8>) -> bool {
    forall|i: int| 0 <= i < name.len() ==> #[trigger] name[i] != 0
}

/// The two hex digits of one byte.
pub open spec fn hex_pair(x: u8) -> Seq<u8> {
    seq![hex_digit((x / 16) as int), hex_digit((x % 16) as int)]
}

proof fn lemma_hex_concat(a: Seq<u8>, b: Seq<u8>)
    ensures
        hex_bytes(a + b) == hex_bytes(a) + hex_bytes(b),
    decreases b.len(),
{
    if b.len() == 0 {
        assert(a + b =~= a);
        assert(hex_bytes(a) + hex_bytes(b) =~= hex_bytes(a));
    } else {
        lemma_hex_concat(a, b.drop_last());
        assert((a + b).drop_last() =~= a + b.drop_last());
        assert((a + b).last() == b.last());
        assert(hex_bytes(a + b) =~= hex_bytes(a) + hex_bytes(b));
    }
}

proof fn lemma_hex_first(a: Seq<u8>)
    requires
        a.len() > 0,
    ensures
        hex_bytes(a) == hex_pair(a[0]) + hex_bytes(a.drop_first()),
{
    lemma_hex_concat(seq![a[0]], a.drop_first());
    assert(seq![a[0]] + a.drop_first() =~= a);
    let s1 = seq![a[0]];
    assert(s1.drop_last() =~= Seq::<u8>::empty());
    assert(s1.last() == a[0]);
    assert(hex_bytes(s1.drop_last()) =~= Seq::<u8>::empty());
    assert(hex_bytes(s1) =~= hex_pair(a[0]));
}

proof fn lemma_hex_nul(k: nat)
    ensures
        hex_bytes(nul_bytes(k)) == Seq::new(2 * k, |i: int| 48u8),
    decreases k,
{
    if k > 0 {
        lemma_hex_nul((k - 1) as nat);
        assert(nul_bytes(k).drop_last() =~= nul_bytes((k - 1) as nat));
        assert(hex_bytes(nul_bytes(k)) =~= Seq::new(2 * k, |i: int| 48u8));
    } else {
        assert(hex_bytes(nul_bytes(k)) =~= Seq::new(2 * k, |i: int| 48u8));
    }
}

/// The key of a name of at most 255 bytes is the hex of the name padded
/// with zero bytes to 256 bytes.
proof fn lemma_key_is_padded_hex(name: Seq<u8>)
    requires
        name.len() <= 255,
    ensures
        name_key(name) == hex_bytes(name + nul_bytes((256 - name.len()) as nat)),
{
    let k = (256 - name.len()) as nat;
    lemma_hex_concat(name, nul_bytes(k));
    lemma_hex_nul(k);
}

/// Comparing two strings that start with parts of one length: the first
/// parts decide where they differ.
proof fn lemma_lex_concat(p: Seq<u8>, q: Seq<u8>, x: Seq<u8>, y: Seq<u8>)
    requires
        p.len() == q.len(),
    ensures
        p == q ==> lex_lt(p + x, q + y) == lex_lt(x, y),
        p != q ==> lex_lt(p + x, q + y) == lex_lt(p, q),
    decreases p.len(),
{
    if p.len() == 0 {
        assert(p + x =~= x);
        assert(q + y =~= y);
        assert(p =~= q);
    } else {
        assert((p + x)[0] == p[0]);
        assert((q + y)[0] == q[0]);
        assert((p + x).drop_first() =~= p.drop_first() + x);
        assert((q + y).drop_first() =~= q.drop_first() + y);
        lemma_lex_concat(p.drop_first(), q.drop_first(), x, y);
        if p[0] == q[0] && p != q {
            assert(p.drop_first() != q.drop_first()) by {
                if p.drop_first() == q.drop_first() {
                    assert(p =~= seq![p[0]] + p.drop_first());
                    assert(q =~= seq![q[0]] + q.drop_first());
                }
            }
        }
        if p[0] == q[0] && p == q {
            assert(p.drop_first() == q.drop_first());
        }
    }
}

proof fn lemma_hex_pair_order(u: u8, v: u8)
    ensures
        lex_lt(hex_pair(u), hex_pair(v)) == (u < v),
        hex_pair(u) == hex_pair(v) <==> u == v,
{
    let (a, b, c, d) = ((u / 16) as int, (u % 16) as int, (v / 16) as int, (v % 16) as int);
    assert(u == 16 * a + b && v == 16 * c + d && 0 <= b < 16 && 0 <= d < 16 && 0 <= a < 16 && 0 <= c < 16);
    assert(hex_pair(u)[0] == hex_digit(a) && hex_pair(u)[1] == hex_digit(b));
    assert(hex_pair(v)[0] == hex_digit(c) && hex_pair(v)[1] == hex_digit(d));
    assert(hex_pair(u).drop_first() =~= seq![hex_digit(b)]);
    assert(hex_pair(v).drop_first() =~= seq![hex_digit(d)]);
    assert(seq![hex_digit(b)].drop_first() =~= Seq::<u8>::empty());
    assert(seq![hex_digit(d)].drop_first() =~= Seq::<u8>::empty());
    assert forall|x: int, y: int| 0 <= x < y < 16 implies #[trigger] hex_digit(x) < #[trigger] hex_digit(y) by {}
    assert forall|x: int, y: int| 0 <= x < 16 && 0 <= y < 16 && hex_digit(x) == hex_digit(y) implies x == y by {
        if x < y {
            assert(hex_digit(x) < hex_digit(y));
        } else if y < x {
            assert(hex_digit(y) < hex_digit(x));
        }
    }
    let sb = seq![hex_digit(b)];
    let sd = seq![hex_digit(d)];
    assert(lex_lt(sb.drop_first(), sd.drop_first()) == false);
    assert(lex_lt(sb, sd) == (hex_digit(b) < hex_digit(d)));
    assert(lex_lt(hex_pair(u), hex_pair(v)) == if hex_digit(a) != hex_digit(c) { hex_digit(a) < hex_digit(c) } else { lex_lt(sb, sd) });
    if a < c {
        assert(hex_digit(a) < hex_digit(c));
    } else if c < a {
        assert(hex_digit(c) < hex_digit(a));
    } else if b < d {
        assert(hex_digit(b) < hex_digit(d));
    } else if d < b {
        assert(hex_digit(d) < hex_digit(b));
    }
    if hex_pair(u) == hex_pair(v) {
        assert(hex_pair(u)[0] == hex_pair(v)[0] && hex_pair(u)[1] == hex_pair(v)[1]);
    }
}

/// Upper-case hex keeps the order of strings.
proof fn lemma_hex_order(a: Seq<u8>, b: Seq<u8>)
    ensures
        lex_lt(hex_bytes(a), hex_bytes(b)) == lex_lt(a, b),
    decreases a.len(),
{
    lemma_hex_bytes_len(a);
    lemma_hex_bytes_len(b);
    if a.len() > 0 && b.len() > 0 {
        lemma_hex_first(a);
        lemma_hex_first(b);
        lemma_hex_pair_order(a[0], b[0]);
        lemma_lex_concat(hex_pair(a[0]), hex_pair(b[0]), hex_bytes(a.drop_first()), hex_bytes(b.drop_first()));
        lemma_hex_order(a.drop_first(), b.drop_first());
    }
}

/// Padding two names without zero bytes with zero bytes to one length
/// keeps their order.
proof fn lemma_pad_order(a: Seq<u8>, b: Seq<u8>, n: nat)
    requires
        a.len() <= n,
        b.len() <= n,
        no_nul(a),
        no_nul(b),
    ensures
        lex_lt(a + nul_bytes((n - a.len()) as nat), b + nul_bytes((n - b.len()) as nat)) == lex_lt(a, b),
    decreases a.len(),
{
    let pa = a + nul_bytes((n - a.len()) as nat);
    let pb = b + nul_bytes((n - b.len()) as nat);
    if a.len() == 0 && b.len() == 0 {
        assert(pa =~= pb);
        crate::text::lemma_lex_irreflexive(pa);
    } else if a.len() == 0 {
        assert(pa[0] == 0u8);
        assert(pb[0] == b[0]);
        assert(b[0] != 0);
    } else if b.len() == 0 {
        assert(pb[0] == 0u8);
        assert(pa[0] == a[0]);
        assert(a[0] != 0);
        assert(pb.len() > 0);
    } else {
        assert(pa[0] == a[0]);
        assert(pb[0] == b[0]);
        let m = (n - 1) as nat;
        assert(pa.drop_first() =~= a.drop_first() + nul_bytes((m - a.drop_first().len()) as nat));
        assert(pb.drop_first() =~= b.drop_first() + nul_bytes((m - b.drop_first().len()) as nat));
        assert(no_nul(a.drop_first())) by {
            assert forall|i: int| 0 <= i < a.drop_first().len() implies #[trigger] a.drop_first()[i] != 0 by {
                assert(a.drop_first()[i] == a[i + 1]);
            }
        }
        assert(no_nul(b.drop_first())) by {
            assert forall|i: int| 0 <= i < b.drop_first().len() implies #[trigger] b.drop_first()[i] != 0 by {
                assert(b.drop_first()[i] == b[i + 1]);
            }
        }
        lemma_pad_order(a.drop_first(), b.drop_first(), m);
    }
}

/// The keys of two names of at most 255 bytes without zero bytes come in
/// the order of the names, byte-wise, and are equal only for equal names:
/// the sorted list records are sorted by name.
pub proof fn law_key_order_follows_name(n1: Seq<u8>, n2: Seq<u8>)
    requires
        n1.len() <= 255,
        n2.len() <= 255,
        no_nul(n1),
        no_nul(n2),
    ensures
        lex_lt(name_key(n1), name_key(n2)) <==> lex_lt(n1, n2),
        name_key(n1) == name_key(n2) <==> n1 == n2,
{
    lemma_key_is_padded_hex(n1);
    lemma_key_is_padded_hex(n2);
    let p1 = n1 + nul_bytes((256 - n1.len()) as nat);
    let p2 = n2 + nul_bytes((256 - n2.len()) as nat);
    lemma_hex_order(p1, p2);
    lemma_hex_order(p2, p1);
    lemma_pad_order(n1, n2, 256);
    lemma_pad_order(n2, n1, 256);
    if name_key(n1) == name_key(n2) {
        crate::text::lemma_lex_irreflexive(name_key(n1));
        if !lex_lt(n1, n2) && !lex_lt(n2, n1) {
            crate::text::lemma_lex_equal(n1, n2);
        }
    }
}


// ---------------------------------------------------------------- round trip

/// A list record the hard drive listing or the catalogue conversion writes
/// for a file of text fields (a name of at most 255 bytes with no zero
/// byte, a size below 10^16, a reference, directory and date that fit their
/// length digits) is read back by the evaluation: its key is the name in
/// upper-case hex followed by `00` up to 512 digits, and size, reference,
/// directory, name and date come back as written; and its key comes before
/// the key of any other such name exactly when its name comes first,
/// byte-wise, and equals it only for the same name.
pub proof fn law_written_record_reads_back(name: Seq<u8>, size: nat, reference: Seq<u8>, dir: Seq<u8>, date: Seq<u8>)
    requires
        name.len() <= 255,
        no_nul(name),
        size < 10000000000000000,
        reference.len() <= 99,
        dir.len() <= 999,
        date.len() <= 99,
        valid_utf8(name),
        valid_utf8(reference),
        valid_utf8(dir),
        valid_utf8(date),
    ensures
        ({
            let l = list_record(name_key(name), dec_pad(size, 16), reference, dir, name, date);
            &&& l.len() >= 540
            &&& head_readable(l)
            &&& l.subrange(0, 512) == name_key(name)
            &&& name_key(name) == hex_bytes(name) + zeros((2 * (256 - name.len())) as nat)
            &&& head_size(l) == size
            &&& record_reference(l) == reference
            &&& read_tail(l, l) == (TailRead::Fields { dir, name, date })
        }),
        forall|other: Seq<u8>| other.len() <= 255 && no_nul(other) ==> {
            &&& (lex_lt(name_key(name), #[trigger] name_key(other)) <==> lex_lt(name, other))
            &&& (name_key(name) == name_key(other) <==> name == other)
        },
{
    lemma_valid_starts_clean(name);
    lemma_valid_starts_clean(reference);
    lemma_valid_starts_clean(dir);
    lemma_valid_starts_clean(date);
    lemma_name_key_len(name);
    lemma_name_key_ascii(name);
    law_list_record_read_back(name_key(name), size, reference, dir, name, date);
    assert(name_key(name) == hex_bytes(name) + zeros((2 * (256 - name.len())) as nat));
    assert forall|other: Seq<u8>| other.len() <= 255 && no_nul(other) implies {
        &&& (lex_lt(name_key(name), #[trigger] name_key(other)) <==> lex_lt(name, other))
        &&& (name_key(name) == name_key(other) <==> name == other)
    } by {
        law_key_order_follows_name(name, other);
    }
}

/// Valid UTF-8 does not start inside a character.
pub proof fn lemma_valid_starts_clean(f: Seq<u8>)
    requires
        valid_utf8(f),
    ensures
        starts_clean(f),
{
    if f.len() > 0 {
        assert(vstd::utf8::valid_first_scalar(f));
    }
}

} // verus!
