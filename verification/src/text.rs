//! Byte-string helpers with the semantics of the std operations they stand for:
//! integer parsing as `str::parse`, zero-padded decimal and upper-case hex
//! output as `format!`, substring search as `str::find` / `str::rfind`,
//! splitting as `str::split`, ordering as the ordering of `str`.

use vstd::prelude::*;

verus! {

/// The byte strings of a vector of byte vectors.
pub open spec fn lines_view(v: Seq<Vec<u8>>) -> Seq<Seq<u8>> {
    Seq::new(v.len(), |i: int| v[i]@)
}

// ---------------------------------------------------------------- digits

pub open spec fn is_digit(b: u8) -> bool {
    48 <= b <= 57
}

pub open spec fn all_digits(s: Seq<u8>) -> bool {
    forall|i: int| 0 <= i < s.len() ==> is_digit(#[trigger] s[i])
}

/// Value of a string of decimal digits.
pub open spec fn digits_value(s: Seq<u8>) -> nat
    decreases s.len(),
{
    if s.len() == 0 {
        0
    } else {
        digits_value(s.drop_last()) * 10 + (s.last() - 48) as nat
    }
}

/// What `str::parse` gives for an integer type whose range is `lo..=hi`:
/// an optional `+` or `-`, then at least one ASCII digit, and nothing else.
pub open spec fn parse_int_spec(s: Seq<u8>, lo: int, hi: int) -> Option<int> {
    let neg = s.len() > 0 && s[0] == 45;
    let signed = s.len() > 0 && (s[0] == 45 || s[0] == 43);
    let ds = if signed { s.skip(1) } else { s };
    if ds.len() == 0 || !all_digits(ds) {
        None
    } else {
        let v: int = if neg { -(digits_value(ds) as int) } else { digits_value(ds) as int };
        if lo <= v && v <= hi { Some(v) } else { None }
    }
}

/// `text.parse::<i32>().unwrap_or(default)`.
pub open spec fn parse_i32_or(s: Seq<u8>, default: int) -> int {
    match parse_int_spec(s, i32::MIN as int, i32::MAX as int) {
        Some(v) => v,
        None => default,
    }
}

/// `text.parse::<i64>().unwrap_or(default)`.
pub open spec fn parse_i64_or(s: Seq<u8>, default: int) -> int {
    match parse_int_spec(s, i64::MIN as int, i64::MAX as int) {
        Some(v) => v,
        None => default,
    }
}

proof fn lemma_digits_value_step(s: Seq<u8>, i: int)
    requires
        0 <= i < s.len(),
    ensures
        digits_value(s.take(i + 1)) == digits_value(s.take(i)) * 10 + (s[i] - 48) as nat,
{
    assert(s.take(i + 1).drop_last() =~= s.take(i));
}

/// Parses `s` as an integer of the range `lo..=hi` the way `str::parse` does.
pub fn parse_int(s: &[u8], lo: i64, hi: i64) -> (r: Option<i64>)
    ensures
        match parse_int_spec(s@, lo as int, hi as int) {
            Some(v) => r == Some(v as i64),
            None => r is None,
        },
{
    let n = s.len();
    let neg = n > 0 && s[0] == 45;
    let signed = n > 0 && (s[0] == 45 || s[0] == 43);
    let start: usize = if signed { 1 } else { 0 };
    if start >= n {
        return None;
    }
    let ghost ds = if signed { s@.skip(1) } else { s@ };
    let mut acc: u128 = 0;
    let mut big = false;
    let mut i = start;
    while i < n
        invariant
            start <= i <= n,
            n == s@.len(),
            ds == s@.skip(start as int),
            signed == (s@.len() > 0 && (s@[0] == 45 || s@[0] == 43)),
            start == (if signed { 1usize } else { 0usize }),
            ds == (if signed { s@.skip(1) } else { s@ }),
            forall|k: int| start <= k < i ==> is_digit(#[trigger] s@[k]),
            big ==> digits_value(ds.take(i - start)) > 0x1_0000_0000_0000_0000,
            !big ==> acc == digits_value(ds.take(i - start)),
            !big ==> acc <= 0x1_0000_0000_0000_0000,
        decreases n - i,
    {
        let b = s[i];
        if !(48 <= b && b <= 57) {
            proof {
                assert(ds[i - start] == b);
                assert(!is_digit(ds[i - start]));
                assert(!all_digits(ds));
            }
            return None;
        }
        proof {
            lemma_digits_value_step(ds, i - start);
        }
        if !big {
            acc = acc * 10 + (b - 48) as u128;
            if acc > 0x1_0000_0000_0000_0000 {
                big = true;
            }
        }
        i = i + 1;
    }
    proof {
        assert(ds.take(n - start) =~= ds);
        assert(all_digits(ds)) by {
            assert forall|k: int| 0 <= k < ds.len() implies is_digit(#[trigger] ds[k]) by {
                assert(ds[k] == s@[k + start]);
            }
        }
    }
    if big {
        return None;
    }
    let v: i128 = if neg { -(acc as i128) } else { acc as i128 };
    if (lo as i128) <= v && v <= (hi as i128) {
        Some(v as i64)
    } else {
        None
    }
}


// ---------------------------------------------------------------- output

/// Decimal digits of `n`, as `format!("{}", n)` writes them.
pub open spec fn dec(n: nat) -> Seq<u8>
    decreases n,
{
    if n < 10 {
        seq![(48 + n) as u8]
    } else {
        dec(n / 10).push((48 + n % 10) as u8)
    }
}

/// `s` with zeros in front up to width `w`, as the `0` flag of `format!` pads.
pub open spec fn zpad(s: Seq<u8>, w: nat) -> Seq<u8> {
    if s.len() >= w {
        s
    } else {
        Seq::new((w - s.len()) as nat, |i: int| 48u8) + s
    }
}

/// `format!("{:0w$}", n)` for a non-negative `n`.
pub open spec fn dec_pad(n: nat, w: nat) -> Seq<u8> {
    zpad(dec(n), w)
}

pub open spec fn pow10(k: nat) -> nat
    decreases k,
{
    if k == 0 { 1 } else { 10 * pow10((k - 1) as nat) }
}

pub proof fn lemma_dec_digits(n: nat)
    ensures
        dec(n).len() >= 1,
        all_digits(dec(n)),
        digits_value(dec(n)) == n,
    decreases n,
{
    if n >= 10 {
        lemma_dec_digits(n / 10);
        let d = dec(n / 10);
        assert(dec(n).drop_last() =~= d);
        assert forall|i: int| 0 <= i < dec(n).len() implies is_digit(#[trigger] dec(n)[i]) by {
            if i < d.len() {
                assert(dec(n)[i] == d[i]);
            }
        }
        assert(n == (n / 10) * 10 + n % 10);
        assert(dec(n).last() == (48 + n % 10) as u8);
        assert(digits_value(dec(n)) == digits_value(d) * 10 + n % 10);
    } else {
        assert(dec(n).drop_last() =~= Seq::<u8>::empty());
        assert(digits_value(dec(n).drop_last()) == 0);
        assert(dec(n).last() == (48 + n) as u8);
    }
}

/// `n` has at most `k` decimal digits when it is below `10^k`.
pub proof fn lemma_dec_len_bound(n: nat, k: nat)
    requires
        k >= 1,
        n < pow10(k),
    ensures
        dec(n).len() <= k,
    decreases k,
{
    if n >= 10 {
        assert(k >= 2) by {
            if k == 1 {
                assert(pow10(1) == 10 * pow10(0));
            }
        }
        assert(pow10(k) == 10 * pow10((k - 1) as nat));
        assert(n / 10 < pow10((k - 1) as nat));
        lemma_dec_len_bound(n / 10, (k - 1) as nat);
    }
}

/// `n` has at least `k + 1` decimal digits when it is at least `10^k`.
pub proof fn lemma_dec_len_lower(n: nat, k: nat)
    requires
        n >= pow10(k),
    ensures
        dec(n).len() >= k + 1,
    decreases k,
{
    if k > 0 {
        assert(pow10(k) == 10 * pow10((k - 1) as nat));
        assert(pow10((k - 1) as nat) >= 1) by {
            lemma_pow10_pos((k - 1) as nat);
        }
        assert(n >= 10);
        assert(n / 10 >= pow10((k - 1) as nat));
        lemma_dec_len_lower(n / 10, (k - 1) as nat);
    }
}

pub proof fn lemma_pow10_pos(k: nat)
    ensures
        pow10(k) >= 1,
    decreases k,
{
    if k > 0 {
        lemma_pow10_pos((k - 1) as nat);
    }
}

pub open spec fn zeros(k: nat) -> Seq<u8> {
    Seq::new(k, |i: int| 48u8)
}

proof fn lemma_digits_value_zeros(k: nat)
    ensures
        digits_value(zeros(k)) == 0,
    decreases k,
{
    if k > 0 {
        assert(zeros(k).drop_last() =~= zeros((k - 1) as nat));
        lemma_digits_value_zeros((k - 1) as nat);
    }
}

proof fn lemma_digits_value_leading_zeros(k: nat, b: Seq<u8>)
    ensures
        digits_value(zeros(k) + b) == digits_value(b),
    decreases b.len(),
{
    if b.len() == 0 {
        assert(zeros(k) + b =~= zeros(k));
        lemma_digits_value_zeros(k);
    } else {
        assert((zeros(k) + b).drop_last() =~= zeros(k) + b.drop_last());
        lemma_digits_value_leading_zeros(k, b.drop_last());
    }
}

/// A zero-padded number reads back as the number.
pub proof fn lemma_dec_pad_parse(n: nat, w: nat, lo: int, hi: int)
    requires
        lo <= 0,
        n <= hi,
    ensures
        parse_int_spec(dec_pad(n, w), lo, hi) == Some(n as int),
        all_digits(dec_pad(n, w)),
        dec_pad(n, w).len() >= 1,
        dec(n).len() <= w ==> dec_pad(n, w).len() == w,
{
    lemma_dec_digits(n);
    let d = dec(n);
    let p = dec_pad(n, w);
    if d.len() >= w {
        assert(p == d);
    } else {
        let k = (w - d.len()) as nat;
        assert(p == zeros(k) + d);
        lemma_digits_value_leading_zeros(k, d);
        assert forall|i: int| 0 <= i < p.len() implies is_digit(#[trigger] p[i]) by {
            if i >= k {
                assert(p[i] == d[i - k]);
            }
        }
    }
    assert(is_digit(p[0]));
    assert(!(p[0] == 45 || p[0] == 43));
}

pub proof fn lemma_hex_ascii(s: Seq<u8>)
    ensures
        forall|i: int| 0 <= i < hex_bytes(s).len() ==> #[trigger] hex_bytes(s)[i] < 0x80,
    decreases s.len(),
{
    if s.len() > 0 {
        lemma_hex_ascii(s.drop_last());
        lemma_hex_bytes_len(s.drop_last());
        let h = hex_bytes(s);
        let h0 = hex_bytes(s.drop_last());
        assert forall|i: int| 0 <= i < h.len() implies #[trigger] h[i] < 0x80 by {
            if i < h0.len() {
                assert(h[i] == h0[i]);
            }
        }
    }
}

/// Appends the bytes of `s` to `out`.
pub fn push_all(out: &mut Vec<u8>, s: &[u8])
    ensures
        final(out)@ == old(out)@ + s@,
{
    let ghost start = out@;
    let mut i: usize = 0;
    while i < s.len()
        invariant
            i <= s@.len(),
            out@ == start + s@.take(i as int),
        decreases s@.len() - i,
    {
        out.push(s[i]);
        i = i + 1;
        proof {
            assert(out@ =~= start + s@.take(i as int));
        }
    }
    proof {
        assert(s@.take(i as int) =~= s@);
    }
}

/// Appends the decimal digits of `n`.
pub fn push_dec(out: &mut Vec<u8>, n: u64)
    ensures
        final(out)@ == old(out)@ + dec(n as nat),
    decreases n,
{
    if n >= 10 {
        push_dec(out, n / 10);
    }
    out.push(48 + (n % 10) as u8);
    proof {
        if n >= 10 {
            assert(dec(n as nat) == dec((n / 10) as nat).push((48 + n % 10) as u8));
        }
    }
}

/// Appends `n` zero-padded to width `w`, as `format!("{:0w$}", n)`.
pub fn push_dec_pad(out: &mut Vec<u8>, n: u64, w: usize)
    ensures
        final(out)@ == old(out)@ + dec_pad(n as nat, w as nat),
{
    let ghost start = out@;
    let mut digits: Vec<u8> = Vec::new();
    push_dec(&mut digits, n);
    if digits.len() < w {
        let mut k: usize = digits.len();
        while k < w
            invariant
                digits.len() <= k <= w,
                out@ == start + Seq::new((k - digits@.len()) as nat, |i: int| 48u8),
            decreases w - k,
        {
            out.push(48);
            k = k + 1;
            proof {
                assert(out@ =~= start + Seq::new((k - digits@.len()) as nat, |i: int| 48u8));
            }
        }
    }
    push_all(out, digits.as_slice());
    proof {
        assert(digits@ =~= Seq::<u8>::empty() + dec(n as nat));
        assert(out@ =~= start + dec_pad(n as nat, w as nat));
    }
}

pub open spec fn hex_digit(v: int) -> u8 {
    if v < 10 { (48 + v) as u8 } else { (55 + v) as u8 }
}

/// Upper-case hex of each byte, two digits a byte, as `format!("{:02X}", b)` per byte.
pub open spec fn hex_bytes(s: Seq<u8>) -> Seq<u8>
    decreases s.len(),
{
    if s.len() == 0 {
        Seq::empty()
    } else {
        hex_bytes(s.drop_last()) + seq![hex_digit((s.last() / 16) as int), hex_digit((s.last() % 16) as int)]
    }
}

pub proof fn lemma_hex_bytes_len(s: Seq<u8>)
    ensures
        hex_bytes(s).len() == 2 * s.len(),
    decreases s.len(),
{
    if s.len() > 0 {
        lemma_hex_bytes_len(s.drop_last());
    }
}

/// Appends the upper-case hex of the bytes of `s`.
pub fn push_hex(out: &mut Vec<u8>, s: &[u8])
    ensures
        final(out)@ == old(out)@ + hex_bytes(s@),
{
    let ghost start = out@;
    let mut i: usize = 0;
    while i < s.len()
        invariant
            i <= s@.len(),
            out@ == start + hex_bytes(s@.take(i as int)),
        decreases s@.len() - i,
    {
        let b = s[i];
        let hi = b / 16;
        let lo = b % 16;
        out.push(if hi < 10 { 48 + hi } else { 55 + hi });
        out.push(if lo < 10 { 48 + lo } else { 55 + lo });
        proof {
            assert(s@.take(i + 1).drop_last() =~= s@.take(i as int));
        }
        i = i + 1;
        proof {
            assert(out@ =~= start + hex_bytes(s@.take(i as int)));
        }
    }
    proof {
        assert(s@.take(i as int) =~= s@);
    }
}

// ---------------------------------------------------------------- search

pub open spec fn occurs_at(s: Seq<u8>, pat: Seq<u8>, i: int) -> bool {
    0 <= i && i + pat.len() <= s.len() && s.subrange(i, i + pat.len()) == pat
}

pub open spec fn contains_spec(s: Seq<u8>, pat: Seq<u8>) -> bool {
    exists|i: int| occurs_at(s, pat, i)
}

/// First position of `pat` in `s`, as `str::find` gives it.
pub open spec fn is_first_occurrence(s: Seq<u8>, pat: Seq<u8>, i: int) -> bool {
    occurs_at(s, pat, i) && forall|j: int| 0 <= j < i ==> !occurs_at(s, pat, j)
}

/// Last position of `pat` in `s`, as `str::rfind` gives it.
pub open spec fn is_last_occurrence(s: Seq<u8>, pat: Seq<u8>, i: int) -> bool {
    occurs_at(s, pat, i) && forall|j: int| i < j ==> !occurs_at(s, pat, j)
}

pub open spec fn find_spec(s: Seq<u8>, pat: Seq<u8>) -> Option<int> {
    if contains_spec(s, pat) {
        Some(choose|i: int| is_first_occurrence(s, pat, i))
    } else {
        None
    }
}

pub proof fn lemma_first_occurrence_unique(s: Seq<u8>, pat: Seq<u8>, i: int, j: int)
    requires
        is_first_occurrence(s, pat, i),
        is_first_occurrence(s, pat, j),
    ensures
        i == j,
{
}

fn matches_at(s: &[u8], pat: &[u8], i: usize) -> (r: bool)
    requires
        i <= s@.len(),
    ensures
        r == occurs_at(s@, pat@, i as int),
{
    if pat.len() > s.len() - i {
        return false;
    }
    let mut k: usize = 0;
    while k < pat.len()
        invariant
            k <= pat@.len(),
            i <= s@.len(),
            s@.len() <= usize::MAX,
            i + pat@.len() <= s@.len(),
            forall|m: int| 0 <= m < k ==> s@[i + m] == pat@[m],
        decreases pat@.len() - k,
    {
        assert(i + k < s@.len());
        let idx: usize = i + k;
        if s[idx] != pat[k] {
            proof {
                assert(s@.subrange(i as int, i + pat@.len())[k as int] != pat@[k as int]);
            }
            return false;
        }
        k = k + 1;
    }
    proof {
        assert(s@.subrange(i as int, i + pat@.len()) =~= pat@);
    }
    true
}

/// `s.find(pat)`: the first position at which `pat` occurs.
pub fn find(s: &[u8], pat: &[u8]) -> (r: Option<usize>)
    ensures
        match r {
            Some(i) => is_first_occurrence(s@, pat@, i as int) && find_spec(s@, pat@) == Some(i as int),
            None => !contains_spec(s@, pat@) && find_spec(s@, pat@) is None,
        },
{
    let mut i: usize = 0;
    while i < s.len()
        invariant
            i <= s@.len(),
            forall|j: int| 0 <= j < i ==> !occurs_at(s@, pat@, j),
        decreases s@.len() - i,
    {
        if matches_at(s, pat, i) {
            proof {
                assert(is_first_occurrence(s@, pat@, i as int));
                assert(contains_spec(s@, pat@));
                let c = choose|k: int| is_first_occurrence(s@, pat@, k);
                lemma_first_occurrence_unique(s@, pat@, c, i as int);
            }
            return Some(i);
        }
        i = i + 1;
    }
    if matches_at(s, pat, s.len()) {
        proof {
            assert(is_first_occurrence(s@, pat@, s@.len() as int));
            assert(contains_spec(s@, pat@));
            let c = choose|k: int| is_first_occurrence(s@, pat@, k);
            lemma_first_occurrence_unique(s@, pat@, c, s@.len() as int);
        }
        return Some(s.len());
    }
    proof {
        assert forall|j: int| !occurs_at(s@, pat@, j) by {
            if 0 <= j && j < s@.len() {
            } else if j == s@.len() {
            }
        }
    }
    None
}

/// `s.rfind(pat)`: the last position at which `pat` occurs.
pub fn rfind(s: &[u8], pat: &[u8]) -> (r: Option<usize>)
    ensures
        match r {
            Some(i) => is_last_occurrence(s@, pat@, i as int),
            None => !contains_spec(s@, pat@),
        },
{
    if matches_at(s, pat, s.len()) {
        return Some(s.len());
    }
    let mut i: usize = s.len();
    while i > 0
        invariant
            i <= s@.len(),
            forall|j: int| i <= j ==> !occurs_at(s@, pat@, j),
        decreases i,
    {
        i = i - 1;
        if matches_at(s, pat, i) {
            return Some(i);
        }
    }
    None
}

/// `s.contains(pat)`.
pub fn contains(s: &[u8], pat: &[u8]) -> (r: bool)
    ensures
        r == contains_spec(s@, pat@),
{
    match find(s, pat) {
        Some(_) => true,
        None => false,
    }
}

/// `s.ends_with(suffix)`.
pub fn ends_with(s: &[u8], suffix: &[u8]) -> (r: bool)
    ensures
        r == (suffix@.len() <= s@.len() && s@.subrange(s@.len() - suffix@.len(), s@.len() as int)
            == suffix@),
{
    if suffix.len() > s.len() {
        return false;
    }
    let r = matches_at(s, suffix, s.len() - suffix.len());
    r
}

// ---------------------------------------------------------------- order

/// The order of `str` (and of `String`): byte-wise lexicographic.
pub open spec fn lex_lt(a: Seq<u8>, b: Seq<u8>) -> bool
    decreases a.len(),
{
    if a.len() == 0 {
        b.len() > 0
    } else if b.len() == 0 {
        false
    } else if a[0] != b[0] {
        a[0] < b[0]
    } else {
        lex_lt(a.drop_first(), b.drop_first())
    }
}

/// The order of strings is strict: no string comes before itself.
pub proof fn lemma_lex_irreflexive(a: Seq<u8>)
    ensures
        !lex_lt(a, a),
    decreases a.len(),
{
    if a.len() > 0 {
        lemma_lex_irreflexive(a.drop_first());
    }
}

/// The order of strings is transitive.
pub proof fn lemma_lex_transitive(a: Seq<u8>, b: Seq<u8>, c: Seq<u8>)
    requires
        lex_lt(a, b),
        lex_lt(b, c),
    ensures
        lex_lt(a, c),
    decreases a.len(),
{
    if a.len() > 0 && a[0] == b[0] && b[0] == c[0] {
        lemma_lex_transitive(a.drop_first(), b.drop_first(), c.drop_first());
    }
}

/// Two strings neither of which comes before the other are equal.
pub proof fn lemma_lex_equal(a: Seq<u8>, b: Seq<u8>)
    requires
        !lex_lt(a, b),
        !lex_lt(b, a),
    ensures
        a == b,
    decreases a.len(),
{
    if a.len() > 0 && b.len() > 0 && a[0] == b[0] {
        lemma_lex_equal(a.drop_first(), b.drop_first());
        assert(a =~= seq![a[0]] + a.drop_first());
        assert(b =~= seq![b[0]] + b.drop_first());
    } else if a.len() == 0 && b.len() == 0 {
        assert(a =~= b);
    }
}

/// `a < b` for two strings.
pub fn bytes_lt(a: &[u8], b: &[u8]) -> (r: bool)
    ensures
        r == lex_lt(a@, b@),
{
    let mut i: usize = 0;
    proof {
        assert(a@.skip(0) =~= a@);
        assert(b@.skip(0) =~= b@);
    }
    while i < a.len() && i < b.len() && a[i] == b[i]
        invariant
            i <= a@.len(),
            i <= b@.len(),
            lex_lt(a@, b@) == lex_lt(a@.skip(i as int), b@.skip(i as int)),
        decreases a@.len() - i,
    {
        proof {
            assert(a@.skip(i as int).drop_first() =~= a@.skip(i + 1));
            assert(b@.skip(i as int).drop_first() =~= b@.skip(i + 1));
        }
        i = i + 1;
    }
    if i == a.len() {
        i < b.len()
    } else if i == b.len() {
        false
    } else {
        a[i] < b[i]
    }
}

/// `a == b` for two strings.
pub fn bytes_eq(a: &[u8], b: &[u8]) -> (r: bool)
    ensures
        r == (a@ == b@),
{
    if a.len() != b.len() {
        return false;
    }
    let mut i: usize = 0;
    while i < a.len()
        invariant
            i <= a@.len(),
            a@.len() == b@.len(),
            forall|k: int| 0 <= k < i ==> a@[k] == b@[k],
        decreases a@.len() - i,
    {
        if a[i] != b[i] {
            return false;
        }
        i = i + 1;
    }
    proof {
        assert(a@ =~= b@);
    }
    true
}

// ---------------------------------------------------------------- split

/// The pieces of `s.split(sep)` for a one-byte separator: as many pieces as
/// separators plus one, empty pieces kept.
#[verifier::opaque]
pub open spec fn split_spec(s: Seq<u8>, sep: u8) -> Seq<Seq<u8>>
    decreases s.len(),
{
    if exists|i: int| 0 <= i < s.len() && s[i] == sep {
        let i = choose|i: int| 0 <= i < s.len() && s[i] == sep && forall|j: int| 0 <= j < i ==> s[j] != sep;
        if 0 <= i < s.len() {
            seq![s.take(i)] + split_spec(s.skip(i + 1), sep)
        } else {
            seq![s]
        }
    } else {
        seq![s]
    }
}

pub proof fn lemma_split_first(s: Seq<u8>, sep: u8, i: int)
    requires
        0 <= i < s.len(),
        s[i] == sep,
        forall|j: int| 0 <= j < i ==> s[j] != sep,
    ensures
        split_spec(s, sep) == seq![s.take(i)] + split_spec(s.skip(i + 1), sep),
{
    reveal(split_spec);
    let c = choose|k: int| 0 <= k < s.len() && s[k] == sep && forall|j: int| 0 <= j < k ==> s[j] != sep;
    assert(0 <= c < s.len() && s[c] == sep && forall|j: int| 0 <= j < c ==> s[j] != sep);
    if c < i {
        assert(s[c] != sep);
    }
    if i < c {
        assert(s[i] != sep);
    }
}

proof fn lemma_split_none(s: Seq<u8>, sep: u8)
    requires
        forall|j: int| 0 <= j < s.len() ==> s[j] != sep,
    ensures
        split_spec(s, sep) == seq![s],
{
    reveal(split_spec);
}

proof fn lemma_split_piece(s: Seq<u8>, sep: u8, start: int, i: int)
    requires
        0 <= start <= i < s.len(),
        s[i] == sep,
        forall|j: int| start <= j < i ==> s[j] != sep,
    ensures
        split_spec(s.skip(start), sep) == seq![s.subrange(start, i)] + split_spec(s.skip(i + 1), sep),
{
    let rest = s.skip(start);
    assert(rest[i - start] == sep);
    assert forall|j: int| 0 <= j < i - start implies rest[j] != sep by {
        assert(rest[j] == s[start + j]);
    }
    lemma_split_first(rest, sep, i - start);
    assert(rest.take(i - start) =~= s.subrange(start, i));
    assert(rest.skip(i - start + 1) =~= s.skip(i + 1));
}

proof fn lemma_split_last(s: Seq<u8>, sep: u8, start: int)
    requires
        0 <= start <= s.len(),
        forall|j: int| start <= j < s.len() ==> s[j] != sep,
    ensures
        split_spec(s.skip(start), sep) == seq![s.subrange(start, s.len() as int)],
{
    let rest = s.skip(start);
    assert forall|j: int| 0 <= j < rest.len() implies rest[j] != sep by {
        assert(rest[j] == s[start + j]);
    }
    lemma_split_none(rest, sep);
    assert(rest =~= s.subrange(start, s.len() as int));
}

pub proof fn lemma_split_shape(s: Seq<u8>, sep: u8)
    ensures
        split_spec(s, sep).len() >= 1,
        (forall|j: int| 0 <= j < s.len() ==> s[j] != sep) ==> split_spec(s, sep) == seq![s],
        (exists|j: int| 0 <= j < s.len() && s[j] == sep) ==> split_spec(s, sep).len() >= 2,
    decreases s.len(),
{
    if exists|j: int| 0 <= j < s.len() && s[j] == sep {
        lemma_first_sep_exists(s, sep);
        let i = choose|i: int| 0 <= i < s.len() && s[i] == sep && forall|j: int| 0 <= j < i ==> s[j] != sep;
        lemma_split_first(s, sep, i);
        lemma_split_shape(s.skip(i + 1), sep);
    } else {
        lemma_split_none(s, sep);
    }
}

pub proof fn lemma_first_sep_exists(s: Seq<u8>, sep: u8)
    requires
        exists|j: int| 0 <= j < s.len() && s[j] == sep,
    ensures
        exists|i: int| 0 <= i < s.len() && s[i] == sep && forall|j: int| 0 <= j < i ==> s[j] != sep,
    decreases s.len(),
{
    let j = choose|j: int| 0 <= j < s.len() && s[j] == sep;
    if exists|k: int| 0 <= k < j && s[k] == sep {
        let t = s.take(j);
        assert(exists|k: int| 0 <= k < t.len() && t[k] == sep) by {
            let k = choose|k: int| 0 <= k < j && s[k] == sep;
            assert(t[k] == sep);
        }
        lemma_first_sep_exists(t, sep);
        let i = choose|i: int| 0 <= i < t.len() && t[i] == sep && forall|m: int| 0 <= m < i ==> t[m] != sep;
        assert(s[i] == sep);
        assert forall|m: int| 0 <= m < i implies s[m] != sep by {
            assert(t[m] == s[m]);
        }
    } else {
        assert(forall|m: int| 0 <= m < j ==> s[m] != sep);
    }
}

/// A text that splits into exactly two pieces has one separator, between them.
pub proof fn lemma_split_two(s: Seq<u8>, sep: u8) -> (i: int)
    requires
        split_spec(s, sep).len() == 2,
    ensures
        0 <= i < s.len(),
        s[i] == sep,
        split_spec(s, sep)[0] == s.take(i),
        split_spec(s, sep)[1] == s.skip(i + 1),
{
    lemma_split_shape(s, sep);
    if !(exists|j: int| 0 <= j < s.len() && s[j] == sep) {
        assert(false);
    }
    lemma_first_sep_exists(s, sep);
    let i = choose|i: int| 0 <= i < s.len() && s[i] == sep && forall|j: int| 0 <= j < i ==> s[j] != sep;
    lemma_split_first(s, sep, i);
    let rest = s.skip(i + 1);
    lemma_split_shape(rest, sep);
    if exists|j: int| 0 <= j < rest.len() && rest[j] == sep {
        assert(false);
    }
    i
}

/// Every piece of a split is at most as long as the text, and the first
/// piece ends at or before any separator.
pub proof fn lemma_split_lengths(s: Seq<u8>, sep: u8)
    ensures
        forall|k: int| 0 <= k < split_spec(s, sep).len() ==> #[trigger] split_spec(s, sep)[k].len() <= s.len(),
        forall|i: int| 0 <= i < s.len() && s[i] == sep ==> split_spec(s, sep)[0].len() <= i,
    decreases s.len(),
{
    lemma_split_shape(s, sep);
    if exists|j: int| 0 <= j < s.len() && s[j] == sep {
        lemma_first_sep_exists(s, sep);
        let f = choose|f: int| 0 <= f < s.len() && s[f] == sep && forall|j: int| 0 <= j < f ==> s[j] != sep;
        lemma_split_first(s, sep, f);
        let rest = s.skip(f + 1);
        lemma_split_lengths(rest, sep);
        assert forall|k: int| 0 <= k < split_spec(s, sep).len() implies #[trigger] split_spec(s, sep)[k].len() <= s.len() by {
            if k > 0 {
                assert(split_spec(s, sep)[k] == split_spec(rest, sep)[k - 1]);
            }
        }
        assert forall|i: int| 0 <= i < s.len() && s[i] == sep implies split_spec(s, sep)[0].len() <= i by {
            if i < f {
                assert(s[i] != sep);
            }
        }
    }
}

/// `s.split(sep).collect::<Vec<_>>()` for a one-byte separator.
pub fn split_bytes(s: &[u8], sep: u8) -> (r: Vec<Vec<u8>>)
    ensures
        r@.len() == split_spec(s@, sep).len(),
        forall|k: int| 0 <= k < r@.len() ==> #[trigger] r@[k]@ == split_spec(s@, sep)[k],
{
    let mut out: Vec<Vec<u8>> = Vec::new();
    let ghost mut done: Seq<Seq<u8>> = Seq::empty();
    proof {
        assert(s@.skip(0) =~= s@);
        assert(done + split_spec(s@.skip(0), sep) =~= split_spec(s@, sep));
    }
    let mut start: usize = 0;
    let mut i: usize = 0;
    while i < s.len()
        invariant
            start <= i <= s@.len(),
            out@.len() == done.len(),
            forall|k: int| 0 <= k < out@.len() ==> #[trigger] out@[k]@ == done[k],
            forall|j: int| start <= j < i ==> s@[j] != sep,
            split_spec(s@, sep) == done + split_spec(s@.skip(start as int), sep),
        decreases s@.len() - i,
    {
        if s[i] == sep {
            let piece = slice_to_vec_bytes(&s[start..i]);
            proof {
                lemma_split_piece(s@, sep, start as int, i as int);
                done = done.push(piece@);
                assert(split_spec(s@, sep) =~= done + split_spec(s@.skip(i + 1), sep));
            }
            out.push(piece);
            start = i + 1;
        }
        i = i + 1;
    }
    let last = slice_to_vec_bytes(&s[start..s.len()]);
    proof {
        lemma_split_last(s@, sep, start as int);
        done = done.push(last@);
        assert(split_spec(s@, sep) =~= done);
    }
    out.push(last);
    out
}

/// An owned copy of a byte slice.
pub fn slice_to_vec_bytes(s: &[u8]) -> (r: Vec<u8>)
    ensures
        r@ == s@,
{
    let mut v: Vec<u8> = Vec::new();
    push_all(&mut v, s);
    proof {
        assert(v@ =~= s@);
    }
    v
}

} // verus!
