//! Byte-level text handling shared by the shell, the program loader and the
//! configuration reader: trailing-whitespace trimming, splitting at a
//! separator byte, substring search and decimal integers.
//!
//! Text is UTF-8. Whitespace is the set of Unicode `White_Space` characters,
//! recognised by their UTF-8 encodings; integers are written as an optional
//! sign followed by one or more ASCII digits, with no other character.
use vstd::prelude::*;

verus! {

/// The length in bytes of the whitespace character that `s` ends with, or 0
/// when it ends with none.
pub open spec fn ws_tail_len(s: Seq<u8>) -> nat {
    let n = s.len() as int;
    if n >= 1 && (s[n - 1] == 9 || s[n - 1] == 10 || s[n - 1] == 11 || s[n - 1] == 12
        || s[n - 1] == 13 || s[n - 1] == 32) {
        1
    } else if n >= 2 && s[n - 2] == 0xC2 && (s[n - 1] == 0x85 || s[n - 1] == 0xA0) {
        2
    } else if n >= 3 && ((s[n - 3] == 0xE1 && s[n - 2] == 0x9A && s[n - 1] == 0x80) || (s[n - 3]
        == 0xE2 && s[n - 2] == 0x80 && ((0x80 <= s[n - 1] && s[n - 1] <= 0x8A) || s[n - 1] == 0xA8
        || s[n - 1] == 0xA9 || s[n - 1] == 0xAF)) || (s[n - 3] == 0xE2 && s[n - 2] == 0x81 && s[n
        - 1] == 0x9F) || (s[n - 3] == 0xE3 && s[n - 2] == 0x80 && s[n - 1] == 0x80)) {
        3
    } else {
        0
    }
}

/// `s` without its trailing whitespace.
pub open spec fn spec_trim_end(s: Seq<u8>) -> Seq<u8>
    decreases s.len(),
{
    let k = ws_tail_len(s);
    if k == 0 || k > s.len() {
        s
    } else {
        spec_trim_end(s.take(s.len() - k))
    }
}

/// The length in bytes of the whitespace character that `s` starts with,
/// or 0 when it starts with none.
pub open spec fn ws_head_len(s: Seq<u8>) -> nat {
    let n = s.len();
    if n >= 1 && (s[0] == 9 || s[0] == 10 || s[0] == 11 || s[0] == 12 || s[0] == 13 || s[0] == 32) {
        1
    } else if n >= 2 && s[0] == 0xC2 && (s[1] == 0x85 || s[1] == 0xA0) {
        2
    } else if n >= 3 && ((s[0] == 0xE1 && s[1] == 0x9A && s[2] == 0x80) || (s[0] == 0xE2 && s[1]
        == 0x80 && ((0x80 <= s[2] && s[2] <= 0x8A) || s[2] == 0xA8 || s[2] == 0xA9 || s[2] == 0xAF))
        || (s[0] == 0xE2 && s[1] == 0x81 && s[2] == 0x9F) || (s[0] == 0xE3 && s[1] == 0x80 && s[2]
        == 0x80)) {
        3
    } else {
        0
    }
}

/// `s` without its leading whitespace.
pub open spec fn spec_trim_start(s: Seq<u8>) -> Seq<u8>
    decreases s.len(),
{
    let k = ws_head_len(s);
    if k == 0 || k > s.len() {
        s
    } else {
        spec_trim_start(s.skip(k as int))
    }
}

/// `s` without its leading and trailing whitespace.
pub open spec fn spec_trim(s: Seq<u8>) -> Seq<u8> {
    spec_trim_start(spec_trim_end(s))
}

/// The pieces of `s` between occurrences of `sep`, in order; `n` separators
/// give `n + 1` pieces, some of them empty.
pub open spec fn spec_split(s: Seq<u8>, sep: u8) -> Seq<Seq<u8>>
    decreases s.len(),
{
    if s.len() == 0 {
        seq![Seq::<u8>::empty()]
    } else {
        let r = spec_split(s.drop_last(), sep);
        if s.last() == sep {
            r.push(Seq::<u8>::empty())
        } else {
            r.update(r.len() - 1, r.last().push(s.last()))
        }
    }
}

/// `pat` occurs in `s` as a contiguous run of bytes.
#[verifier::opaque]
pub open spec fn spec_contains(s: Seq<u8>, pat: Seq<u8>) -> bool {
    exists|i: int| 0 <= i <= s.len() - pat.len() && #[trigger] s.subrange(i, i + pat.len()) == pat
}

/// Splitting after byte `k` of `s` does not cut a UTF-8 character in two.
pub open spec fn is_char_boundary(s: Seq<u8>, k: int) -> bool {
    0 <= k <= s.len() && (k == s.len() || !(0x80 <= s[k] && s[k] <= 0xBF))
}

pub open spec fn is_digit(c: u8) -> bool {
    48 <= c <= 57
}

pub open spec fn all_digits(s: Seq<u8>) -> bool {
    forall|i: int| 0 <= i < s.len() ==> is_digit(#[trigger] s[i])
}

/// The number that the ASCII digits `s` write in decimal.
pub open spec fn digits_value(s: Seq<u8>) -> nat
    decreases s.len(),
{
    if s.len() == 0 {
        0
    } else {
        digits_value(s.drop_last()) * 10 + (s.last() - 48) as nat
    }
}

/// An unsigned integer: an optional `+`, then one or more digits.
pub open spec fn spec_parse_unsigned(s: Seq<u8>) -> Option<nat> {
    let d = if s.len() > 0 && s[0] == 43u8 { s.skip(1) } else { s };
    if d.len() > 0 && all_digits(d) {
        Some(digits_value(d))
    } else {
        None
    }
}

/// A signed integer: an optional `+` or `-`, then one or more digits.
pub open spec fn spec_parse_signed(s: Seq<u8>) -> Option<int> {
    if s.len() > 0 && s[0] == 45u8 {
        let d = s.skip(1);
        if d.len() > 0 && all_digits(d) {
            Some(-(digits_value(d) as int))
        } else {
            None
        }
    } else {
        match spec_parse_unsigned(s) {
            Some(v) => Some(v as int),
            None => None,
        }
    }
}

/// The unsigned integer that `s` writes, when there is one and it is at most `max`.
pub open spec fn parsed_unsigned_upto(s: Seq<u8>, max: nat) -> Option<nat> {
    match spec_parse_unsigned(s) {
        Some(v) => if v <= max { Some(v) } else { None },
        None => None,
    }
}

/// `n` written in decimal, without sign or leading zeros.
pub open spec fn decimal(n: nat) -> Seq<u8>
    decreases n,
{
    if n < 10 {
        seq![(48 + n) as u8]
    } else {
        decimal(n / 10).push((48 + n % 10) as u8)
    }
}

/// `v` written in decimal, with a `-` when it is negative.
pub open spec fn signed_decimal(v: int) -> Seq<u8> {
    if v < 0 {
        seq![45u8] + decimal((-v) as nat)
    } else {
        decimal(v as nat)
    }
}

/// The views of a sequence of byte vectors.
pub open spec fn vecs_view(v: Seq<Vec<u8>>) -> Seq<Seq<u8>> {
    v.map_values(|x: Vec<u8>| x@)
}

pub proof fn lemma_split_nonempty(s: Seq<u8>, sep: u8)
    ensures
        spec_split(s, sep).len() >= 1,
    decreases s.len(),
{
    if s.len() > 0 {
        lemma_split_nonempty(s.drop_last(), sep);
    }
}

proof fn lemma_digits_prefix(s: Seq<u8>, k: int)
    requires
        0 <= k <= s.len(),
    ensures
        digits_value(s.take(k)) <= digits_value(s),
    decreases s.len(),
{
    if k < s.len() {
        lemma_digits_prefix(s.drop_last(), k);
        assert(s.drop_last().take(k) =~= s.take(k));
    } else {
        assert(s.take(k) =~= s);
    }
}

/// Decimal numerals are one or more ASCII digits.
pub proof fn lemma_decimal_digits(n: nat)
    ensures
        decimal(n).len() >= 1,
        all_digits(decimal(n)),
        digits_value(decimal(n)) == n,
    decreases n,
{
    if n >= 10 {
        lemma_decimal_digits(n / 10);
        let d = decimal(n);
        assert(d.drop_last() =~= decimal(n / 10));
        assert forall|i: int| 0 <= i < d.len() implies is_digit(#[trigger] d[i]) by {
            if i < d.len() - 1 {
                assert(d[i] == decimal(n / 10)[i]);
            }
        }
        assert((n / 10) * 10 + n % 10 == n) by (nonlinear_arith);
        assert(d.last() == (48 + n % 10) as u8);
        assert(d.last() - 48 == n % 10);
        assert(digits_value(d) == digits_value(d.drop_last()) * 10 + (d.last() - 48) as nat);
        assert(digits_value(d) == (n / 10) * 10 + n % 10);
    } else {
        let d = decimal(n);
        assert(d.drop_last() =~= Seq::<u8>::empty());
        assert(d.last() == (48 + n) as u8);
        assert(digits_value(d) == digits_value(d.drop_last()) * 10 + (d.last() - 48) as nat);
    }
}

/// The parsers read decimal notation: the numeral of any `n` reads as `n`,
/// unsigned or signed, and with a `-` in front it reads as `-n`; every
/// integer's signed numeral reads as that integer.
pub proof fn lemma_parse_decimal(n: nat, v: int)
    ensures
        spec_parse_unsigned(decimal(n)) == Some(n),
        spec_parse_signed(decimal(n)) == Some(n as int),
        spec_parse_signed(seq![45u8] + decimal(n)) == Some(-(n as int)),
        spec_parse_signed(signed_decimal(v)) == Some(v),
{
    lemma_decimal_digits(n);
    assert(is_digit(decimal(n)[0]));
    let m = seq![45u8] + decimal(n);
    assert(m.skip(1) =~= decimal(n));
    if v < 0 {
        let k = (-v) as nat;
        lemma_decimal_digits(k);
        assert((seq![45u8] + decimal(k)).skip(1) =~= decimal(k));
    } else {
        lemma_decimal_digits(v as nat);
        assert(is_digit(decimal(v as nat)[0]));
    }
}

/// Trailing-whitespace trimming leaves text that ends in a digit alone.
pub proof fn lemma_trim_end_digit_end(s: Seq<u8>)
    requires
        s.len() >= 1,
        is_digit(s.last()),
    ensures
        spec_trim_end(s) == s,
{
}

/// Splitting at `sep` text with no `sep` after some prefix: the prefix's
/// last piece grows by that text.
pub proof fn lemma_split_append(p: Seq<u8>, b: Seq<u8>, sep: u8)
    requires
        forall|i: int| 0 <= i < b.len() ==> b[i] != sep,
    ensures
        spec_split(p + b, sep) == spec_split(p, sep).update(
            spec_split(p, sep).len() - 1,
            spec_split(p, sep).last() + b,
        ),
    decreases b.len(),
{
    lemma_split_nonempty(p, sep);
    if b.len() == 0 {
        assert(p + b =~= p);
        assert(spec_split(p, sep).last() + b =~= spec_split(p, sep).last());
        assert(spec_split(p, sep).update(spec_split(p, sep).len() - 1, spec_split(p, sep).last())
            =~= spec_split(p, sep));
    } else {
        lemma_split_append(p, b.drop_last(), sep);
        assert((p + b).drop_last() =~= p + b.drop_last());
        assert((p + b).last() == b.last());
        lemma_split_nonempty(p + b.drop_last(), sep);
        assert((spec_split(p, sep).last() + b.drop_last()).push(b.last()) =~= spec_split(p, sep).last() + b);
        assert(spec_split(p + b, sep) =~= spec_split(p, sep).update(
            spec_split(p, sep).len() - 1,
            spec_split(p, sep).last() + b,
        ));
    }
}

/// Two pieces of text with no `sep` in them, joined by one `sep`, split
/// back into those two pieces.
pub proof fn lemma_split_two(a: Seq<u8>, b: Seq<u8>, sep: u8)
    requires
        forall|i: int| 0 <= i < a.len() ==> a[i] != sep,
        forall|i: int| 0 <= i < b.len() ==> b[i] != sep,
    ensures
        spec_split(a + seq![sep] + b, sep) == seq![a, b],
{
    let e = Seq::<u8>::empty();
    lemma_split_append(e, a, sep);
    assert(e + a =~= a);
    assert(spec_split(e, sep) =~= seq![e]);
    assert(spec_split(a, sep) =~= seq![a]);
    let p = a + seq![sep];
    assert(p.drop_last() =~= a);
    assert(spec_split(p, sep) =~= seq![a, e]);
    lemma_split_append(p, b, sep);
    assert(e + b =~= b);
    assert(spec_split(p + b, sep) =~= seq![a, b]);
}

/// Text occurs in anything that starts with it.
pub proof fn lemma_contains_prefix(p: Seq<u8>, rest: Seq<u8>)
    ensures
        spec_contains(p + rest, p),
{
    reveal(spec_contains);
    let s = p + rest;
    assert(s.subrange(0int, 0int + p.len()) =~= p);
}

/// A run that contains a byte that `s` lacks does not occur in `s`.
pub proof fn lemma_absent_byte(s: Seq<u8>, pat: Seq<u8>, j: int)
    requires
        0 <= j < pat.len(),
        forall|i: int| 0 <= i < s.len() ==> s[i] != pat[j],
    ensures
        !spec_contains(s, pat),
{
    reveal(spec_contains);
    if spec_contains(s, pat) {
        let i = choose|i: int| 0 <= i <= s.len() - pat.len() && #[trigger] s.subrange(i, i + pat.len()) == pat;
        assert(s.subrange(i, i + pat.len())[j] == s[i + j]);
    }
}

/// The bytes `s[lo..hi]` as a vector of their own.
pub fn copy_range(s: &[u8], lo: usize, hi: usize) -> (r: Vec<u8>)
    requires
        lo <= hi <= s@.len(),
    ensures
        r@ == s@.subrange(lo as int, hi as int),
{
    let mut r: Vec<u8> = Vec::new();
    let mut i = lo;
    while i < hi
        invariant
            lo <= i <= hi <= s@.len(),
            r@ == s@.subrange(lo as int, i as int),
        decreases hi - i,
    {
        r.push(s[i]);
        i = i + 1;
        assert(r@ =~= s@.subrange(lo as int, i as int));
    }
    r
}

fn ws_tail_len_of_prefix(s: &[u8], n: usize) -> (k: usize)
    requires
        n <= s@.len(),
    ensures
        k == ws_tail_len(s@.take(n as int)),
{
    let ghost t = s@.take(n as int);
    if n >= 1 {
        let c = s[n - 1];
        if c == 9 || c == 10 || c == 11 || c == 12 || c == 13 || c == 32 {
            return 1;
        }
    }
    if n >= 2 {
        let b = s[n - 2];
        let c = s[n - 1];
        if b == 0xC2 && (c == 0x85 || c == 0xA0) {
            return 2;
        }
    }
    if n >= 3 {
        let a = s[n - 3];
        let b = s[n - 2];
        let c = s[n - 1];
        if (a == 0xE1 && b == 0x9A && c == 0x80) || (a == 0xE2 && b == 0x80 && ((0x80 <= c && c
            <= 0x8A) || c == 0xA8 || c == 0xA9 || c == 0xAF)) || (a == 0xE2 && b == 0x81 && c
            == 0x9F) || (a == 0xE3 && b == 0x80 && c == 0x80) {
            return 3;
        }
    }
    0
}

/// The length of `s` without its trailing whitespace.
pub fn trim_end_len(s: &[u8]) -> (n: usize)
    ensures
        n <= s@.len(),
        s@.take(n as int) == spec_trim_end(s@),
{
    let mut n = s.len();
    assert(s@.take(n as int) =~= s@);
    loop
        invariant
            n <= s@.len(),
            spec_trim_end(s@.take(n as int)) == spec_trim_end(s@),
        decreases n,
    {
        let k = ws_tail_len_of_prefix(s, n);
        if k == 0 || k > n {
            return n;
        }
        assert(s@.take(n as int).take(n - k) =~= s@.take((n - k) as int));
        n = n - k;
    }
}

/// `s` without its trailing whitespace.
pub fn trim_end(s: &[u8]) -> (r: Vec<u8>)
    ensures
        r@ == spec_trim_end(s@),
{
    let n = trim_end_len(s);
    let r = copy_range(s, 0, n);
    assert(r@ =~= s@.take(n as int));
    r
}

fn ws_head_len_from(s: &[u8], i: usize) -> (k: usize)
    requires
        i <= s@.len(),
    ensures
        k == ws_head_len(s@.skip(i as int)),
{
    let n = s.len() - i;
    let ghost t = s@.skip(i as int);
    if n >= 1 {
        let c = s[i];
        if c == 9 || c == 10 || c == 11 || c == 12 || c == 13 || c == 32 {
            return 1;
        }
    }
    if n >= 2 {
        let a = s[i];
        let b = s[i + 1];
        if a == 0xC2 && (b == 0x85 || b == 0xA0) {
            return 2;
        }
    }
    if n >= 3 {
        let a = s[i];
        let b = s[i + 1];
        let c = s[i + 2];
        if (a == 0xE1 && b == 0x9A && c == 0x80) || (a == 0xE2 && b == 0x80 && ((0x80 <= c && c
            <= 0x8A) || c == 0xA8 || c == 0xA9 || c == 0xAF)) || (a == 0xE2 && b == 0x81 && c
            == 0x9F) || (a == 0xE3 && b == 0x80 && c == 0x80) {
            return 3;
        }
    }
    0
}

/// Where `s` starts once its leading whitespace is gone.
pub fn trim_start_pos(s: &[u8]) -> (i: usize)
    ensures
        i <= s@.len(),
        s@.skip(i as int) == spec_trim_start(s@),
{
    let mut i: usize = 0;
    assert(s@.skip(0) =~= s@);
    loop
        invariant
            i <= s@.len(),
            spec_trim_start(s@.skip(i as int)) == spec_trim_start(s@),
        decreases s@.len() - i,
    {
        let k = ws_head_len_from(s, i);
        if k == 0 || k > s.len() - i {
            return i;
        }
        assert(s@.skip(i as int).skip(k as int) =~= s@.skip(i + k));
        i = i + k;
    }
}

/// `s` without its leading and trailing whitespace.
pub fn trim(s: &[u8]) -> (r: Vec<u8>)
    ensures
        r@ == spec_trim(s@),
{
    let t = trim_end(s);
    let i = trim_start_pos(t.as_slice());
    let r = copy_range(t.as_slice(), i, t.len());
    assert(r@ =~= t@.skip(i as int));
    r
}

/// The pieces of `s` between occurrences of `sep`.
pub fn split_bytes(s: &[u8], sep: u8) -> (r: Vec<Vec<u8>>)
    ensures
        vecs_view(r@) == spec_split(s@, sep),
{
    let mut pieces: Vec<Vec<u8>> = Vec::new();
    let mut cur: Vec<u8> = Vec::new();
    let mut i: usize = 0;
    assert(s@.take(0) =~= Seq::<u8>::empty());
    assert(vecs_view(pieces@).push(cur@) =~= seq![Seq::<u8>::empty()]);
    while i < s.len()
        invariant
            i <= s@.len(),
            spec_split(s@.take(i as int), sep) == vecs_view(pieces@).push(cur@),
        decreases s@.len() - i,
    {
        let c = s[i];
        assert(s@.take(i + 1).drop_last() =~= s@.take(i as int));
        if c == sep {
            pieces.push(cur);
            cur = Vec::new();
            assert(vecs_view(pieces@).push(cur@) =~= spec_split(s@.take(i + 1), sep));
        } else {
            cur.push(c);
            assert(vecs_view(pieces@).push(cur@) =~= spec_split(s@.take(i + 1), sep));
        }
        i = i + 1;
    }
    pieces.push(cur);
    assert(s@.take(s@.len() as int) =~= s@);
    assert(vecs_view(pieces@) =~= spec_split(s@, sep));
    pieces
}

/// Whether `pat` occurs in `s`.
pub fn contains_bytes(s: &[u8], pat: &[u8]) -> (r: bool)
    ensures
        r == spec_contains(s@, pat@),
{
    reveal(spec_contains);
    if pat.len() > s.len() {
        return false;
    }
    if pat.len() == 0 {
        assert(s@.subrange(0int, 0int + pat@.len()) =~= pat@);
        return true;
    }
    let last = s.len() - pat.len();
    let mut i: usize = 0;
    while i <= last
        invariant
            pat@.len() <= s@.len(),
            s@.len() <= usize::MAX,
            0 < pat@.len(),
            last == s@.len() - pat@.len(),
            forall|j: int| 0 <= j < i ==> #[trigger] s@.subrange(j, j + pat@.len()) != pat@,
        decreases last + 1 - i,
    {
        let mut j: usize = 0;
        let mut same = true;
        while j < pat.len()
            invariant
                i <= last,
                pat@.len() <= s@.len(),
                s@.len() <= usize::MAX,
                last == s@.len() - pat@.len(),
                j <= pat@.len(),
                same <==> (forall|t: int| 0 <= t < j ==> s@[i + t] == pat@[t]),
            decreases pat@.len() - j,
        {
            if s[i + j] != pat[j] {
                same = false;
            }
            j = j + 1;
        }
        if same {
            assert(s@.subrange(i as int, i + pat@.len()) =~= pat@);
            proof {
                reveal(spec_contains);
            }
            return true;
        }
        assert(s@[i + (j - 1) as int] != pat@[j - 1] || exists|t: int| 0 <= t < j && s@[i + t] != pat@[t]);
        let ghost t = choose|t: int| 0 <= t < j && s@[i + t] != pat@[t];
        assert(s@.subrange(i as int, i + pat@.len())[t] != pat@[t]);
        i = i + 1;
    }
    false
}

/// The value of the digits `s[start..]`, when they are all digits, there is
/// at least one, and the value is at most `limit`.
fn digits_upto(s: &[u8], start: usize, limit: u64) -> (r: Option<u64>)
    requires
        start <= s@.len(),
    ensures
        ({
            let d = s@.skip(start as int);
            &&& r is Some <==> (d.len() > 0 && all_digits(d) && digits_value(d) <= limit)
            &&& r is Some ==> r->0 == digits_value(d)
        }),
{
    let ghost d = s@.skip(start as int);
    if start == s.len() {
        return None;
    }
    let mut acc: u64 = 0;
    let mut i = start;
    assert(d.take(0) =~= Seq::<u8>::empty());
    while i < s.len()
        invariant
            start <= i <= s@.len(),
            d == s@.skip(start as int),
            all_digits(d.take(i - start)),
            acc == digits_value(d.take(i - start)),
            acc <= limit,
        decreases s@.len() - i,
    {
        let c = s[i];
        let ghost k = (i - start) as int;
        assert(d[k] == c);
        if c < 48 || c > 57 {
            assert(!all_digits(d) || !is_digit(d[k]));
            return None;
        }
        let dv = (c - 48) as u64;
        assert(d.take(k + 1).drop_last() =~= d.take(k));
        if dv > limit || acc > (limit - dv) / 10 {
            proof {
                assert(acc * 10 + dv > limit) by (nonlinear_arith)
                    requires
                        dv > limit || acc > (limit - dv) / 10,
                        0 <= dv <= 9,
                        limit >= acc;
                if all_digits(d) {
                    lemma_digits_prefix(d, k + 1);
                }
            }
            return None;
        }
        proof {
            assert(acc * 10 + dv <= limit) by (nonlinear_arith)
                requires
                    acc <= (limit - dv) / 10,
                    dv <= limit,
            ;
        }
        acc = acc * 10 + dv;
        i = i + 1;
        assert forall|t: int| 0 <= t < i - start implies is_digit(#[trigger] d.take(i - start)[t]) by {
            if t < k {
                assert(d.take(i - start)[t] == d.take(k)[t]);
            }
        }
    }
    assert(d.take(i - start) =~= d);
    Some(acc)
}

/// The unsigned integer `s` writes, when it writes one that is at most `limit`.
pub fn parse_unsigned(s: &[u8], limit: u64) -> (r: Option<u64>)
    ensures
        r is Some <==> parsed_unsigned_upto(s@, limit as nat) is Some,
        r is Some ==> r->0 == parsed_unsigned_upto(s@, limit as nat)->0,
{
    if s.len() > 0 && s[0] == 43u8 {
        digits_upto(s, 1, limit)
    } else {
        assert(s@.skip(0) =~= s@);
        digits_upto(s, 0, limit)
    }
}

/// `s` as a `u8`, as `str::parse::<u8>` reads it.
pub fn parse_u8(s: &[u8]) -> (r: Option<u8>)
    ensures
        r is Some <==> parsed_unsigned_upto(s@, u8::MAX as nat) is Some,
        r is Some ==> r->0 == parsed_unsigned_upto(s@, u8::MAX as nat)->0,
{
    match parse_unsigned(s, u8::MAX as u64) {
        Some(v) => Some(v as u8),
        None => None,
    }
}

/// `s` as a `u16`, as `str::parse::<u16>` reads it.
pub fn parse_u16(s: &[u8]) -> (r: Option<u16>)
    ensures
        r is Some <==> parsed_unsigned_upto(s@, u16::MAX as nat) is Some,
        r is Some ==> r->0 == parsed_unsigned_upto(s@, u16::MAX as nat)->0,
{
    match parse_unsigned(s, u16::MAX as u64) {
        Some(v) => Some(v as u16),
        None => None,
    }
}

/// `s` as a `u32`, as `str::parse::<u32>` reads it.
pub fn parse_u32(s: &[u8]) -> (r: Option<u32>)
    ensures
        r is Some <==> parsed_unsigned_upto(s@, u32::MAX as nat) is Some,
        r is Some ==> r->0 == parsed_unsigned_upto(s@, u32::MAX as nat)->0,
{
    match parse_unsigned(s, u32::MAX as u64) {
        Some(v) => Some(v as u32),
        None => None,
    }
}

/// `s` as a `u64`, as `str::parse::<u64>` reads it.
pub fn parse_u64(s: &[u8]) -> (r: Option<u64>)
    ensures
        r is Some <==> parsed_unsigned_upto(s@, u64::MAX as nat) is Some,
        r is Some ==> r->0 == parsed_unsigned_upto(s@, u64::MAX as nat)->0,
{
    parse_unsigned(s, u64::MAX)
}

/// `s` as a `usize`, as `str::parse::<usize>` reads it.
pub fn parse_usize(s: &[u8]) -> (r: Option<usize>)
    ensures
        r is Some <==> parsed_unsigned_upto(s@, usize::MAX as nat) is Some,
        r is Some ==> r->0 == parsed_unsigned_upto(s@, usize::MAX as nat)->0,
{
    match parse_unsigned(s, usize::MAX as u64) {
        Some(v) => Some(v as usize),
        None => None,
    }
}

/// `s` as an `i32`, as `str::parse::<i32>` reads it.
pub fn parse_i32(s: &[u8]) -> (r: Option<i32>)
    ensures
        r is Some <==> (spec_parse_signed(s@) is Some && i32::MIN <= spec_parse_signed(s@)->0 <= i32::MAX),
        r is Some ==> r->0 == spec_parse_signed(s@)->0,
{
    if s.len() > 0 && s[0] == 45u8 {
        match digits_upto(s, 1, 2147483648u64) {
            Some(m) => Some((0i64 - m as i64) as i32),
            None => None,
        }
    } else {
        match parse_unsigned(s, i32::MAX as u64) {
            Some(v) => Some(v as i32),
            None => None,
        }
    }
}

} // verus!
