//! The cassette wire format: a verified codec for recorded interactions.
//!
//! A cassette is stored as one array of interaction objects. Every
//! production has a specification-level encoder (`enc_*`), a
//! specification-level parser (`dec_*`), and executable functions proved to
//! match them; `lemma_cassette_round_trip` shows that parsing an encoded
//! cassette gives back the same interactions.

use vstd::prelude::*;
use crate::urls::{run_end, lemma_run_end, lemma_run_end_value};

verus! {

// ---------------------------------------------------------------------------
// Fixed byte sequences
// ---------------------------------------------------------------------------

/// Whether a byte is an ASCII decimal digit.
pub open spec fn is_digit(b: u8) -> bool {
    48 <= b <= 57
}

/// The digit class as a closure.
pub open spec fn digit_pred() -> spec_fn(u8) -> bool {
    |b: u8| is_digit(b)
}

/// Expects the fixed byte sequence `lit` at `i`; the position after it.
pub open spec fn dec_lit(s: Seq<u8>, i: int, lit: Seq<u8>) -> Option<int> {
    if 0 <= i && i + lit.len() <= s.len() && s.subrange(i, i + lit.len()) == lit {
        Some(i + lit.len())
    } else {
        None
    }
}

/// Consumes the fixed byte sequence `lit` at `i`.
fn expect_lit(s: &Vec<u8>, i: usize, lit: &Vec<u8>) -> (r: Option<usize>)
    requires
        i <= s@.len(),
    ensures
        match r {
            Some(j) => dec_lit(s@, i as int, lit@) == Some(j as int) && j == i + lit@.len() && j
                <= s@.len(),
            None => dec_lit(s@, i as int, lit@) is None,
        },
{
    if s.len() - i < lit.len() {
        return None;
    }
    let mut k: usize = 0;
    while k < lit.len()
        invariant
            k <= lit@.len(),
            i + lit@.len() <= s@.len(),
            s@.len() <= usize::MAX,
            forall|m: int| 0 <= m < k ==> s@[i + m] == lit@[m],
        decreases lit@.len() - k,
    {
        if s[i + k] != lit[k] {
            proof {
                assert(s@.subrange(i as int, i + lit@.len())[k as int] != lit@[k as int]);
            }
            return None;
        }
        k += 1;
    }
    proof {
        assert(s@.subrange(i as int, i + lit@.len()) =~= lit@);
    }
    Some(i + lit.len())
}

// ---------------------------------------------------------------------------
// Numbers: canonical decimal
// ---------------------------------------------------------------------------

/// The value of a digit string, most significant digit first.
pub open spec fn dec_dig_val(s: Seq<u8>) -> int
    decreases s.len(),
{
    if s.len() == 0 {
        0
    } else {
        dec_dig_val(s.drop_last()) * 10 + (s.last() - 48)
    }
}

/// The canonical decimal form of a number.
pub open spec fn enc_u64(n: u64) -> Seq<u8>
    decreases n,
{
    if n < 10 {
        seq![(n + 48) as u8]
    } else {
        enc_u64((n / 10) as u64) + seq![((n % 10) + 48) as u8]
    }
}

/// Parses a canonical decimal number: at least one digit, no leading zero,
/// fits in a `u64`.
pub open spec fn dec_u64(s: Seq<u8>, i: int) -> Option<(u64, int)> {
    let e = run_end(s, i, digit_pred());
    if !(0 <= i < e) {
        None
    } else if s[i] == 48 && e > i + 1 {
        None
    } else if dec_dig_val(s.subrange(i, e)) > u64::MAX {
        None
    } else {
        Some((dec_dig_val(s.subrange(i, e)) as u64, e))
    }
}

proof fn lemma_enc_u64_digits(n: u64)
    ensures
        enc_u64(n).len() >= 1,
        forall|m: int| 0 <= m < enc_u64(n).len() ==> is_digit(#[trigger] enc_u64(n)[m]),
        n >= 1 ==> enc_u64(n)[0] != 48,
        n < 10 ==> enc_u64(n).len() == 1,
    decreases n,
{
    if n >= 10 {
        lemma_enc_u64_digits(n / 10);
        assert(forall|m: int|
            0 <= m < enc_u64(n / 10).len() ==> enc_u64(n)[m] == enc_u64(n / 10)[m]);
        assert(enc_u64(n).last() == ((n % 10) + 48) as u8);
    }
}

proof fn lemma_dec_enc_u64(n: u64)
    ensures
        dec_dig_val(enc_u64(n)) == n,
    decreases n,
{
    if n < 10 {
        assert(enc_u64(n) =~= seq![(n + 48) as u8]);
        assert(enc_u64(n).drop_last() =~= Seq::<u8>::empty());
        assert(dec_dig_val(Seq::<u8>::empty()) == 0);
        assert(enc_u64(n).last() == (n + 48) as u8);
    } else {
        lemma_dec_enc_u64(n / 10);
        assert(enc_u64(n).drop_last() =~= enc_u64(n / 10));
        assert(enc_u64(n).last() == ((n % 10) + 48) as u8);
    }
}

/// A digit string's prefix never exceeds its whole value.
proof fn lemma_dig_val_prefix(t: Seq<u8>, m: int)
    requires
        0 <= m <= t.len(),
        forall|j: int| 0 <= j < t.len() ==> is_digit(#[trigger] t[j]),
    ensures
        dec_dig_val(t.subrange(0, m)) <= dec_dig_val(t),
        dec_dig_val(t) >= 0,
    decreases t.len() - m,
{
    if m == t.len() {
        assert(t.subrange(0, m) =~= t);
        lemma_dig_val_nonneg(t);
    } else {
        lemma_dig_val_prefix(t, m + 1);
        let p = t.subrange(0, m);
        let p1 = t.subrange(0, m + 1);
        assert(p1.drop_last() =~= p);
        assert(p1.last() == t[m]);
        lemma_dig_val_nonneg(p);
        assert(dec_dig_val(p1) == dec_dig_val(p) * 10 + (t[m] - 48));
        assert(dec_dig_val(p) * 10 >= dec_dig_val(p)) by {
            assert(dec_dig_val(p) >= 0);
        }
    }
}

proof fn lemma_dig_val_nonneg(t: Seq<u8>)
    requires
        forall|j: int| 0 <= j < t.len() ==> is_digit(#[trigger] t[j]),
    ensures
        dec_dig_val(t) >= 0,
    decreases t.len(),
{
    if t.len() > 0 {
        assert(t.drop_last() =~= t.subrange(0, t.len() - 1));
        lemma_dig_val_nonneg(t.drop_last());
    }
}

/// A canonical decimal followed by a non-digit parses back to its value.
proof fn lemma_rt_u64(s: Seq<u8>, i: int, j: int, n: u64)
    requires
        0 <= i <= j <= s.len(),
        s.subrange(i, j) == enc_u64(n),
        j == s.len() || !is_digit(s[j]),
    ensures
        dec_u64(s, i) == Some((n, j)),
{
    lemma_enc_u64_digits(n);
    assert forall|m: int| i <= m < j implies digit_pred()(s[m]) by {
        assert(s[m] == s.subrange(i, j)[m - i]);
    }
    lemma_run_end_value(s, i, j, digit_pred());
    assert(s[i] == enc_u64(n)[0]);
    if j > i + 1 {
        assert(n >= 10) by {
            if n < 10 {
                assert(enc_u64(n).len() == 1);
            }
        }
        assert(s[i] != 48);
    }
    lemma_dec_enc_u64(n);
    assert(dec_dig_val(s.subrange(i, j)) == n);
}

/// Appends the canonical decimal form of `n` to `out`.
fn push_u64_enc(out: &mut Vec<u8>, n: u64)
    ensures
        final(out)@ == old(out)@ + enc_u64(n),
    decreases n,
{
    if n < 10 {
        out.push((n as u8) + 48);
        proof {
            assert(out@ =~= old(out)@ + enc_u64(n));
        }
    } else {
        push_u64_enc(out, n / 10);
        out.push(((n % 10) as u8) + 48);
        proof {
            assert(out@ =~= old(out)@ + enc_u64(n));
        }
    }
}

/// Scans the digit run starting at `i`.
fn scan_digits(s: &Vec<u8>, i: usize) -> (e: usize)
    requires
        i <= s@.len(),
    ensures
        e == run_end(s@, i as int, digit_pred()),
        i <= e <= s@.len(),
{
    let mut j = i;
    while j < s.len() && 48 <= s[j] && s[j] <= 57
        invariant
            i <= j <= s@.len(),
            forall|k: int| i <= k < j ==> digit_pred()(#[trigger] s@[k]),
        decreases s@.len() - j,
    {
        j += 1;
    }
    proof {
        lemma_run_end_value(s@, i as int, j as int, digit_pred());
    }
    j
}

/// Parses a canonical decimal number at `i`.
fn parse_u64(s: &Vec<u8>, i: usize) -> (r: Option<(u64, usize)>)
    requires
        i <= s@.len(),
    ensures
        match r {
            Some((n, j)) => dec_u64(s@, i as int) == Some((n, j as int)) && i < j <= s@.len(),
            None => dec_u64(s@, i as int) is None,
        },
{
    let e = scan_digits(s, i);
    proof {
        lemma_run_end(s@, i as int, digit_pred());
    }
    if e == i {
        return None;
    }
    if s[i] == 48 && e > i + 1 {
        return None;
    }
    let ghost whole = s@.subrange(i as int, e as int);
    proof {
        assert(forall|j: int| 0 <= j < whole.len() ==> is_digit(#[trigger] whole[j]));
    }
    let mut k = i;
    let mut val: u64 = 0;
    while k < e
        invariant
            i <= k <= e <= s@.len(),
            e == run_end(s@, i as int, digit_pred()),
            whole == s@.subrange(i as int, e as int),
            forall|j: int| 0 <= j < whole.len() ==> is_digit(#[trigger] whole[j]),
            forall|j: int| i <= j < e ==> digit_pred()(#[trigger] s@[j]),
            val == dec_dig_val(s@.subrange(i as int, k as int)),
        decreases e - k,
    {
        let d: u8 = s[k] - 48;
        proof {
            assert(s@.subrange(i as int, k + 1).drop_last() =~= s@.subrange(i as int, k as int));
            assert(s@.subrange(i as int, k + 1).last() == s@[k as int]);
            assert(dec_dig_val(s@.subrange(i as int, k + 1)) == val * 10 + d);
        }
        if val > (u64::MAX - (d as u64)) / 10 {
            proof {
                assert(val * 10 + d > u64::MAX) by (nonlinear_arith)
                    requires
                        val > (u64::MAX - (d as u64)) / 10,
                        d < 10,
                ;
                assert(whole.subrange(0, (k + 1) - i) =~= s@.subrange(i as int, k + 1));
                lemma_dig_val_prefix(whole, (k + 1) - i);
                assert(dec_dig_val(whole) >= dec_dig_val(s@.subrange(i as int, k + 1)));
                assert(dec_dig_val(whole) > u64::MAX);
            }
            return None;
        }
        val = val * 10 + (d as u64);
        k += 1;
    }
    proof {
        assert(s@.subrange(i as int, e as int) == whole);
        assert(val == dec_dig_val(whole));
        assert(dec_u64(s@, i as int) == Some((val, e as int)));
    }
    Some((val, e))
}

// ---------------------------------------------------------------------------
// Strings: quoted byte strings, quotes and backslashes escaped
// ---------------------------------------------------------------------------

/// How one byte is written inside a quoted string.
pub open spec fn esc_byte(b: u8) -> Seq<u8> {
    if b == 34 || b == 92 {
        seq![92u8, b]
    } else {
        seq![b]
    }
}

/// The escaped form of a byte string.
pub open spec fn esc(s: Seq<u8>) -> Seq<u8>
    decreases s.len(),
{
    if s.len() == 0 {
        Seq::empty()
    } else {
        esc_byte(s[0]) + esc(s.drop_first())
    }
}

/// The encoded form of a byte string: quoted and escaped.
pub open spec fn enc_str(s: Seq<u8>) -> Seq<u8> {
    seq![34u8] + esc(s) + seq![34u8]
}

/// Parses the remainder of a quoted string, up to and including the closing
/// quote. A backslash takes the following byte verbatim.
pub open spec fn dec_str_body(s: Seq<u8>, i: int) -> Option<(Seq<u8>, int)>
    decreases s.len() - i,
{
    if !(0 <= i < s.len()) {
        None
    } else if s[i] == 34 {
        Some((Seq::empty(), i + 1))
    } else if s[i] == 92 {
        if i + 2 <= s.len() {
            match dec_str_body(s, i + 2) {
                Some((t, j)) => Some((seq![s[i + 1]] + t, j)),
                None => None,
            }
        } else {
            None
        }
    } else {
        match dec_str_body(s, i + 1) {
            Some((t, j)) => Some((seq![s[i]] + t, j)),
            None => None,
        }
    }
}

/// Parses a quoted string at `i`.
pub open spec fn dec_str(s: Seq<u8>, i: int) -> Option<(Seq<u8>, int)> {
    if 0 <= i < s.len() && s[i] == 34 {
        dec_str_body(s, i + 1)
    } else {
        None
    }
}

/// Escaping distributes over concatenation.
proof fn lemma_esc_concat(a: Seq<u8>, b: Seq<u8>)
    ensures
        esc(a + b) == esc(a) + esc(b),
    decreases a.len(),
{
    if a.len() == 0 {
        assert(a + b =~= b);
        assert(esc(a) + esc(b) =~= esc(b));
    } else {
        lemma_esc_concat(a.drop_first(), b);
        assert((a + b).drop_first() =~= a.drop_first() + b);
        assert((a + b)[0] == a[0]);
        assert(esc(a + b) =~= esc_byte(a[0]) + (esc(a.drop_first()) + esc(b)));
        assert(esc_byte(a[0]) + (esc(a.drop_first()) + esc(b)) =~= (esc_byte(a[0]) + esc(
            a.drop_first(),
        )) + esc(b));
    }
}

/// An escaped string followed by a closing quote parses back to the string.
proof fn lemma_rt_str_body(s: Seq<u8>, i: int, j: int, v: Seq<u8>)
    requires
        0 <= i,
        i + esc(v).len() + 1 == j,
        j <= s.len(),
        s.subrange(i, j) == esc(v) + seq![34u8],
    ensures
        dec_str_body(s, i) == Some((v, j)),
    decreases v.len(),
{
    let whole = s.subrange(i, j);
    if v.len() == 0 {
        assert(whole =~= seq![34u8]);
        assert(s[i] == whole[0]);
    } else {
        assert(esc(v) == esc_byte(v[0]) + esc(v.drop_first()));
        let eb = esc_byte(v[0]);
        assert(whole[0] == eb[0]);
        assert(s[i] == eb[0]);
        if v[0] == 34 || v[0] == 92 {
            assert(s[i] == 92);
            assert(whole[1] == eb[1]);
            assert(s[i + 1] == v[0]);
            assert(s.subrange(i + 2, j) =~= esc(v.drop_first()) + seq![34u8]) by {
                assert(forall|m: int|
                    0 <= m < j - i - 2 ==> #[trigger] s.subrange(i + 2, j)[m] == whole[m + 2]);
                assert(forall|m: int|
                    0 <= m < j - i - 2 ==> #[trigger] (esc(v.drop_first()) + seq![34u8])[m] == (eb
                        + (esc(v.drop_first()) + seq![34u8]))[m + 2]);
                assert(whole =~= eb + (esc(v.drop_first()) + seq![34u8]));
            }
            lemma_rt_str_body(s, i + 2, j, v.drop_first());
            assert(dec_str_body(s, i) == Some((seq![s[i + 1]] + v.drop_first(), j)));
            assert(seq![v[0]] + v.drop_first() =~= v);
        } else {
            assert(s[i] == v[0]);
            assert(s[i] != 34 && s[i] != 92);
            assert(s.subrange(i + 1, j) =~= esc(v.drop_first()) + seq![34u8]) by {
                assert(forall|m: int|
                    0 <= m < j - i - 1 ==> #[trigger] s.subrange(i + 1, j)[m] == whole[m + 1]);
                assert(whole =~= eb + (esc(v.drop_first()) + seq![34u8]));
                assert(forall|m: int|
                    0 <= m < j - i - 1 ==> #[trigger] (esc(v.drop_first()) + seq![34u8])[m] == (eb
                        + (esc(v.drop_first()) + seq![34u8]))[m + 1]);
            }
            lemma_rt_str_body(s, i + 1, j, v.drop_first());
            assert(dec_str_body(s, i) == Some((seq![s[i]] + v.drop_first(), j)));
            assert(seq![v[0]] + v.drop_first() =~= v);
        }
    }
}

/// An encoded string parses back to its contents.
pub proof fn lemma_rt_str(s: Seq<u8>, i: int, j: int, v: Seq<u8>)
    requires
        0 <= i,
        i + esc(v).len() + 2 == j,
        j <= s.len(),
        s.subrange(i, j) == enc_str(v),
    ensures
        dec_str(s, i) == Some((v, j)),
{
    let whole = s.subrange(i, j);
    assert(s[i] == whole[0]);
    assert(s[i] == 34);
    assert(s.subrange(i + 1, j) =~= esc(v) + seq![34u8]) by {
        assert(forall|m: int|
            0 <= m < j - i - 1 ==> #[trigger] s.subrange(i + 1, j)[m] == whole[m + 1]);
        assert(whole =~= seq![34u8] + (esc(v) + seq![34u8]));
        assert(forall|m: int|
            0 <= m < j - i - 1 ==> #[trigger] (esc(v) + seq![34u8])[m] == (seq![34u8] + (esc(v)
                + seq![34u8]))[m + 1]);
    }
    lemma_rt_str_body(s, i + 1, j, v);
}

/// Appends the escaped form of `src` to `out`.
fn push_escaped(out: &mut Vec<u8>, src: &Vec<u8>)
    ensures
        final(out)@ == old(out)@ + esc(src@),
{
    let mut k: usize = 0;
    while k < src.len()
        invariant
            k <= src@.len(),
            out@ == old(out)@ + esc(src@.subrange(0, k as int)),
        decreases src@.len() - k,
    {
        let b = src[k];
        if b == 34 || b == 92 {
            out.push(92);
            out.push(b);
        } else {
            out.push(b);
        }
        proof {
            assert(src@.subrange(0, k + 1) =~= src@.subrange(0, k as int) + seq![src@[k as int]]);
            lemma_esc_concat(src@.subrange(0, k as int), seq![src@[k as int]]);
            assert(esc(seq![src@[k as int]]) =~= esc_byte(src@[k as int])) by {
                assert(seq![src@[k as int]].drop_first() =~= Seq::<u8>::empty());
                assert(esc(Seq::<u8>::empty()) =~= Seq::<u8>::empty());
                assert(esc_byte(src@[k as int]) + Seq::<u8>::empty() =~= esc_byte(src@[k as int]));
            }
            assert(out@ =~= old(out)@ + esc(src@.subrange(0, k + 1)));
        }
        k += 1;
    }
    proof {
        assert(src@.subrange(0, src@.len() as int) =~= src@);
    }
}

/// Appends the encoded (quoted, escaped) form of `src` to `out`.
fn push_str_enc(out: &mut Vec<u8>, src: &Vec<u8>)
    ensures
        final(out)@ == old(out)@ + enc_str(src@),
{
    out.push(34);
    push_escaped(out, src);
    out.push(34);
    proof {
        assert(out@ =~= old(out)@ + enc_str(src@));
    }
}

/// Parses a quoted string at `i`, returning its contents.
fn parse_str(s: &Vec<u8>, i: usize) -> (r: Option<(Vec<u8>, usize)>)
    requires
        i <= s@.len(),
    ensures
        match r {
            Some((v, j)) => dec_str(s@, i as int) == Some((v@, j as int)) && i < j <= s@.len(),
            None => dec_str(s@, i as int) is None,
        },
{
    if i >= s.len() || s[i] != 34 {
        return None;
    }
    let start = i + 1;
    let mut cur = start;
    let mut acc: Vec<u8> = Vec::new();
    loop
        invariant
            start == i + 1,
            start <= cur <= s@.len(),
            forall|t: Seq<u8>, j: int|
                dec_str_body(s@, cur as int) == Some((t, j)) ==> dec_str_body(s@, start as int)
                    == Some((acc@ + t, j)),
            dec_str_body(s@, cur as int) is None ==> dec_str_body(s@, start as int) is None,
            dec_str(s@, i as int) == dec_str_body(s@, start as int),
        decreases s@.len() - cur,
    {
        if cur >= s.len() {
            proof {
                assert(dec_str_body(s@, cur as int) is None);
            }
            return None;
        }
        let b = s[cur];
        if b == 34 {
            proof {
                assert(dec_str_body(s@, cur as int) == Some((Seq::<u8>::empty(), cur + 1)));
                assert(acc@ + Seq::<u8>::empty() =~= acc@);
            }
            return Some((acc, cur + 1));
        }
        if b == 92 {
            if s.len() - cur < 2 {
                proof {
                    assert(dec_str_body(s@, cur as int) is None);
                }
                return None;
            }
            let ghost acc0 = acc@;
            acc.push(s[cur + 1]);
            proof {
                assert forall|t: Seq<u8>, j: int|
                    dec_str_body(s@, (cur + 2) as int) == Some((t, j)) implies dec_str_body(
                    s@,
                    start as int,
                ) == Some((acc@ + t, j)) by {
                    assert(dec_str_body(s@, cur as int) == Some((seq![s@[cur + 1]] + t, j)));
                    assert(acc0 + (seq![s@[cur + 1]] + t) =~= acc@ + t);
                }
            }
            cur = cur + 2;
        } else {
            let ghost acc0 = acc@;
            acc.push(b);
            proof {
                assert forall|t: Seq<u8>, j: int|
                    dec_str_body(s@, (cur + 1) as int) == Some((t, j)) implies dec_str_body(
                    s@,
                    start as int,
                ) == Some((acc@ + t, j)) by {
                    assert(dec_str_body(s@, cur as int) == Some((seq![s@[cur as int]] + t, j)));
                    assert(acc0 + (seq![s@[cur as int]] + t) =~= acc@ + t);
                }
            }
            cur = cur + 1;
        }
    }
}

// ---------------------------------------------------------------------------
// Byte arrays: bodies as arrays of numbers
// ---------------------------------------------------------------------------

/// The bytes of `b` from position `k` on, as decimal numbers joined by commas.
pub open spec fn enc_u8s_from(b: Seq<u8>, k: int) -> Seq<u8>
    decreases b.len() - k,
{
    if k < 0 || k >= b.len() {
        Seq::empty()
    } else if k == b.len() - 1 {
        enc_u64(b[k] as u64)
    } else {
        enc_u64(b[k] as u64) + seq![44u8] + enc_u8s_from(b, k + 1)
    }
}

/// The encoded form of a byte array.
pub open spec fn enc_bytes(b: Seq<u8>) -> Seq<u8> {
    if b.len() == 0 {
        seq![91u8, 93u8]
    } else {
        seq![91u8] + enc_u8s_from(b, 0) + seq![93u8]
    }
}

/// Parses comma-separated byte values up to and including the closing
/// bracket.
pub open spec fn dec_u8s(s: Seq<u8>, i: int) -> Option<(Seq<u8>, int)>
    decreases s.len() - i,
{
    match dec_u64(s, i) {
        None => None,
        Some((n, j)) => {
            if n > 255 {
                None
            } else if !(i < j && j < s.len()) {
                None
            } else if s[j] == 44 {
                match dec_u8s(s, j + 1) {
                    Some((t, e)) => Some((seq![n as u8] + t, e)),
                    None => None,
                }
            } else if s[j] == 93 {
                Some((seq![n as u8], j + 1))
            } else {
                None
            }
        },
    }
}

/// Parses a byte array at `i`.
pub open spec fn dec_bytes(s: Seq<u8>, i: int) -> Option<(Seq<u8>, int)> {
    if 0 <= i < s.len() && s[i] == 91 {
        if i + 1 < s.len() && s[i + 1] == 93 {
            Some((Seq::empty(), i + 2))
        } else {
            dec_u8s(s, i + 1)
        }
    } else {
        None
    }
}

proof fn lemma_rt_u8s(s: Seq<u8>, i: int, j: int, b: Seq<u8>, k: int)
    requires
        0 <= k < b.len(),
        0 <= i <= j <= s.len(),
        s.subrange(i, j) == enc_u8s_from(b, k) + seq![93u8],
    ensures
        dec_u8s(s, i) == Some((b.skip(k), j)),
    decreases b.len() - k,
{
    let whole = s.subrange(i, j);
    let num = enc_u64(b[k] as u64);
    lemma_enc_u64_digits(b[k] as u64);
    let j1 = i + num.len();
    if k == b.len() - 1 {
        assert(whole =~= num + seq![93u8]);
    } else {
        assert(whole =~= num + (seq![44u8] + (enc_u8s_from(b, k + 1) + seq![93u8])));
    }
    assert(s.subrange(i, j1) =~= num) by {
        assert(forall|m: int| 0 <= m < num.len() ==> #[trigger] s.subrange(i, j1)[m] == whole[m]);
    }
    assert(s[j1] == whole[j1 - i]);
    if k == b.len() - 1 {
        assert(whole =~= num + seq![93u8]);
        assert(s[j1] == 93);
        lemma_rt_u64(s, i, j1, b[k] as u64);
        assert(dec_u8s(s, i) == Some((seq![b[k]], j1 + 1)));
        assert(seq![b[k]] =~= b.skip(k));
        assert(j1 + 1 == j);
    } else {
        assert(whole =~= num + (seq![44u8] + (enc_u8s_from(b, k + 1) + seq![93u8])));
        assert(s[j1] == 44);
        lemma_rt_u64(s, i, j1, b[k] as u64);
        assert(s.subrange(j1 + 1, j) =~= enc_u8s_from(b, k + 1) + seq![93u8]) by {
            assert(forall|m: int|
                0 <= m < j - j1 - 1 ==> #[trigger] s.subrange(j1 + 1, j)[m] == whole[m + (j1 + 1
                    - i)]);
        }
        lemma_rt_u8s(s, j1 + 1, j, b, k + 1);
        assert(dec_u8s(s, i) == Some((seq![b[k]] + b.skip(k + 1), j)));
        assert(seq![b[k]] + b.skip(k + 1) =~= b.skip(k));
    }
}

/// An encoded byte array parses back to its bytes.
proof fn lemma_rt_bytes(s: Seq<u8>, i: int, j: int, b: Seq<u8>)
    requires
        0 <= i <= j <= s.len(),
        s.subrange(i, j) == enc_bytes(b),
    ensures
        dec_bytes(s, i) == Some((b, j)),
{
    let whole = s.subrange(i, j);
    if b.len() == 0 {
        assert(whole =~= seq![91u8, 93u8]);
        assert(s[i] == whole[0]);
        assert(s[i] == 91);
        assert(s[i + 1] == whole[1]);
        assert(dec_bytes(s, i) == Some((Seq::<u8>::empty(), i + 2)));
    } else {
        assert(whole =~= seq![91u8] + (enc_u8s_from(b, 0) + seq![93u8]));
        assert(s[i] == whole[0]);
        assert(s[i] == 91);
        assert(s[i + 1] == whole[1]);
        assert(enc_u8s_from(b, 0).len() > 0) by {
            lemma_enc_u64_digits(b[0] as u64);
        }
        assert(enc_u8s_from(b, 0)[0] == enc_u64(b[0] as u64)[0]);
        assert(is_digit(enc_u8s_from(b, 0)[0])) by {
            lemma_enc_u64_digits(b[0] as u64);
        }
        assert(s[i + 1] != 93);
        assert(s.subrange(i + 1, j) =~= enc_u8s_from(b, 0) + seq![93u8]) by {
            assert(forall|m: int|
                0 <= m < j - i - 1 ==> #[trigger] s.subrange(i + 1, j)[m] == whole[m + 1]);
        }
        lemma_rt_u8s(s, i + 1, j, b, 0);
        assert(b.skip(0) =~= b);
    }
}

/// Appends the encoded form of the byte array `src` to `out`.
fn push_bytes_enc(out: &mut Vec<u8>, src: &Vec<u8>)
    ensures
        final(out)@ == old(out)@ + enc_bytes(src@),
{
    out.push(91);
    if src.len() == 0 {
        out.push(93);
        proof {
            assert(out@ =~= old(out)@ + enc_bytes(src@));
        }
        return ;
    }
    let ghost target = old(out)@ + enc_bytes(src@);
    let mut k: usize = 0;
    proof {
        assert(out@ + (enc_u8s_from(src@, 0) + seq![93u8]) =~= target);
    }
    while k < src.len()
        invariant
            k <= src@.len(),
            src@.len() > 0,
            k < src@.len() ==> out@ + (enc_u8s_from(src@, k as int) + seq![93u8]) == target,
            k == src@.len() ==> out@ + seq![93u8] == target,
        decreases src@.len() - k,
    {
        push_u64_enc(out, src[k] as u64);
        if k + 1 < src.len() {
            out.push(44);
            proof {
                assert(out@ + (enc_u8s_from(src@, k + 1) + seq![93u8]) =~= target);
            }
        } else {
            proof {
                assert(out@ + seq![93u8] =~= target);
            }
        }
        k += 1;
    }
    out.push(93);
    proof {
        assert(out@ =~= target);
    }
}

/// Parses a byte array at `i`, returning its bytes.
fn parse_bytes(s: &Vec<u8>, i: usize) -> (r: Option<(Vec<u8>, usize)>)
    requires
        i <= s@.len(),
    ensures
        match r {
            Some((v, j)) => dec_bytes(s@, i as int) == Some((v@, j as int)) && i < j <= s@.len(),
            None => dec_bytes(s@, i as int) is None,
        },
{
    if i >= s.len() || s[i] != 91 {
        return None;
    }
    if i + 1 < s.len() && s[i + 1] == 93 {
        let empty: Vec<u8> = Vec::new();
        proof {
            assert(empty@ =~= Seq::<u8>::empty());
        }
        return Some((empty, i + 2));
    }
    let start = i + 1;
    let mut cur = start;
    let mut acc: Vec<u8> = Vec::new();
    loop
        invariant
            start == i + 1,
            start <= cur <= s@.len(),
            forall|t: Seq<u8>, j: int|
                dec_u8s(s@, cur as int) == Some((t, j)) ==> dec_u8s(s@, start as int) == Some(
                    (acc@ + t, j),
                ),
            dec_u8s(s@, cur as int) is None ==> dec_u8s(s@, start as int) is None,
            dec_bytes(s@, i as int) == dec_u8s(s@, start as int),
        decreases s@.len() - cur,
    {
        let parsed = parse_u64(s, cur);
        match parsed {
            None => {
                return None;
            },
            Some((n, j)) => {
                proof {
                    lemma_run_end(s@, cur as int, digit_pred());
                }
                if n > 255 {
                    return None;
                }
                if j >= s.len() {
                    return None;
                }
                let ghost acc0 = acc@;
                acc.push(n as u8);
                if s[j] == 44 {
                    proof {
                        assert forall|t: Seq<u8>, e: int|
                            dec_u8s(s@, (j + 1) as int) == Some((t, e)) implies dec_u8s(
                            s@,
                            start as int,
                        ) == Some((acc@ + t, e)) by {
                            assert(dec_u8s(s@, cur as int) == Some((seq![(n as u8)] + t, e)));
                            assert(acc0 + (seq![(n as u8)] + t) =~= acc@ + t);
                        }
                    }
                    cur = j + 1;
                } else if s[j] == 93 {
                    proof {
                        assert(dec_u8s(s@, cur as int) == Some((seq![(n as u8)], j + 1)));
                        assert(acc0 + seq![(n as u8)] =~= acc@);
                    }
                    return Some((acc, j + 1));
                } else {
                    return None;
                }
            },
        }
    }
}

// ---------------------------------------------------------------------------
// Header lists: arrays of two-element name/value string arrays
// ---------------------------------------------------------------------------

/// The encoded form of one header pair: `["name","value"]`.
pub open spec fn enc_hpair(p: (Seq<u8>, Seq<u8>)) -> Seq<u8> {
    seq![91u8] + enc_str(p.0) + seq![44u8] + enc_str(p.1) + seq![93u8]
}

/// Parses one header pair at `i`.
pub open spec fn dec_hpair(s: Seq<u8>, i: int) -> Option<((Seq<u8>, Seq<u8>), int)> {
    if !(0 <= i < s.len() && s[i] == 91) {
        None
    } else {
        match dec_str(s, i + 1) {
            None => None,
            Some((name, j1)) => {
                if !(i + 1 < j1 && j1 < s.len() && s[j1] == 44) {
                    None
                } else {
                    match dec_str(s, j1 + 1) {
                        None => None,
                        Some((value, j2)) => {
                            if j2 < s.len() && s[j2] == 93 {
                                Some(((name, value), j2 + 1))
                            } else {
                                None
                            }
                        },
                    }
                }
            },
        }
    }
}

/// The header pairs of `h` from position `k` on, joined by commas.
pub open spec fn enc_hlist_from(h: Seq<(Seq<u8>, Seq<u8>)>, k: int) -> Seq<u8>
    decreases h.len() - k,
{
    if k < 0 || k >= h.len() {
        Seq::empty()
    } else if k == h.len() - 1 {
        enc_hpair(h[k])
    } else {
        enc_hpair(h[k]) + seq![44u8] + enc_hlist_from(h, k + 1)
    }
}

/// The encoded form of a header list.
pub open spec fn enc_hlist(h: Seq<(Seq<u8>, Seq<u8>)>) -> Seq<u8> {
    if h.len() == 0 {
        seq![91u8, 93u8]
    } else {
        seq![91u8] + enc_hlist_from(h, 0) + seq![93u8]
    }
}

/// Parses comma-separated header pairs up to and including the closing
/// bracket.
pub open spec fn dec_hpairs(s: Seq<u8>, i: int) -> Option<(Seq<(Seq<u8>, Seq<u8>)>, int)>
    decreases s.len() - i,
{
    match dec_hpair(s, i) {
        None => None,
        Some((p, j)) => {
            if !(i < j && j < s.len()) {
                None
            } else if s[j] == 44 {
                match dec_hpairs(s, j + 1) {
                    Some((t, e)) => Some((seq![p] + t, e)),
                    None => None,
                }
            } else if s[j] == 93 {
                Some((seq![p], j + 1))
            } else {
                None
            }
        },
    }
}

/// Parses a header list at `i`.
pub open spec fn dec_hlist(s: Seq<u8>, i: int) -> Option<(Seq<(Seq<u8>, Seq<u8>)>, int)> {
    if 0 <= i < s.len() && s[i] == 91 {
        if i + 1 < s.len() && s[i + 1] == 93 {
            Some((Seq::empty(), i + 2))
        } else {
            dec_hpairs(s, i + 1)
        }
    } else {
        None
    }
}

proof fn lemma_rt_hpair(s: Seq<u8>, i: int, j: int, p: (Seq<u8>, Seq<u8>))
    requires
        0 <= i <= j <= s.len(),
        s.subrange(i, j) == enc_hpair(p),
    ensures
        dec_hpair(s, i) == Some((p, j)),
        j - i >= 7,
{
    let whole = s.subrange(i, j);
    let n1 = enc_str(p.0);
    let n2 = enc_str(p.1);
    assert(whole =~= seq![91u8] + (n1 + (seq![44u8] + (n2 + seq![93u8]))));
    assert(s[i] == whole[0]);
    let j1 = i + 1 + n1.len();
    let j2 = j1 + 1 + n2.len();
    assert(s.subrange(i + 1, j1) =~= n1) by {
        assert(forall|m: int|
            0 <= m < n1.len() ==> #[trigger] s.subrange(i + 1, j1)[m] == whole[m + 1]);
    }
    lemma_rt_str(s, i + 1, j1, p.0);
    assert(s[j1] == whole[j1 - i]);
    assert(s[j1] == 44);
    assert(s.subrange(j1 + 1, j2) =~= n2) by {
        assert(forall|m: int|
            0 <= m < n2.len() ==> #[trigger] s.subrange(j1 + 1, j2)[m] == whole[m + (j1 + 1 - i)]);
    }
    lemma_rt_str(s, j1 + 1, j2, p.1);
    assert(s[j2] == whole[j2 - i]);
    assert(s[j2] == 93);
    assert(j2 + 1 == j);
}

proof fn lemma_rt_hpairs(s: Seq<u8>, i: int, j: int, h: Seq<(Seq<u8>, Seq<u8>)>, k: int)
    requires
        0 <= k < h.len(),
        0 <= i <= j <= s.len(),
        s.subrange(i, j) == enc_hlist_from(h, k) + seq![93u8],
    ensures
        dec_hpairs(s, i) == Some((h.skip(k), j)),
    decreases h.len() - k,
{
    let whole = s.subrange(i, j);
    let pe = enc_hpair(h[k]);
    let j1 = i + pe.len();
    if k == h.len() - 1 {
        assert(whole =~= pe + seq![93u8]);
    } else {
        assert(whole =~= pe + (seq![44u8] + (enc_hlist_from(h, k + 1) + seq![93u8])));
    }
    assert(whole.len() >= pe.len() + 1);
    assert(j - i == whole.len());
    assert(i <= j1 <= j);
    assert(s.subrange(i, j1) =~= pe) by {
        assert(forall|m: int| 0 <= m < pe.len() ==> #[trigger] s.subrange(i, j1)[m] == whole[m]);
    }
    lemma_rt_hpair(s, i, j1, h[k]);
    assert(s[j1] == whole[j1 - i]);
    if k == h.len() - 1 {
        assert(whole =~= pe + seq![93u8]);
        assert(s[j1] == 93);
        assert(dec_hpairs(s, i) == Some((seq![h[k]], j1 + 1)));
        assert(seq![h[k]] =~= h.skip(k));
        assert(j1 + 1 == j);
    } else {
        assert(whole =~= pe + (seq![44u8] + (enc_hlist_from(h, k + 1) + seq![93u8])));
        assert(s[j1] == 44);
        assert(s.subrange(j1 + 1, j) =~= enc_hlist_from(h, k + 1) + seq![93u8]) by {
            assert(forall|m: int|
                0 <= m < j - j1 - 1 ==> #[trigger] s.subrange(j1 + 1, j)[m] == whole[m + (j1 + 1
                    - i)]);
        }
        lemma_rt_hpairs(s, j1 + 1, j, h, k + 1);
        assert(dec_hpairs(s, i) == Some((seq![h[k]] + h.skip(k + 1), j)));
        assert(seq![h[k]] + h.skip(k + 1) =~= h.skip(k));
    }
}

/// An encoded header list parses back to its pairs.
proof fn lemma_rt_hlist(s: Seq<u8>, i: int, j: int, h: Seq<(Seq<u8>, Seq<u8>)>)
    requires
        0 <= i <= j <= s.len(),
        s.subrange(i, j) == enc_hlist(h),
    ensures
        dec_hlist(s, i) == Some((h, j)),
{
    let whole = s.subrange(i, j);
    if h.len() == 0 {
        assert(whole =~= seq![91u8, 93u8]);
        assert(s[i] == whole[0]);
        assert(s[i] == 91);
        assert(s[i + 1] == whole[1]);
        assert(dec_hlist(s, i) == Some((Seq::<(Seq<u8>, Seq<u8>)>::empty(), i + 2)));
        assert(Seq::<(Seq<u8>, Seq<u8>)>::empty() =~= h);
    } else {
        assert(whole =~= seq![91u8] + (enc_hlist_from(h, 0) + seq![93u8]));
        assert(s[i] == whole[0]);
        assert(s[i] == 91);
        assert(s[i + 1] == whole[1]);
        assert(enc_hlist_from(h, 0)[0] == enc_hpair(h[0])[0]);
        assert(enc_hpair(h[0])[0] == 91);
        assert(s[i + 1] == 91);
        assert(s.subrange(i + 1, j) =~= enc_hlist_from(h, 0) + seq![93u8]) by {
            assert(forall|m: int|
                0 <= m < j - i - 1 ==> #[trigger] s.subrange(i + 1, j)[m] == whole[m + 1]);
        }
        lemma_rt_hpairs(s, i + 1, j, h, 0);
        assert(h.skip(0) =~= h);
    }
}

/// Appends the encoded form of the header list `h` to `out`.
fn push_hlist_enc(out: &mut Vec<u8>, h: &crate::data::Headers)
    ensures
        final(out)@ == old(out)@ + enc_hlist(h@),
{
    out.push(91);
    if h.len() == 0 {
        out.push(93);
        proof {
            assert(out@ =~= old(out)@ + enc_hlist(h@));
        }
        return ;
    }
    let ghost target = old(out)@ + enc_hlist(h@);
    let mut k: usize = 0;
    proof {
        assert(out@ + (enc_hlist_from(h@, 0) + seq![93u8]) =~= target);
    }
    while k < h.len()
        invariant
            k <= h@.len(),
            h@.len() > 0,
            k < h@.len() ==> out@ + (enc_hlist_from(h@, k as int) + seq![93u8]) == target,
            k == h@.len() ==> out@ + seq![93u8] == target,
        decreases h@.len() - k,
    {
        let entry = h.entry(k);
        out.push(91);
        push_str_enc(out, &entry.0);
        out.push(44);
        push_str_enc(out, &entry.1);
        out.push(93);
        proof {
            assert(entry.0@ == h@[k as int].0);
            assert(entry.1@ == h@[k as int].1);
        }
        if k + 1 < h.len() {
            out.push(44);
            proof {
                assert(out@ + (enc_hlist_from(h@, k + 1) + seq![93u8]) =~= target);
            }
        } else {
            proof {
                assert(out@ + seq![93u8] =~= target);
            }
        }
        k += 1;
    }
    out.push(93);
    proof {
        assert(out@ =~= target);
    }
}

/// Parses one header pair at `i`.
fn parse_hpair(s: &Vec<u8>, i: usize) -> (r: Option<((Vec<u8>, Vec<u8>), usize)>)
    requires
        i <= s@.len(),
    ensures
        match r {
            Some((p, j)) => dec_hpair(s@, i as int) == Some(((p.0@, p.1@), j as int)) && i < j
                <= s@.len(),
            None => dec_hpair(s@, i as int) is None,
        },
{
    if i >= s.len() || s[i] != 91 {
        return None;
    }
    let (name, j1) = match parse_str(s, i + 1) {
        None => {
            return None;
        },
        Some(x) => x,
    };
    proof {
        lemma_dec_str_bounds(s@, (i + 1) as int);
    }
    if j1 >= s.len() || s[j1] != 44 {
        return None;
    }
    let (value, j2) = match parse_str(s, j1 + 1) {
        None => {
            return None;
        },
        Some(x) => x,
    };
    proof {
        lemma_dec_str_bounds(s@, (j1 + 1) as int);
    }
    if j2 >= s.len() || s[j2] != 93 {
        return None;
    }
    Some(((name, value), j2 + 1))
}

/// A parsed string always ends after where it began.
proof fn lemma_dec_str_body_bounds(s: Seq<u8>, i: int)
    ensures
        dec_str_body(s, i) matches Some((t, j)) ==> i < j <= s.len(),
    decreases s.len() - i,
{
    if 0 <= i < s.len() {
        if s[i] == 34 {
        } else if s[i] == 92 {
            if i + 2 <= s.len() {
                lemma_dec_str_body_bounds(s, i + 2);
            }
        } else {
            lemma_dec_str_body_bounds(s, i + 1);
        }
    }
}

proof fn lemma_dec_str_bounds(s: Seq<u8>, i: int)
    ensures
        dec_str(s, i) matches Some((t, j)) ==> i + 1 < j <= s.len(),
{
    if 0 <= i < s.len() && s[i] == 34 {
        lemma_dec_str_body_bounds(s, i + 1);
    }
}

/// Parses a header list at `i`, returning its pairs.
fn parse_hlist(s: &Vec<u8>, i: usize) -> (r: Option<(Vec<(Vec<u8>, Vec<u8>)>, usize)>)
    requires
        i <= s@.len(),
    ensures
        match r {
            Some((v, j)) => dec_hlist(s@, i as int) == Some(
                (crate::data::view_pairs(v@), j as int),
            ) && i < j <= s@.len(),
            None => dec_hlist(s@, i as int) is None,
        },
{
    if i >= s.len() || s[i] != 91 {
        return None;
    }
    if i + 1 < s.len() && s[i + 1] == 93 {
        let empty: Vec<(Vec<u8>, Vec<u8>)> = Vec::new();
        proof {
            assert(crate::data::view_pairs(empty@) =~= Seq::<(Seq<u8>, Seq<u8>)>::empty());
        }
        return Some((empty, i + 2));
    }
    let start = i + 1;
    let mut cur = start;
    let mut acc: Vec<(Vec<u8>, Vec<u8>)> = Vec::new();
    loop
        invariant
            start == i + 1,
            start <= cur <= s@.len(),
            forall|t: Seq<(Seq<u8>, Seq<u8>)>, j: int|
                dec_hpairs(s@, cur as int) == Some((t, j)) ==> dec_hpairs(s@, start as int)
                    == Some((crate::data::view_pairs(acc@) + t, j)),
            dec_hpairs(s@, cur as int) is None ==> dec_hpairs(s@, start as int) is None,
            dec_hlist(s@, i as int) == dec_hpairs(s@, start as int),
        decreases s@.len() - cur,
    {
        let parsed = parse_hpair(s, cur);
        match parsed {
            None => {
                return None;
            },
            Some((p, j)) => {
                if j >= s.len() {
                    return None;
                }
                let ghost acc0 = crate::data::view_pairs(acc@);
                let ghost pv = (p.0@, p.1@);
                acc.push(p);
                proof {
                    assert(crate::data::view_pairs(acc@) =~= acc0.push(pv));
                }
                if s[j] == 44 {
                    proof {
                        assert forall|t: Seq<(Seq<u8>, Seq<u8>)>, e: int|
                            dec_hpairs(s@, (j + 1) as int) == Some((t, e)) implies dec_hpairs(
                            s@,
                            start as int,
                        ) == Some((crate::data::view_pairs(acc@) + t, e)) by {
                            assert(dec_hpairs(s@, cur as int) == Some((seq![pv] + t, e)));
                            assert(acc0 + (seq![pv] + t) =~= crate::data::view_pairs(acc@) + t);
                        }
                    }
                    cur = j + 1;
                } else if s[j] == 93 {
                    proof {
                        assert(dec_hpairs(s@, cur as int) == Some((seq![pv], j + 1)));
                        assert(acc0 + seq![pv] =~= crate::data::view_pairs(acc@));
                    }
                    return Some((acc, j + 1));
                } else {
                    return None;
                }
            },
        }
    }
}

// ---------------------------------------------------------------------------
// The fixed keys of the wire format
// ---------------------------------------------------------------------------

/// The bytes of `{\"request\":`.
pub open spec fn lit_req_open() -> Seq<u8> {
    seq![123u8, 34u8, 114u8, 101u8, 113u8, 117u8, 101u8, 115u8, 116u8, 34u8, 58u8]
}

fn lit_req_open_vec() -> (v: Vec<u8>)
    ensures
        v@ == lit_req_open(),
        v@.len() == 11,
{
    let mut v: Vec<u8> = Vec::new();
    v.push(123);
    v.push(34);
    v.push(114);
    v.push(101);
    v.push(113);
    v.push(117);
    v.push(101);
    v.push(115);
    v.push(116);
    v.push(34);
    v.push(58);
    proof {
        assert(v@ =~= lit_req_open());
    }
    v
}

/// The bytes of `,\"response\":`.
pub open spec fn lit_resp_key() -> Seq<u8> {
    seq![44u8, 34u8, 114u8, 101u8, 115u8, 112u8, 111u8, 110u8, 115u8, 101u8, 34u8, 58u8]
}

fn lit_resp_key_vec() -> (v: Vec<u8>)
    ensures
        v@ == lit_resp_key(),
        v@.len() == 12,
{
    let mut v: Vec<u8> = Vec::new();
    v.push(44);
    v.push(34);
    v.push(114);
    v.push(101);
    v.push(115);
    v.push(112);
    v.push(111);
    v.push(110);
    v.push(115);
    v.push(101);
    v.push(34);
    v.push(58);
    proof {
        assert(v@ =~= lit_resp_key());
    }
    v
}

/// The bytes of `{\"target\":`.
pub open spec fn lit_target_key() -> Seq<u8> {
    seq![123u8, 34u8, 116u8, 97u8, 114u8, 103u8, 101u8, 116u8, 34u8, 58u8]
}

fn lit_target_key_vec() -> (v: Vec<u8>)
    ensures
        v@ == lit_target_key(),
        v@.len() == 10,
{
    let mut v: Vec<u8> = Vec::new();
    v.push(123);
    v.push(34);
    v.push(116);
    v.push(97);
    v.push(114);
    v.push(103);
    v.push(101);
    v.push(116);
    v.push(34);
    v.push(58);
    proof {
        assert(v@ =~= lit_target_key());
    }
    v
}

/// The bytes of `{\"url\":`.
pub open spec fn lit_url_key() -> Seq<u8> {
    seq![123u8, 34u8, 117u8, 114u8, 108u8, 34u8, 58u8]
}

fn lit_url_key_vec() -> (v: Vec<u8>)
    ensures
        v@ == lit_url_key(),
        v@.len() == 7,
{
    let mut v: Vec<u8> = Vec::new();
    v.push(123);
    v.push(34);
    v.push(117);
    v.push(114);
    v.push(108);
    v.push(34);
    v.push(58);
    proof {
        assert(v@ =~= lit_url_key());
    }
    v
}

/// The bytes of `,\"method\":`.
pub open spec fn lit_method_key() -> Seq<u8> {
    seq![44u8, 34u8, 109u8, 101u8, 116u8, 104u8, 111u8, 100u8, 34u8, 58u8]
}

fn lit_method_key_vec() -> (v: Vec<u8>)
    ensures
        v@ == lit_method_key(),
        v@.len() == 10,
{
    let mut v: Vec<u8> = Vec::new();
    v.push(44);
    v.push(34);
    v.push(109);
    v.push(101);
    v.push(116);
    v.push(104);
    v.push(111);
    v.push(100);
    v.push(34);
    v.push(58);
    proof {
        assert(v@ =~= lit_method_key());
    }
    v
}

/// The bytes of `,\"gzip\":`.
pub open spec fn lit_gzip_key() -> Seq<u8> {
    seq![44u8, 34u8, 103u8, 122u8, 105u8, 112u8, 34u8, 58u8]
}

fn lit_gzip_key_vec() -> (v: Vec<u8>)
    ensures
        v@ == lit_gzip_key(),
        v@.len() == 8,
{
    let mut v: Vec<u8> = Vec::new();
    v.push(44);
    v.push(34);
    v.push(103);
    v.push(122);
    v.push(105);
    v.push(112);
    v.push(34);
    v.push(58);
    proof {
        assert(v@ =~= lit_gzip_key());
    }
    v
}

/// The bytes of `,\"redirect\":`.
pub open spec fn lit_redirect_key() -> Seq<u8> {
    seq![44u8, 34u8, 114u8, 101u8, 100u8, 105u8, 114u8, 101u8, 99u8, 116u8, 34u8, 58u8]
}

fn lit_redirect_key_vec() -> (v: Vec<u8>)
    ensures
        v@ == lit_redirect_key(),
        v@.len() == 12,
{
    let mut v: Vec<u8> = Vec::new();
    v.push(44);
    v.push(34);
    v.push(114);
    v.push(101);
    v.push(100);
    v.push(105);
    v.push(114);
    v.push(101);
    v.push(99);
    v.push(116);
    v.push(34);
    v.push(58);
    proof {
        assert(v@ =~= lit_redirect_key());
    }
    v
}

/// The bytes of `{\"Limit\":`.
pub open spec fn lit_limit_open() -> Seq<u8> {
    seq![123u8, 34u8, 76u8, 105u8, 109u8, 105u8, 116u8, 34u8, 58u8]
}

fn lit_limit_open_vec() -> (v: Vec<u8>)
    ensures
        v@ == lit_limit_open(),
        v@.len() == 9,
{
    let mut v: Vec<u8> = Vec::new();
    v.push(123);
    v.push(34);
    v.push(76);
    v.push(105);
    v.push(109);
    v.push(105);
    v.push(116);
    v.push(34);
    v.push(58);
    proof {
        assert(v@ =~= lit_limit_open());
    }
    v
}

/// The bytes of `\"None\"`.
pub open spec fn lit_none_str() -> Seq<u8> {
    seq![34u8, 78u8, 111u8, 110u8, 101u8, 34u8]
}

fn lit_none_str_vec() -> (v: Vec<u8>)
    ensures
        v@ == lit_none_str(),
        v@.len() == 6,
{
    let mut v: Vec<u8> = Vec::new();
    v.push(34);
    v.push(78);
    v.push(111);
    v.push(110);
    v.push(101);
    v.push(34);
    proof {
        assert(v@ =~= lit_none_str());
    }
    v
}

/// The bytes of `,\"timeout\":`.
pub open spec fn lit_timeout_key() -> Seq<u8> {
    seq![44u8, 34u8, 116u8, 105u8, 109u8, 101u8, 111u8, 117u8, 116u8, 34u8, 58u8]
}

fn lit_timeout_key_vec() -> (v: Vec<u8>)
    ensures
        v@ == lit_timeout_key(),
        v@.len() == 11,
{
    let mut v: Vec<u8> = Vec::new();
    v.push(44);
    v.push(34);
    v.push(116);
    v.push(105);
    v.push(109);
    v.push(101);
    v.push(111);
    v.push(117);
    v.push(116);
    v.push(34);
    v.push(58);
    proof {
        assert(v@ =~= lit_timeout_key());
    }
    v
}

/// The bytes of `,\"basic_auth\":`.
pub open spec fn lit_auth_key() -> Seq<u8> {
    seq![44u8, 34u8, 98u8, 97u8, 115u8, 105u8, 99u8, 95u8, 97u8, 117u8, 116u8, 104u8, 34u8, 58u8]
}

fn lit_auth_key_vec() -> (v: Vec<u8>)
    ensures
        v@ == lit_auth_key(),
        v@.len() == 14,
{
    let mut v: Vec<u8> = Vec::new();
    v.push(44);
    v.push(34);
    v.push(98);
    v.push(97);
    v.push(115);
    v.push(105);
    v.push(99);
    v.push(95);
    v.push(97);
    v.push(117);
    v.push(116);
    v.push(104);
    v.push(34);
    v.push(58);
    proof {
        assert(v@ =~= lit_auth_key());
    }
    v
}

/// The bytes of `{\"username\":`.
pub open spec fn lit_username_key() -> Seq<u8> {
    seq![123u8, 34u8, 117u8, 115u8, 101u8, 114u8, 110u8, 97u8, 109u8, 101u8, 34u8, 58u8]
}

fn lit_username_key_vec() -> (v: Vec<u8>)
    ensures
        v@ == lit_username_key(),
        v@.len() == 12,
{
    let mut v: Vec<u8> = Vec::new();
    v.push(123);
    v.push(34);
    v.push(117);
    v.push(115);
    v.push(101);
    v.push(114);
    v.push(110);
    v.push(97);
    v.push(109);
    v.push(101);
    v.push(34);
    v.push(58);
    proof {
        assert(v@ =~= lit_username_key());
    }
    v
}

/// The bytes of `,\"password\":`.
pub open spec fn lit_password_key() -> Seq<u8> {
    seq![44u8, 34u8, 112u8, 97u8, 115u8, 115u8, 119u8, 111u8, 114u8, 100u8, 34u8, 58u8]
}

fn lit_password_key_vec() -> (v: Vec<u8>)
    ensures
        v@ == lit_password_key(),
        v@.len() == 12,
{
    let mut v: Vec<u8> = Vec::new();
    v.push(44);
    v.push(34);
    v.push(112);
    v.push(97);
    v.push(115);
    v.push(115);
    v.push(119);
    v.push(111);
    v.push(114);
    v.push(100);
    v.push(34);
    v.push(58);
    proof {
        assert(v@ =~= lit_password_key());
    }
    v
}

/// The bytes of `,\"headers\":`.
pub open spec fn lit_headers_key() -> Seq<u8> {
    seq![44u8, 34u8, 104u8, 101u8, 97u8, 100u8, 101u8, 114u8, 115u8, 34u8, 58u8]
}

fn lit_headers_key_vec() -> (v: Vec<u8>)
    ensures
        v@ == lit_headers_key(),
        v@.len() == 11,
{
    let mut v: Vec<u8> = Vec::new();
    v.push(44);
    v.push(34);
    v.push(104);
    v.push(101);
    v.push(97);
    v.push(100);
    v.push(101);
    v.push(114);
    v.push(115);
    v.push(34);
    v.push(58);
    proof {
        assert(v@ =~= lit_headers_key());
    }
    v
}

/// The bytes of `,\"body\":`.
pub open spec fn lit_body_key() -> Seq<u8> {
    seq![44u8, 34u8, 98u8, 111u8, 100u8, 121u8, 34u8, 58u8]
}

fn lit_body_key_vec() -> (v: Vec<u8>)
    ensures
        v@ == lit_body_key(),
        v@.len() == 8,
{
    let mut v: Vec<u8> = Vec::new();
    v.push(44);
    v.push(34);
    v.push(98);
    v.push(111);
    v.push(100);
    v.push(121);
    v.push(34);
    v.push(58);
    proof {
        assert(v@ =~= lit_body_key());
    }
    v
}

/// The bytes of `null`.
pub open spec fn lit_null() -> Seq<u8> {
    seq![110u8, 117u8, 108u8, 108u8]
}

fn lit_null_vec() -> (v: Vec<u8>)
    ensures
        v@ == lit_null(),
        v@.len() == 4,
{
    let mut v: Vec<u8> = Vec::new();
    v.push(110);
    v.push(117);
    v.push(108);
    v.push(108);
    proof {
        assert(v@ =~= lit_null());
    }
    v
}

/// The bytes of `true`.
pub open spec fn lit_true() -> Seq<u8> {
    seq![116u8, 114u8, 117u8, 101u8]
}

fn lit_true_vec() -> (v: Vec<u8>)
    ensures
        v@ == lit_true(),
        v@.len() == 4,
{
    let mut v: Vec<u8> = Vec::new();
    v.push(116);
    v.push(114);
    v.push(117);
    v.push(101);
    proof {
        assert(v@ =~= lit_true());
    }
    v
}

/// The bytes of `false`.
pub open spec fn lit_false() -> Seq<u8> {
    seq![102u8, 97u8, 108u8, 115u8, 101u8]
}

fn lit_false_vec() -> (v: Vec<u8>)
    ensures
        v@ == lit_false(),
        v@.len() == 5,
{
    let mut v: Vec<u8> = Vec::new();
    v.push(102);
    v.push(97);
    v.push(108);
    v.push(115);
    v.push(101);
    proof {
        assert(v@ =~= lit_false());
    }
    v
}

/// The bytes of `,\"status\":`.
pub open spec fn lit_status_key() -> Seq<u8> {
    seq![44u8, 34u8, 115u8, 116u8, 97u8, 116u8, 117u8, 115u8, 34u8, 58u8]
}

fn lit_status_key_vec() -> (v: Vec<u8>)
    ensures
        v@ == lit_status_key(),
        v@.len() == 10,
{
    let mut v: Vec<u8> = Vec::new();
    v.push(44);
    v.push(34);
    v.push(115);
    v.push(116);
    v.push(97);
    v.push(116);
    v.push(117);
    v.push(115);
    v.push(34);
    v.push(58);
    proof {
        assert(v@ =~= lit_status_key());
    }
    v
}

// ---------------------------------------------------------------------------
// Small parsing helpers
// ---------------------------------------------------------------------------

/// Expects the single byte `b` at `i`.
pub open spec fn dec_byte(s: Seq<u8>, i: int, b: u8) -> Option<int> {
    if 0 <= i < s.len() && s[i] == b {
        Some(i + 1)
    } else {
        None
    }
}

/// Consumes the single byte `b` at `i`.
fn eat(s: &Vec<u8>, i: usize, b: u8) -> (r: Option<usize>)
    requires
        i <= s@.len(),
    ensures
        match r {
            Some(j) => dec_byte(s@, i as int, b) == Some(j as int) && j == i + 1 && j <= s@.len(),
            None => dec_byte(s@, i as int, b) is None,
        },
{
    if i < s.len() && s[i] == b {
        Some(i + 1)
    } else {
        None
    }
}

/// Splits a known concatenation: if the bytes from `i` to `j` are `a + b`,
/// then `a` sits first and `b` follows.
proof fn lemma_seg(s: Seq<u8>, i: int, j: int, a: Seq<u8>, b: Seq<u8>)
    requires
        0 <= i <= j <= s.len(),
        s.subrange(i, j) == a + b,
    ensures
        i + a.len() <= j,
        s.subrange(i, i + a.len()) == a,
        s.subrange(i + a.len(), j) == b,
{
    let ab = a + b;
    assert(s.subrange(i, j).len() == ab.len());
    assert(j - i == a.len() + b.len());
    assert forall|m: int| 0 <= m < a.len() implies s.subrange(i, i + a.len())[m] == a[m] by {
        assert(s.subrange(i, i + a.len())[m] == s[i + m]);
        assert(s.subrange(i, j)[m] == s[i + m]);
        assert(s.subrange(i, j)[m] == ab[m]);
        assert(ab[m] == a[m]);
    }
    assert(s.subrange(i, i + a.len()) =~= a);
    assert forall|m: int| 0 <= m < b.len() implies s.subrange(i + a.len(), j)[m] == b[m] by {
        assert(s.subrange(i + a.len(), j)[m] == s[i + a.len() + m]);
        assert(s.subrange(i, j)[m + a.len()] == s[i + a.len() + m]);
        assert(s.subrange(i, j)[m + a.len()] == ab[m + a.len()]);
        assert(ab[m + a.len()] == b[m]);
    }
    assert(s.subrange(i + a.len(), j) =~= b);
}

/// A literal that sits at `i` is consumed there.
proof fn lemma_lit_at(s: Seq<u8>, i: int, lit: Seq<u8>)
    requires
        0 <= i,
        i + lit.len() <= s.len(),
        s.subrange(i, i + lit.len()) == lit,
    ensures
        dec_lit(s, i, lit) == Some(i + lit.len()),
{
}

/// A literal whose first byte differs is not consumed.
proof fn lemma_lit_mismatch(s: Seq<u8>, i: int, lit: Seq<u8>)
    requires
        0 <= i < s.len(),
        lit.len() > 0,
        s[i] != lit[0],
    ensures
        dec_lit(s, i, lit) is None,
{
    if i + lit.len() <= s.len() && s.subrange(i, i + lit.len()) == lit {
        assert(s.subrange(i, i + lit.len())[0] == s[i]);
    }
}

// ---------------------------------------------------------------------------
// Small value productions
// ---------------------------------------------------------------------------

/// The encoded form of a boolean.
pub open spec fn enc_bool(b: bool) -> Seq<u8> {
    if b {
        lit_true()
    } else {
        lit_false()
    }
}

/// Parses a boolean at `i`.
pub open spec fn dec_bool(s: Seq<u8>, i: int) -> Option<(bool, int)> {
    match dec_lit(s, i, lit_true()) {
        Some(j) => Some((true, j)),
        None => match dec_lit(s, i, lit_false()) {
            Some(j) => Some((false, j)),
            None => None,
        },
    }
}

proof fn lemma_rt_bool(s: Seq<u8>, i: int, j: int, b: bool)
    requires
        0 <= i <= j <= s.len(),
        s.subrange(i, j) == enc_bool(b),
    ensures
        dec_bool(s, i) == Some((b, j)),
{
    if b {
        assert(s.subrange(i, j).len() == lit_true().len());
        assert(s.subrange(i, i + lit_true().len()) == lit_true());
        lemma_lit_at(s, i, lit_true());
    } else {
        assert(s.subrange(i, j).len() == lit_false().len());
        assert(s[i] == s.subrange(i, j)[0]);
        assert(s[i] == 102);
        assert(lit_true()[0] == 116);
        lemma_lit_mismatch(s, i, lit_true());
        assert(s.subrange(i, i + lit_false().len()) == lit_false());
        lemma_lit_at(s, i, lit_false());
    }
}

/// The encoded form of an optional number: `null` or its decimal form.
pub open spec fn enc_opt_u64(n: Option<u64>) -> Seq<u8> {
    match n {
        None => lit_null(),
        Some(v) => enc_u64(v),
    }
}

/// Parses an optional number at `i`.
pub open spec fn dec_opt_u64(s: Seq<u8>, i: int) -> Option<(Option<u64>, int)> {
    match dec_lit(s, i, lit_null()) {
        Some(j) => Some((None, j)),
        None => match dec_u64(s, i) {
            Some((n, j)) => Some((Some(n), j)),
            None => None,
        },
    }
}

proof fn lemma_rt_opt_u64(s: Seq<u8>, i: int, j: int, n: Option<u64>)
    requires
        0 <= i <= j <= s.len(),
        s.subrange(i, j) == enc_opt_u64(n),
        j == s.len() || !is_digit(s[j]),
    ensures
        dec_opt_u64(s, i) == Some((n, j)),
{
    match n {
        None => {
            assert(s.subrange(i, j).len() == lit_null().len());
            assert(s.subrange(i, i + lit_null().len()) == lit_null());
            lemma_lit_at(s, i, lit_null());
        },
        Some(v) => {
            lemma_enc_u64_digits(v);
            assert(s.subrange(i, j).len() == enc_u64(v).len());
            assert(s[i] == s.subrange(i, j)[0]);
            assert(is_digit(s[i]));
            assert(lit_null()[0] == 110);
            lemma_lit_mismatch(s, i, lit_null());
            lemma_rt_u64(s, i, j, v);
        },
    }
}

/// The encoded form of an optional byte array: `null` or the array.
pub open spec fn enc_opt_bytes(b: Option<Seq<u8>>) -> Seq<u8> {
    match b {
        None => lit_null(),
        Some(v) => enc_bytes(v),
    }
}

/// Parses an optional byte array at `i`.
pub open spec fn dec_opt_bytes(s: Seq<u8>, i: int) -> Option<(Option<Seq<u8>>, int)> {
    match dec_lit(s, i, lit_null()) {
        Some(j) => Some((None, j)),
        None => match dec_bytes(s, i) {
            Some((v, j)) => Some((Some(v), j)),
            None => None,
        },
    }
}

proof fn lemma_rt_opt_bytes(s: Seq<u8>, i: int, j: int, b: Option<Seq<u8>>)
    requires
        0 <= i <= j <= s.len(),
        s.subrange(i, j) == enc_opt_bytes(b),
    ensures
        dec_opt_bytes(s, i) == Some((b, j)),
{
    match b {
        None => {
            assert(s.subrange(i, j).len() == lit_null().len());
            assert(s.subrange(i, i + lit_null().len()) == lit_null());
            lemma_lit_at(s, i, lit_null());
        },
        Some(v) => {
            if v.len() == 0 {
                assert(s.subrange(i, j).len() == 2);
            } else {
                assert(s.subrange(i, j) =~= seq![91u8] + (enc_u8s_from(v, 0) + seq![93u8]));
            }
            assert(s[i] == s.subrange(i, j)[0]);
            assert(s[i] == 91);
            assert(lit_null()[0] == 110);
            lemma_lit_mismatch(s, i, lit_null());
            lemma_rt_bytes(s, i, j, v);
        },
    }
}

/// The encoded form of an optional string: `null` or the quoted string.
pub open spec fn enc_opt_str(v: Option<Seq<u8>>) -> Seq<u8> {
    match v {
        None => lit_null(),
        Some(t) => enc_str(t),
    }
}

/// Parses an optional string at `i`.
pub open spec fn dec_opt_str(s: Seq<u8>, i: int) -> Option<(Option<Seq<u8>>, int)> {
    match dec_lit(s, i, lit_null()) {
        Some(j) => Some((None, j)),
        None => match dec_str(s, i) {
            Some((t, j)) => Some((Some(t), j)),
            None => None,
        },
    }
}

proof fn lemma_rt_opt_str(s: Seq<u8>, i: int, j: int, v: Option<Seq<u8>>)
    requires
        0 <= i <= j <= s.len(),
        s.subrange(i, j) == enc_opt_str(v),
    ensures
        dec_opt_str(s, i) == Some((v, j)),
{
    match v {
        None => {
            assert(s.subrange(i, j).len() == lit_null().len());
            assert(s.subrange(i, i + lit_null().len()) == lit_null());
            lemma_lit_at(s, i, lit_null());
        },
        Some(t) => {
            assert(s.subrange(i, j) =~= seq![34u8] + (esc(t) + seq![34u8]));
            assert(s[i] == s.subrange(i, j)[0]);
            assert(s[i] == 34);
            assert(lit_null()[0] == 110);
            lemma_lit_mismatch(s, i, lit_null());
            lemma_rt_str(s, i, j, t);
        },
    }
}

/// The encoded form of a redirect policy: a limit object or `"None"`.
pub open spec fn enc_redirect(r: crate::data::RedirectPolicy) -> Seq<u8> {
    match r {
        crate::data::RedirectPolicy::Limit(n) => lit_limit_open() + enc_u64(n as u64) + seq![125u8],
        crate::data::RedirectPolicy::NoFollow => lit_none_str(),
    }
}

/// Parses a redirect policy at `i`.
pub open spec fn dec_redirect(s: Seq<u8>, i: int) -> Option<(crate::data::RedirectPolicy, int)> {
    match dec_lit(s, i, lit_none_str()) {
        Some(j) => Some((crate::data::RedirectPolicy::NoFollow, j)),
        None => match dec_lit(s, i, lit_limit_open()) {
            None => None,
            Some(j1) => match dec_u64(s, j1) {
                None => None,
                Some((n, j2)) => {
                    if n > usize::MAX as u64 {
                        None
                    } else {
                        match dec_byte(s, j2, 125) {
                            None => None,
                            Some(j3) => Some(
                                (crate::data::RedirectPolicy::Limit(n as usize), j3),
                            ),
                        }
                    }
                },
            },
        },
    }
}

proof fn lemma_rt_redirect(s: Seq<u8>, i: int, j: int, r: crate::data::RedirectPolicy)
    requires
        0 <= i <= j <= s.len(),
        s.subrange(i, j) == enc_redirect(r),
    ensures
        dec_redirect(s, i) == Some((r, j)),
{
    let whole = s.subrange(i, j);
    match r {
        crate::data::RedirectPolicy::NoFollow => {
            assert(whole.len() == lit_none_str().len());
            assert(s.subrange(i, i + lit_none_str().len()) == lit_none_str());
            lemma_lit_at(s, i, lit_none_str());
        },
        crate::data::RedirectPolicy::Limit(n) => {
            assert(whole =~= lit_limit_open() + (enc_u64(n as u64) + seq![125u8]));
            assert(s[i] == whole[0]);
            assert(s[i] == 123);
            assert(lit_none_str()[0] == 34);
            lemma_lit_mismatch(s, i, lit_none_str());
            lemma_seg(s, i, j, lit_limit_open(), enc_u64(n as u64) + seq![125u8]);
            lemma_lit_at(s, i, lit_limit_open());
            let j1 = i + lit_limit_open().len();
            lemma_seg(s, j1, j, enc_u64(n as u64), seq![125u8]);
            let j2 = j1 + enc_u64(n as u64).len();
            assert(s[j2] == s.subrange(j2, j)[0]);
            assert(s[j2] == 125);
            lemma_enc_u64_digits(n as u64);
            lemma_rt_u64(s, j1, j2, n as u64);
            assert(n as u64 <= usize::MAX as u64);
        },
    }
}

/// The encoded form of optional credentials: `null` or an object with the
/// username and the optional password.
pub open spec fn enc_auth(a: Option<crate::data::AuthV>) -> Seq<u8> {
    match a {
        None => lit_null(),
        Some(v) => lit_username_key() + enc_str(v.username) + lit_password_key() + enc_opt_str(
            v.password,
        ) + seq![125u8],
    }
}

/// Parses optional credentials at `i`.
pub open spec fn dec_auth(s: Seq<u8>, i: int) -> Option<(Option<crate::data::AuthV>, int)> {
    match dec_lit(s, i, lit_null()) {
        Some(j) => Some((None, j)),
        None => match dec_lit(s, i, lit_username_key()) {
            None => None,
            Some(j1) => match dec_str(s, j1) {
                None => None,
                Some((u, j2)) => match dec_lit(s, j2, lit_password_key()) {
                    None => None,
                    Some(j3) => match dec_opt_str(s, j3) {
                        None => None,
                        Some((p, j4)) => match dec_byte(s, j4, 125) {
                            None => None,
                            Some(j5) => Some(
                                (Some(crate::data::AuthV { username: u, password: p }), j5),
                            ),
                        },
                    },
                },
            },
        },
    }
}

proof fn lemma_rt_auth(s: Seq<u8>, i: int, j: int, a: Option<crate::data::AuthV>)
    requires
        0 <= i <= j <= s.len(),
        s.subrange(i, j) == enc_auth(a),
    ensures
        dec_auth(s, i) == Some((a, j)),
{
    let whole = s.subrange(i, j);
    match a {
        None => {
            assert(whole.len() == lit_null().len());
            assert(s.subrange(i, i + lit_null().len()) == lit_null());
            lemma_lit_at(s, i, lit_null());
        },
        Some(v) => {
            assert(whole =~= lit_username_key() + (enc_str(v.username) + (lit_password_key() + (
            enc_opt_str(v.password) + seq![125u8]))));
            assert(s[i] == whole[0]);
            assert(s[i] == 123);
            assert(lit_null()[0] == 110);
            lemma_lit_mismatch(s, i, lit_null());
            lemma_seg(s, i, j, lit_username_key(), enc_str(v.username) + (lit_password_key() + (
            enc_opt_str(v.password) + seq![125u8])));
            lemma_lit_at(s, i, lit_username_key());
            let j1 = i + lit_username_key().len();
            lemma_seg(s, j1, j, enc_str(v.username), lit_password_key() + (enc_opt_str(v.password)
                + seq![125u8]));
            lemma_rt_str(s, j1, j1 + enc_str(v.username).len(), v.username);
            let j2 = j1 + enc_str(v.username).len();
            lemma_seg(s, j2, j, lit_password_key(), enc_opt_str(v.password) + seq![125u8]);
            lemma_lit_at(s, j2, lit_password_key());
            let j3 = j2 + lit_password_key().len();
            lemma_seg(s, j3, j, enc_opt_str(v.password), seq![125u8]);
            let j4 = j3 + enc_opt_str(v.password).len();
            lemma_rt_opt_str(s, j3, j4, v.password);
            assert(s[j4] == s.subrange(j4, j)[0]);
            assert(s[j4] == 125);
            assert(a == Some(crate::data::AuthV { username: v.username, password: v.password }));
        },
    }
}

/// The encoded form of an optional target: `null` or an object with the
/// URL's canonical string and the method.
pub open spec fn enc_target(t: Option<crate::data::TargetV>) -> Seq<u8> {
    match t {
        None => lit_null(),
        Some(v) => lit_url_key() + enc_str(crate::urls::print_url(v.url)) + lit_method_key()
            + enc_str(v.method) + seq![125u8],
    }
}

/// Parses an optional target at `i`; the URL string must itself parse.
pub open spec fn dec_target(s: Seq<u8>, i: int) -> Option<(Option<crate::data::TargetV>, int)> {
    match dec_lit(s, i, lit_null()) {
        Some(j) => Some((None, j)),
        None => match dec_lit(s, i, lit_url_key()) {
            None => None,
            Some(j1) => match dec_str(s, j1) {
                None => None,
                Some((ub, j2)) => match crate::urls::dec_url(ub) {
                    None => None,
                    Some(u) => match dec_lit(s, j2, lit_method_key()) {
                        None => None,
                        Some(j3) => match dec_str(s, j3) {
                            None => None,
                            Some((m, j4)) => match dec_byte(s, j4, 125) {
                                None => None,
                                Some(j5) => Some(
                                    (Some(crate::data::TargetV { url: u, method: m }), j5),
                                ),
                            },
                        },
                    },
                },
            },
        },
    }
}

#[verifier::rlimit(100)]
proof fn lemma_rt_target(s: Seq<u8>, i: int, j: int, t: Option<crate::data::TargetV>)
    requires
        0 <= i <= j <= s.len(),
        s.subrange(i, j) == enc_target(t),
        t matches Some(v) ==> crate::urls::wf_url(v.url),
    ensures
        dec_target(s, i) == Some((t, j)),
{
    let whole = s.subrange(i, j);
    match t {
        None => {
            assert(whole.len() == lit_null().len());
            assert(s.subrange(i, i + lit_null().len()) == lit_null());
            lemma_lit_at(s, i, lit_null());
        },
        Some(v) => {
            let us = crate::urls::print_url(v.url);
            assert(whole =~= lit_url_key() + (enc_str(us) + (lit_method_key() + (enc_str(v.method)
                + seq![125u8]))));
            assert(s[i] == whole[0]);
            assert(s[i] == 123);
            assert(lit_null()[0] == 110);
            lemma_lit_mismatch(s, i, lit_null());
            lemma_seg(s, i, j, lit_url_key(), enc_str(us) + (lit_method_key() + (enc_str(v.method)
                + seq![125u8])));
            lemma_lit_at(s, i, lit_url_key());
            let j1 = i + lit_url_key().len();
            lemma_seg(s, j1, j, enc_str(us), lit_method_key() + (enc_str(v.method) + seq![125u8]));
            lemma_rt_str(s, j1, j1 + enc_str(us).len(), us);
            crate::urls::lemma_url_round_trip(v.url);
            let j2 = j1 + enc_str(us).len();
            lemma_seg(s, j2, j, lit_method_key(), enc_str(v.method) + seq![125u8]);
            lemma_lit_at(s, j2, lit_method_key());
            let j3 = j2 + lit_method_key().len();
            lemma_seg(s, j3, j, enc_str(v.method), seq![125u8]);
            let j4 = j3 + enc_str(v.method).len();
            lemma_rt_str(s, j3, j4, v.method);
            assert(s[j4] == s.subrange(j4, j)[0]);
            assert(s[j4] == 125);
            assert(t == Some(crate::data::TargetV { url: v.url, method: v.method }));
        },
    }
}

// ---------------------------------------------------------------------------
// Requests, responses, interactions, the cassette
// ---------------------------------------------------------------------------

/// The encoded form of a request object.
#[verifier::opaque]
pub open spec fn enc_request(r: crate::data::RequestV) -> Seq<u8> {
    lit_target_key() + enc_target(r.target) + lit_gzip_key() + enc_bool(r.gzip)
        + lit_redirect_key() + enc_redirect(r.redirect) + lit_timeout_key() + enc_opt_u64(r.timeout)
        + lit_auth_key() + enc_auth(r.basic_auth) + lit_headers_key() + enc_hlist(r.headers)
        + lit_body_key() + enc_opt_bytes(r.body) + seq![125u8]
}

/// Parses a request object at `i`.
#[verifier::opaque]
pub open spec fn dec_request(s: Seq<u8>, i: int) -> Option<(crate::data::RequestV, int)> {
    match dec_lit(s, i, lit_target_key()) {
        None => None,
        Some(p1) => match dec_target(s, p1) {
            None => None,
            Some((target, p2)) => match dec_lit(s, p2, lit_gzip_key()) {
                None => None,
                Some(p3) => match dec_bool(s, p3) {
                    None => None,
                    Some((gzip, p4)) => match dec_lit(s, p4, lit_redirect_key()) {
                        None => None,
                        Some(p5) => match dec_redirect(s, p5) {
                            None => None,
                            Some((redirect, p6)) => match dec_lit(s, p6, lit_timeout_key()) {
                                None => None,
                                Some(p7) => match dec_opt_u64(s, p7) {
                                    None => None,
                                    Some((timeout, p8)) => match dec_lit(s, p8, lit_auth_key()) {
                                        None => None,
                                        Some(p9) => match dec_auth(s, p9) {
                                            None => None,
                                            Some((basic_auth, p10)) => match dec_lit(
                                                s,
                                                p10,
                                                lit_headers_key(),
                                            ) {
                                                None => None,
                                                Some(p11) => match dec_hlist(s, p11) {
                                                    None => None,
                                                    Some((headers, p12)) => match dec_lit(
                                                        s,
                                                        p12,
                                                        lit_body_key(),
                                                    ) {
                                                        None => None,
                                                        Some(p13) => match dec_opt_bytes(s, p13) {
                                                            None => None,
                                                            Some((body, p14)) => match dec_byte(
                                                                s,
                                                                p14,
                                                                125,
                                                            ) {
                                                                None => None,
                                                                Some(p15) => Some(
                                                                    (
                                                                        crate::data::RequestV {
                                                                            target,
                                                                            gzip,
                                                                            redirect,
                                                                            timeout,
                                                                            basic_auth,
                                                                            headers,
                                                                            body,
                                                                        },
                                                                        p15,
                                                                    ),
                                                                ),
                                                            },
                                                        },
                                                    },
                                                },
                                            },
                                        },
                                    },
                                },
                            },
                        },
                    },
                },
            },
        },
    }
}

/// Chains the component parses of a request object into the whole parse.
proof fn lemma_dec_request_compose(
    s: Seq<u8>,
    i: int,
    r: crate::data::RequestV,
    q1: int,
    q2: int,
    q3: int,
    q4: int,
    q5: int,
    q6: int,
    q7: int,
    q8: int,
    q9: int,
    q10: int,
    q11: int,
    q12: int,
    q13: int,
    q14: int,
    q15: int,
)
    requires
        dec_lit(s, i, lit_target_key()) == Some(q1),
        dec_target(s, q1) == Some((r.target, q2)),
        dec_lit(s, q2, lit_gzip_key()) == Some(q3),
        dec_bool(s, q3) == Some((r.gzip, q4)),
        dec_lit(s, q4, lit_redirect_key()) == Some(q5),
        dec_redirect(s, q5) == Some((r.redirect, q6)),
        dec_lit(s, q6, lit_timeout_key()) == Some(q7),
        dec_opt_u64(s, q7) == Some((r.timeout, q8)),
        dec_lit(s, q8, lit_auth_key()) == Some(q9),
        dec_auth(s, q9) == Some((r.basic_auth, q10)),
        dec_lit(s, q10, lit_headers_key()) == Some(q11),
        dec_hlist(s, q11) == Some((r.headers, q12)),
        dec_lit(s, q12, lit_body_key()) == Some(q13),
        dec_opt_bytes(s, q13) == Some((r.body, q14)),
        dec_byte(s, q14, 125) == Some(q15),
    ensures
        dec_request(s, i) == Some((r, q15)),
{
    reveal(dec_request);
    assert(dec_request(s, i) matches Some((rv, jv)) && rv =~= r && jv == q15);
}

/// An encoded request parses back to the same request.
#[verifier::rlimit(100)]
proof fn lemma_rt_request(s: Seq<u8>, i: int, j: int, r: crate::data::RequestV)
    requires
        0 <= i <= j <= s.len(),
        s.subrange(i, j) == enc_request(r),
        r.target matches Some(t) ==> crate::urls::wf_url(t.url),
    ensures
        dec_request(s, i) == Some((r, j)),
{
    reveal(enc_request);
    let e14 = seq![125u8];
    let e13 = enc_opt_bytes(r.body);
    let e12 = lit_body_key();
    let e11 = enc_hlist(r.headers);
    let e10 = lit_headers_key();
    let e9 = enc_auth(r.basic_auth);
    let e8 = lit_auth_key();
    let e7 = enc_opt_u64(r.timeout);
    let e6 = lit_timeout_key();
    let e5 = enc_redirect(r.redirect);
    let e4 = lit_redirect_key();
    let e3 = enc_bool(r.gzip);
    let e2 = lit_gzip_key();
    let e1 = enc_target(r.target);
    let e0 = lit_target_key();
    let q14 = j - e14.len();
    lemma_seg(s, i, j, e0 + e1 + e2 + e3 + e4 + e5 + e6 + e7 + e8 + e9 + e10 + e11 + e12 + e13, e14);
    let q13 = q14 - e13.len();
    lemma_seg(s, i, q14, e0 + e1 + e2 + e3 + e4 + e5 + e6 + e7 + e8 + e9 + e10 + e11 + e12, e13);
    let q12 = q13 - e12.len();
    lemma_seg(s, i, q13, e0 + e1 + e2 + e3 + e4 + e5 + e6 + e7 + e8 + e9 + e10 + e11, e12);
    let q11 = q12 - e11.len();
    lemma_seg(s, i, q12, e0 + e1 + e2 + e3 + e4 + e5 + e6 + e7 + e8 + e9 + e10, e11);
    let q10 = q11 - e10.len();
    lemma_seg(s, i, q11, e0 + e1 + e2 + e3 + e4 + e5 + e6 + e7 + e8 + e9, e10);
    let q9 = q10 - e9.len();
    lemma_seg(s, i, q10, e0 + e1 + e2 + e3 + e4 + e5 + e6 + e7 + e8, e9);
    let q8 = q9 - e8.len();
    lemma_seg(s, i, q9, e0 + e1 + e2 + e3 + e4 + e5 + e6 + e7, e8);
    let q7 = q8 - e7.len();
    lemma_seg(s, i, q8, e0 + e1 + e2 + e3 + e4 + e5 + e6, e7);
    let q6 = q7 - e6.len();
    lemma_seg(s, i, q7, e0 + e1 + e2 + e3 + e4 + e5, e6);
    let q5 = q6 - e5.len();
    lemma_seg(s, i, q6, e0 + e1 + e2 + e3 + e4, e5);
    let q4 = q5 - e4.len();
    lemma_seg(s, i, q5, e0 + e1 + e2 + e3, e4);
    let q3 = q4 - e3.len();
    lemma_seg(s, i, q4, e0 + e1 + e2, e3);
    let q2 = q3 - e2.len();
    lemma_seg(s, i, q3, e0 + e1, e2);
    let q1 = q2 - e1.len();
    lemma_seg(s, i, q2, e0, e1);
    lemma_lit_at(s, i, e0);
    lemma_rt_target(s, q1, q2, r.target);
    lemma_lit_at(s, q2, e2);
    lemma_rt_bool(s, q3, q4, r.gzip);
    lemma_lit_at(s, q4, e4);
    lemma_rt_redirect(s, q5, q6, r.redirect);
    lemma_lit_at(s, q6, e6);
    assert(s[q8] == s.subrange(q8, q9)[0]);
    assert(s[q8] == 44);
    lemma_rt_opt_u64(s, q7, q8, r.timeout);
    lemma_lit_at(s, q8, e8);
    lemma_rt_auth(s, q9, q10, r.basic_auth);
    lemma_lit_at(s, q10, e10);
    lemma_rt_hlist(s, q11, q12, r.headers);
    lemma_lit_at(s, q12, e12);
    lemma_rt_opt_bytes(s, q13, q14, r.body);
    assert(s[q14] == s.subrange(q14, j)[0]);
    assert(s[q14] == 125);
    lemma_dec_request_compose(
        s,
        i,
        r,
        q1,
        q2,
        q3,
        q4,
        q5,
        q6,
        q7,
        q8,
        q9,
        q10,
        q11,
        q12,
        q13,
        q14,
        j,
    );
}

/// The encoded form of a response object.
#[verifier::opaque]
pub open spec fn enc_response(r: crate::data::ResponseV) -> Seq<u8> {
    lit_url_key() + enc_str(crate::urls::print_url(r.url)) + lit_status_key() + enc_u64(
        r.status as u64,
    ) + lit_headers_key() + enc_hlist(r.headers) + lit_body_key() + enc_bytes(r.body) + seq![125u8]
}

/// Parses a response object at `i`; the URL string must itself parse and the
/// status must fit the status-code range.
#[verifier::opaque]
pub open spec fn dec_response(s: Seq<u8>, i: int) -> Option<(crate::data::ResponseV, int)> {
    match dec_lit(s, i, lit_url_key()) {
        None => None,
        Some(p1) => match dec_str(s, p1) {
            None => None,
            Some((ub, p2)) => match crate::urls::dec_url(ub) {
                None => None,
                Some(url) => match dec_lit(s, p2, lit_status_key()) {
                    None => None,
                    Some(p3) => match dec_u64(s, p3) {
                        None => None,
                        Some((n, p4)) => {
                            if n > 65535 {
                                None
                            } else {
                                match dec_lit(s, p4, lit_headers_key()) {
                                    None => None,
                                    Some(p5) => match dec_hlist(s, p5) {
                                        None => None,
                                        Some((headers, p6)) => match dec_lit(s, p6, lit_body_key()) {
                                            None => None,
                                            Some(p7) => match dec_bytes(s, p7) {
                                                None => None,
                                                Some((body, p8)) => match dec_byte(s, p8, 125) {
                                                    None => None,
                                                    Some(p9) => Some(
                                                        (
                                                            crate::data::ResponseV {
                                                                url,
                                                                status: n as u16,
                                                                headers,
                                                                body,
                                                            },
                                                            p9,
                                                        ),
                                                    ),
                                                },
                                            },
                                        },
                                    },
                                }
                            }
                        },
                    },
                },
            },
        },
    }
}

/// An encoded response parses back to the same response.
#[verifier::rlimit(100)]
proof fn lemma_rt_response(s: Seq<u8>, i: int, j: int, r: crate::data::ResponseV)
    requires
        0 <= i <= j <= s.len(),
        s.subrange(i, j) == enc_response(r),
        crate::urls::wf_url(r.url),
    ensures
        dec_response(s, i) == Some((r, j)),
{
    reveal(enc_response);
    reveal(dec_response);
    let us = crate::urls::print_url(r.url);
    let e8 = seq![125u8];
    let e7 = enc_bytes(r.body);
    let e6 = lit_body_key();
    let e5 = enc_hlist(r.headers);
    let e4 = lit_headers_key();
    let e3 = enc_u64(r.status as u64);
    let e2 = lit_status_key();
    let e1 = enc_str(us);
    let e0 = lit_url_key();
    let q8 = j - e8.len();
    lemma_seg(s, i, j, e0 + e1 + e2 + e3 + e4 + e5 + e6 + e7, e8);
    let q7 = q8 - e7.len();
    lemma_seg(s, i, q8, e0 + e1 + e2 + e3 + e4 + e5 + e6, e7);
    let q6 = q7 - e6.len();
    lemma_seg(s, i, q7, e0 + e1 + e2 + e3 + e4 + e5, e6);
    let q5 = q6 - e5.len();
    lemma_seg(s, i, q6, e0 + e1 + e2 + e3 + e4, e5);
    let q4 = q5 - e4.len();
    lemma_seg(s, i, q5, e0 + e1 + e2 + e3, e4);
    let q3 = q4 - e3.len();
    lemma_seg(s, i, q4, e0 + e1 + e2, e3);
    let q2 = q3 - e2.len();
    lemma_seg(s, i, q3, e0 + e1, e2);
    let q1 = q2 - e1.len();
    lemma_seg(s, i, q2, e0, e1);
    lemma_lit_at(s, i, e0);
    lemma_rt_str(s, q1, q2, us);
    crate::urls::lemma_url_round_trip(r.url);
    lemma_lit_at(s, q2, e2);
    assert(s[q4] == s.subrange(q4, q5)[0]);
    assert(s[q4] == 44);
    lemma_enc_u64_digits(r.status as u64);
    lemma_rt_u64(s, q3, q4, r.status as u64);
    lemma_lit_at(s, q4, e4);
    lemma_rt_hlist(s, q5, q6, r.headers);
    lemma_lit_at(s, q6, e6);
    lemma_rt_bytes(s, q7, q8, r.body);
    assert(s[q8] == s.subrange(q8, j)[0]);
    assert(s[q8] == 125);
    assert(dec_response(s, i) matches Some((rv, jv)) && rv =~= r && jv == j);
}

/// The encoded form of one interaction.
#[verifier::opaque]
pub open spec fn enc_interaction(iv: crate::data::InteractionV) -> Seq<u8> {
    lit_req_open() + enc_request(iv.request) + lit_resp_key() + enc_response(iv.response)
        + seq![125u8]
}

/// Parses one interaction at `i`.
#[verifier::opaque]
pub open spec fn dec_interaction(s: Seq<u8>, i: int) -> Option<(crate::data::InteractionV, int)> {
    match dec_lit(s, i, lit_req_open()) {
        None => None,
        Some(p1) => match dec_request(s, p1) {
            None => None,
            Some((request, p2)) => match dec_lit(s, p2, lit_resp_key()) {
                None => None,
                Some(p3) => match dec_response(s, p3) {
                    None => None,
                    Some((response, p4)) => match dec_byte(s, p4, 125) {
                        None => None,
                        Some(p5) => Some(
                            (crate::data::InteractionV { request, response }, p5),
                        ),
                    },
                },
            },
        },
    }
}

/// Whether an interaction's URLs are well-formed, so that its canonical
/// encoding re-parses.
pub open spec fn wf_interaction(iv: crate::data::InteractionV) -> bool {
    &&& (iv.request.target matches Some(t) ==> crate::urls::wf_url(t.url))
    &&& crate::urls::wf_url(iv.response.url)
}

/// An encoded interaction parses back to the same interaction.
#[verifier::rlimit(100)]
proof fn lemma_rt_interaction(s: Seq<u8>, i: int, j: int, iv: crate::data::InteractionV)
    requires
        0 <= i <= j <= s.len(),
        s.subrange(i, j) == enc_interaction(iv),
        wf_interaction(iv),
    ensures
        dec_interaction(s, i) == Some((iv, j)),
{
    reveal(enc_interaction);
    reveal(dec_interaction);
    let e4 = seq![125u8];
    let e3 = enc_response(iv.response);
    let e2 = lit_resp_key();
    let e1 = enc_request(iv.request);
    let e0 = lit_req_open();
    let q4 = j - e4.len();
    lemma_seg(s, i, j, e0 + e1 + e2 + e3, e4);
    let q3 = q4 - e3.len();
    lemma_seg(s, i, q4, e0 + e1 + e2, e3);
    let q2 = q3 - e2.len();
    lemma_seg(s, i, q3, e0 + e1, e2);
    let q1 = q2 - e1.len();
    lemma_seg(s, i, q2, e0, e1);
    lemma_lit_at(s, i, e0);
    lemma_rt_request(s, q1, q2, iv.request);
    lemma_lit_at(s, q2, e2);
    lemma_rt_response(s, q3, q4, iv.response);
    assert(s[q4] == s.subrange(q4, j)[0]);
    assert(s[q4] == 125);
    assert(dec_interaction(s, i) matches Some((rv, jv)) && rv =~= iv && jv == j);
}

/// The interactions of `c` from position `k` on, joined by commas.
pub open spec fn enc_inters_from(c: Seq<crate::data::InteractionV>, k: int) -> Seq<u8>
    decreases c.len() - k,
{
    if k < 0 || k >= c.len() {
        Seq::empty()
    } else if k == c.len() - 1 {
        enc_interaction(c[k])
    } else {
        enc_interaction(c[k]) + seq![44u8] + enc_inters_from(c, k + 1)
    }
}

/// The encoded form of a whole cassette: an array of interactions.
pub open spec fn enc_cassette(c: Seq<crate::data::InteractionV>) -> Seq<u8> {
    if c.len() == 0 {
        seq![91u8, 93u8]
    } else {
        seq![91u8] + enc_inters_from(c, 0) + seq![93u8]
    }
}

/// Parses comma-separated interactions up to and including the closing
/// bracket.
pub open spec fn dec_inters(s: Seq<u8>, i: int) -> Option<(Seq<crate::data::InteractionV>, int)>
    decreases s.len() - i,
{
    match dec_interaction(s, i) {
        None => None,
        Some((iv, j)) => {
            if !(i < j && j < s.len()) {
                None
            } else if s[j] == 44 {
                match dec_inters(s, j + 1) {
                    Some((t, e)) => Some((seq![iv] + t, e)),
                    None => None,
                }
            } else if s[j] == 93 {
                Some((seq![iv], j + 1))
            } else {
                None
            }
        },
    }
}

/// Parses a whole buffer as a cassette; every byte must belong to it.
pub open spec fn dec_cassette(s: Seq<u8>) -> Option<Seq<crate::data::InteractionV>> {
    if s.len() >= 2 && s[0] == 91 && s[1] == 93 {
        if s.len() == 2 {
            Some(Seq::empty())
        } else {
            None
        }
    } else if s.len() >= 1 && s[0] == 91 {
        match dec_inters(s, 1) {
            Some((c, e)) => {
                if e == s.len() {
                    Some(c)
                } else {
                    None
                }
            },
            None => None,
        }
    } else {
        None
    }
}

/// Whether every interaction of a cassette has well-formed URLs.
pub open spec fn wf_cassette(c: Seq<crate::data::InteractionV>) -> bool {
    forall|k: int| 0 <= k < c.len() ==> wf_interaction(#[trigger] c[k])
}

#[verifier::rlimit(100)]
/// An encoded interaction starts with an opening brace and is nonempty.
proof fn lemma_enc_interaction_first(iv: crate::data::InteractionV)
    ensures
        enc_interaction(iv).len() > 0,
        enc_interaction(iv)[0] == 123,
{
    reveal(enc_interaction);
    assert(enc_interaction(iv)[0] == lit_req_open()[0]);
}

proof fn lemma_rt_inters(s: Seq<u8>, i: int, j: int, c: Seq<crate::data::InteractionV>, k: int)
    requires
        0 <= k < c.len(),
        0 <= i <= j <= s.len(),
        s.subrange(i, j) == enc_inters_from(c, k) + seq![93u8],
        wf_cassette(c),
    ensures
        dec_inters(s, i) == Some((c.skip(k), j)),
    decreases c.len() - k,
{
    let whole = s.subrange(i, j);
    let pe = enc_interaction(c[k]);
    lemma_enc_interaction_first(c[k]);
    let j1 = i + pe.len();
    if k == c.len() - 1 {
        assert(whole =~= pe + seq![93u8]);
        lemma_seg(s, i, j, pe, seq![93u8]);
    } else {
        assert(whole =~= pe + (seq![44u8] + (enc_inters_from(c, k + 1) + seq![93u8])));
        lemma_seg(s, i, j, pe, seq![44u8] + (enc_inters_from(c, k + 1) + seq![93u8]));
    }
    assert(wf_interaction(c[k]));
    lemma_rt_interaction(s, i, j1, c[k]);
    assert(s[j1] == whole[j1 - i]);
    if k == c.len() - 1 {
        assert(s[j1] == 93);
        assert(dec_inters(s, i) == Some((seq![c[k]], j1 + 1)));
        assert(seq![c[k]] =~= c.skip(k));
        assert(j1 + 1 == j);
    } else {
        assert(s[j1] == 44);
        assert(s.subrange(j1 + 1, j) =~= enc_inters_from(c, k + 1) + seq![93u8]) by {
            assert(forall|m: int|
                0 <= m < j - j1 - 1 ==> #[trigger] s.subrange(j1 + 1, j)[m] == whole[m + (j1 + 1
                    - i)]);
        }
        lemma_rt_inters(s, j1 + 1, j, c, k + 1);
        assert(dec_inters(s, i) == Some((seq![c[k]] + c.skip(k + 1), j)));
        assert(seq![c[k]] + c.skip(k + 1) =~= c.skip(k));
    }
}

/// Parsing an encoded cassette gives back the same interactions: the wire
/// format loses nothing that was recorded.
#[verifier::rlimit(100)]
pub proof fn lemma_cassette_round_trip(c: Seq<crate::data::InteractionV>)
    requires
        wf_cassette(c),
    ensures
        dec_cassette(enc_cassette(c)) == Some(c),
{
    let s = enc_cassette(c);
    if c.len() == 0 {
        assert(s =~= seq![91u8, 93u8]);
        assert(Seq::<crate::data::InteractionV>::empty() =~= c);
    } else {
        assert(s =~= seq![91u8] + (enc_inters_from(c, 0) + seq![93u8]));
        assert(s[0] == 91);
        lemma_enc_interaction_first(c[0]);
        assert(enc_inters_from(c, 0)[0] == enc_interaction(c[0])[0]);
        assert(s[1] == enc_inters_from(c, 0)[0]);
        assert(s[1] == 123);
        assert(s.subrange(1, s.len() as int) =~= enc_inters_from(c, 0) + seq![93u8]);
        lemma_rt_inters(s, 1, s.len() as int, c, 0);
        assert(c.skip(0) =~= c);
    }
}

// ---------------------------------------------------------------------------
// Executable encoding
// ---------------------------------------------------------------------------

fn push_bool_enc(out: &mut Vec<u8>, b: bool)
    ensures
        final(out)@ == old(out)@ + enc_bool(b),
{
    if b {
        let lit = lit_true_vec();
        crate::bytes::push_bytes(out, &lit);
    } else {
        let lit = lit_false_vec();
        crate::bytes::push_bytes(out, &lit);
    }
}

fn push_opt_u64_enc(out: &mut Vec<u8>, n: &Option<u64>)
    ensures
        final(out)@ == old(out)@ + enc_opt_u64(*n),
{
    match n {
        None => {
            let lit = lit_null_vec();
            crate::bytes::push_bytes(out, &lit);
        },
        Some(v) => {
            push_u64_enc(out, *v);
        },
    }
}

fn push_opt_bytes_enc(out: &mut Vec<u8>, b: &Option<Vec<u8>>)
    ensures
        final(out)@ == old(out)@ + enc_opt_bytes(crate::data::view_opt_bytes(*b)),
{
    match b {
        None => {
            let lit = lit_null_vec();
            crate::bytes::push_bytes(out, &lit);
        },
        Some(v) => {
            push_bytes_enc(out, v);
        },
    }
}

fn push_opt_str_enc(out: &mut Vec<u8>, v: &Option<Vec<u8>>)
    ensures
        final(out)@ == old(out)@ + enc_opt_str(crate::data::view_opt_bytes(*v)),
{
    match v {
        None => {
            let lit = lit_null_vec();
            crate::bytes::push_bytes(out, &lit);
        },
        Some(t) => {
            push_str_enc(out, t);
        },
    }
}

fn push_redirect_enc(out: &mut Vec<u8>, r: &crate::data::RedirectPolicy)
    ensures
        final(out)@ == old(out)@ + enc_redirect(*r),
{
    match r {
        crate::data::RedirectPolicy::Limit(n) => {
            let lit = lit_limit_open_vec();
            crate::bytes::push_bytes(out, &lit);
            push_u64_enc(out, *n as u64);
            out.push(125);
            proof {
                assert(out@ =~= old(out)@ + enc_redirect(*r));
            }
        },
        crate::data::RedirectPolicy::NoFollow => {
            let lit = lit_none_str_vec();
            crate::bytes::push_bytes(out, &lit);
        },
    }
}

fn push_auth_enc(out: &mut Vec<u8>, a: &Option<crate::data::BasicAuth>)
    ensures
        final(out)@ == old(out)@ + enc_auth(
            match a {
                Some(v) => Some(v@),
                None => None,
            },
        ),
{
    match a {
        None => {
            let lit = lit_null_vec();
            crate::bytes::push_bytes(out, &lit);
        },
        Some(v) => {
            let lit1 = lit_username_key_vec();
            crate::bytes::push_bytes(out, &lit1);
            push_str_enc(out, &v.username);
            let lit2 = lit_password_key_vec();
            crate::bytes::push_bytes(out, &lit2);
            push_opt_str_enc(out, &v.password);
            out.push(125);
            proof {
                assert(out@ =~= old(out)@ + enc_auth(Some(v@)));
            }
        },
    }
}

fn push_target_enc(out: &mut Vec<u8>, t: &Option<crate::data::RequestTarget>)
    ensures
        final(out)@ == old(out)@ + enc_target(
            match t {
                Some(v) => Some(v@),
                None => None,
            },
        ),
{
    match t {
        None => {
            let lit = lit_null_vec();
            crate::bytes::push_bytes(out, &lit);
        },
        Some(v) => {
            let lit1 = lit_url_key_vec();
            crate::bytes::push_bytes(out, &lit1);
            let ub = v.url().to_bytes();
            push_str_enc(out, &ub);
            let lit2 = lit_method_key_vec();
            crate::bytes::push_bytes(out, &lit2);
            push_str_enc(out, v.method());
            out.push(125);
            proof {
                assert(out@ =~= old(out)@ + enc_target(Some(v@)));
            }
        },
    }
}

#[verifier::rlimit(100)]
#[verifier::spinoff_prover]
fn push_request_enc(out: &mut Vec<u8>, r: &crate::data::RequestData)
    ensures
        final(out)@ == old(out)@ + enc_request(r@),
{
    let lit0 = lit_target_key_vec();
    crate::bytes::push_bytes(out, &lit0);
    push_target_enc(out, &r.target);
    let lit1 = lit_gzip_key_vec();
    crate::bytes::push_bytes(out, &lit1);
    push_bool_enc(out, r.gzip);
    let lit2 = lit_redirect_key_vec();
    crate::bytes::push_bytes(out, &lit2);
    push_redirect_enc(out, &r.redirect);
    let lit3 = lit_timeout_key_vec();
    crate::bytes::push_bytes(out, &lit3);
    push_opt_u64_enc(out, &r.timeout);
    let lit4 = lit_auth_key_vec();
    crate::bytes::push_bytes(out, &lit4);
    push_auth_enc(out, &r.basic_auth);
    let lit5 = lit_headers_key_vec();
    crate::bytes::push_bytes(out, &lit5);
    push_hlist_enc(out, &r.headers);
    let lit6 = lit_body_key_vec();
    crate::bytes::push_bytes(out, &lit6);
    push_opt_bytes_enc(out, &r.body);
    out.push(125);
    proof {
        reveal(enc_request);
        assert(out@ =~= old(out)@ + enc_request(r@));
    }
}

fn push_response_enc(out: &mut Vec<u8>, r: &crate::data::ResponseData)
    ensures
        final(out)@ == old(out)@ + enc_response(r@),
{
    let lit0 = lit_url_key_vec();
    crate::bytes::push_bytes(out, &lit0);
    let ub = r.url.to_bytes();
    push_str_enc(out, &ub);
    let lit1 = lit_status_key_vec();
    crate::bytes::push_bytes(out, &lit1);
    push_u64_enc(out, r.status.value as u64);
    let lit2 = lit_headers_key_vec();
    crate::bytes::push_bytes(out, &lit2);
    push_hlist_enc(out, &r.headers);
    let lit3 = lit_body_key_vec();
    crate::bytes::push_bytes(out, &lit3);
    push_bytes_enc(out, &r.body);
    out.push(125);
    proof {
        reveal(enc_response);
        assert(out@ =~= old(out)@ + enc_response(r@));
    }
}

fn push_interaction_enc(out: &mut Vec<u8>, iv: &crate::data::ReplayData)
    ensures
        final(out)@ == old(out)@ + enc_interaction(iv@),
{
    let lit0 = lit_req_open_vec();
    crate::bytes::push_bytes(out, &lit0);
    push_request_enc(out, &iv.request);
    let lit1 = lit_resp_key_vec();
    crate::bytes::push_bytes(out, &lit1);
    push_response_enc(out, &iv.response);
    out.push(125);
    proof {
        reveal(enc_interaction);
        assert(out@ =~= old(out)@ + enc_interaction(iv@));
    }
}

/// The views of a sequence of recorded interactions.
pub open spec fn view_inters(c: Seq<crate::data::ReplayData>) -> Seq<crate::data::InteractionV> {
    c.map_values(|d: crate::data::ReplayData| d@)
}

/// Serializes a cassette to its wire form.
pub fn encode_cassette(c: &Vec<crate::data::ReplayData>) -> (r: Vec<u8>)
    ensures
        r@ == enc_cassette(view_inters(c@)),
{
    let mut out: Vec<u8> = Vec::new();
    out.push(91);
    if c.len() == 0 {
        out.push(93);
        proof {
            assert(out@ =~= enc_cassette(view_inters(c@)));
        }
        return out;
    }
    let ghost target = enc_cassette(view_inters(c@));
    proof {
        assert(view_inters(c@).len() == c@.len());
        assert(out@ + (enc_inters_from(view_inters(c@), 0) + seq![93u8]) =~= target);
    }
    let mut k: usize = 0;
    while k < c.len()
        invariant
            k <= c@.len(),
            c@.len() > 0,
            target == enc_cassette(view_inters(c@)),
            k < c@.len() ==> out@ + (enc_inters_from(view_inters(c@), k as int) + seq![93u8])
                == target,
            k == c@.len() ==> out@ + seq![93u8] == target,
        decreases c@.len() - k,
    {
        push_interaction_enc(&mut out, &c[k]);
        proof {
            assert(view_inters(c@)[k as int] == c@[k as int]@);
        }
        if k + 1 < c.len() {
            out.push(44);
            proof {
                assert(out@ + (enc_inters_from(view_inters(c@), k + 1) + seq![93u8]) =~= target);
            }
        } else {
            proof {
                assert(out@ + seq![93u8] =~= target);
            }
        }
        k += 1;
    }
    out.push(93);
    proof {
        assert(out@ =~= target);
    }
    out
}

// ---------------------------------------------------------------------------
// Executable parsing
// ---------------------------------------------------------------------------

fn parse_bool(s: &Vec<u8>, i: usize) -> (r: Option<(bool, usize)>)
    requires
        i <= s@.len(),
    ensures
        match r {
            Some((b, j)) => dec_bool(s@, i as int) == Some((b, j as int)) && i < j <= s@.len(),
            None => dec_bool(s@, i as int) is None,
        },
{
    let lt = lit_true_vec();
    match expect_lit(s, i, &lt) {
        Some(j) => Some((true, j)),
        None => {
            let lf = lit_false_vec();
            match expect_lit(s, i, &lf) {
                Some(j) => Some((false, j)),
                None => None,
            }
        },
    }
}

fn parse_opt_u64(s: &Vec<u8>, i: usize) -> (r: Option<(Option<u64>, usize)>)
    requires
        i <= s@.len(),
    ensures
        match r {
            Some((n, j)) => dec_opt_u64(s@, i as int) == Some((n, j as int)) && i < j <= s@.len(),
            None => dec_opt_u64(s@, i as int) is None,
        },
{
    let ln = lit_null_vec();
    match expect_lit(s, i, &ln) {
        Some(j) => Some((None, j)),
        None => match parse_u64(s, i) {
            Some((n, j)) => Some((Some(n), j)),
            None => None,
        },
    }
}

fn parse_opt_bytes(s: &Vec<u8>, i: usize) -> (r: Option<(Option<Vec<u8>>, usize)>)
    requires
        i <= s@.len(),
    ensures
        match r {
            Some((v, j)) => dec_opt_bytes(s@, i as int) == Some(
                (crate::data::view_opt_bytes(v), j as int),
            ) && i < j <= s@.len(),
            None => dec_opt_bytes(s@, i as int) is None,
        },
{
    let ln = lit_null_vec();
    match expect_lit(s, i, &ln) {
        Some(j) => Some((None, j)),
        None => match parse_bytes(s, i) {
            Some((v, j)) => {
                proof {
                    lemma_dec_bytes_bounds(s@, i as int);
                }
                Some((Some(v), j))
            },
            None => None,
        },
    }
}

/// A parsed byte array always ends after where it began.
proof fn lemma_dec_u8s_bounds(s: Seq<u8>, i: int)
    ensures
        dec_u8s(s, i) matches Some((t, j)) ==> i < j <= s.len(),
    decreases s.len() - i,
{
    match dec_u64(s, i) {
        None => {},
        Some((n, j)) => {
            if n <= 255 && i < j && j < s.len() {
                if s[j] == 44 {
                    lemma_dec_u8s_bounds(s, j + 1);
                }
            }
        },
    }
}

proof fn lemma_dec_bytes_bounds(s: Seq<u8>, i: int)
    ensures
        dec_bytes(s, i) matches Some((t, j)) ==> i < j <= s.len(),
{
    lemma_dec_u8s_bounds(s, i + 1);
}

fn parse_opt_str(s: &Vec<u8>, i: usize) -> (r: Option<(Option<Vec<u8>>, usize)>)
    requires
        i <= s@.len(),
    ensures
        match r {
            Some((v, j)) => dec_opt_str(s@, i as int) == Some(
                (crate::data::view_opt_bytes(v), j as int),
            ) && i < j <= s@.len(),
            None => dec_opt_str(s@, i as int) is None,
        },
{
    let ln = lit_null_vec();
    match expect_lit(s, i, &ln) {
        Some(j) => Some((None, j)),
        None => match parse_str(s, i) {
            Some((v, j)) => {
                proof {
                    lemma_dec_str_bounds(s@, i as int);
                }
                Some((Some(v), j))
            },
            None => None,
        },
    }
}

fn parse_redirect(s: &Vec<u8>, i: usize) -> (r: Option<(crate::data::RedirectPolicy, usize)>)
    requires
        i <= s@.len(),
    ensures
        match r {
            Some((p, j)) => dec_redirect(s@, i as int) == Some((p, j as int)) && i < j <= s@.len(),
            None => dec_redirect(s@, i as int) is None,
        },
{
    let ln = lit_none_str_vec();
    match expect_lit(s, i, &ln) {
        Some(j) => Some((crate::data::RedirectPolicy::NoFollow, j)),
        None => {
            let lo = lit_limit_open_vec();
            let j1 = match expect_lit(s, i, &lo) {
                None => {
                    return None;
                },
                Some(j1) => j1,
            };
            let (n, j2) = match parse_u64(s, j1) {
                None => {
                    return None;
                },
                Some(x) => x,
            };
            if n > (usize::MAX as u64) {
                return None;
            }
            match eat(s, j2, 125) {
                None => None,
                Some(j3) => Some((crate::data::RedirectPolicy::Limit(n as usize), j3)),
            }
        },
    }
}

fn parse_auth(s: &Vec<u8>, i: usize) -> (r: Option<(Option<crate::data::BasicAuth>, usize)>)
    requires
        i <= s@.len(),
    ensures
        match r {
            Some((a, j)) => dec_auth(s@, i as int) == Some(
                (
                    match a {
                        Some(v) => Some(v@),
                        None => None,
                    },
                    j as int,
                ),
            ) && i < j <= s@.len(),
            None => dec_auth(s@, i as int) is None,
        },
{
    let ln = lit_null_vec();
    match expect_lit(s, i, &ln) {
        Some(j) => Some((None, j)),
        None => {
            let lu = lit_username_key_vec();
            let j1 = match expect_lit(s, i, &lu) {
                None => {
                    return None;
                },
                Some(x) => x,
            };
            let (username, j2) = match parse_str(s, j1) {
                None => {
                    return None;
                },
                Some(x) => x,
            };
            let lp = lit_password_key_vec();
            let j3 = match expect_lit(s, j2, &lp) {
                None => {
                    return None;
                },
                Some(x) => x,
            };
            let (password, j4) = match parse_opt_str(s, j3) {
                None => {
                    return None;
                },
                Some(x) => x,
            };
            match eat(s, j4, 125) {
                None => None,
                Some(j5) => {
                    let auth = crate::data::BasicAuth { username, password };
                    Some((Some(auth), j5))
                },
            }
        },
    }
}

fn parse_target(s: &Vec<u8>, i: usize) -> (r: Option<(Option<crate::data::RequestTarget>, usize)>)
    requires
        i <= s@.len(),
    ensures
        match r {
            Some((t, j)) => dec_target(s@, i as int) == Some(
                (
                    match t {
                        Some(v) => Some(v@),
                        None => None,
                    },
                    j as int,
                ),
            ) && i < j <= s@.len() && (t matches Some(v) ==> crate::urls::wf_url(v@.url)),
            None => dec_target(s@, i as int) is None,
        },
{
    let ln = lit_null_vec();
    match expect_lit(s, i, &ln) {
        Some(j) => Some((None, j)),
        None => {
            let lu = lit_url_key_vec();
            let j1 = match expect_lit(s, i, &lu) {
                None => {
                    return None;
                },
                Some(x) => x,
            };
            let (ub, j2) = match parse_str(s, j1) {
                None => {
                    return None;
                },
                Some(x) => x,
            };
            let url = match crate::urls::parse_url(&ub) {
                Err(_) => {
                    return None;
                },
                Ok(u) => u,
            };
            let lm = lit_method_key_vec();
            let j3 = match expect_lit(s, j2, &lm) {
                None => {
                    return None;
                },
                Some(x) => x,
            };
            let (method, j4) = match parse_str(s, j3) {
                None => {
                    return None;
                },
                Some(x) => x,
            };
            match eat(s, j4, 125) {
                None => None,
                Some(j5) => {
                    let target = crate::data::RequestTarget::new(method, url);
                    Some((Some(target), j5))
                },
            }
        },
    }
}

fn parse_request(s: &Vec<u8>, i: usize) -> (r: Option<(crate::data::RequestData, usize)>)
    requires
        i <= s@.len(),
    ensures
        match r {
            Some((rd, j)) => dec_request(s@, i as int) == Some((rd@, j as int)) && i < j <= s@.len()
                && (rd@.target matches Some(t) ==> crate::urls::wf_url(t.url)),
            None => dec_request(s@, i as int) is None,
        },
{
    proof {
        reveal(dec_request);
    }
    let l0 = lit_target_key_vec();
    let p1 = match expect_lit(s, i, &l0) {
        None => {
            return None;
        },
        Some(x) => x,
    };
    let (target, p2) = match parse_target(s, p1) {
        None => {
            return None;
        },
        Some(x) => x,
    };
    let l1 = lit_gzip_key_vec();
    let p3 = match expect_lit(s, p2, &l1) {
        None => {
            return None;
        },
        Some(x) => x,
    };
    let (gzip, p4) = match parse_bool(s, p3) {
        None => {
            return None;
        },
        Some(x) => x,
    };
    let l2 = lit_redirect_key_vec();
    let p5 = match expect_lit(s, p4, &l2) {
        None => {
            return None;
        },
        Some(x) => x,
    };
    let (redirect, p6) = match parse_redirect(s, p5) {
        None => {
            return None;
        },
        Some(x) => x,
    };
    let l3 = lit_timeout_key_vec();
    let p7 = match expect_lit(s, p6, &l3) {
        None => {
            return None;
        },
        Some(x) => x,
    };
    let (timeout, p8) = match parse_opt_u64(s, p7) {
        None => {
            return None;
        },
        Some(x) => x,
    };
    let l4 = lit_auth_key_vec();
    let p9 = match expect_lit(s, p8, &l4) {
        None => {
            return None;
        },
        Some(x) => x,
    };
    let (basic_auth, p10) = match parse_auth(s, p9) {
        None => {
            return None;
        },
        Some(x) => x,
    };
    let l5 = lit_headers_key_vec();
    let p11 = match expect_lit(s, p10, &l5) {
        None => {
            return None;
        },
        Some(x) => x,
    };
    let (hentries, p12) = match parse_hlist(s, p11) {
        None => {
            return None;
        },
        Some(x) => x,
    };
    let l6 = lit_body_key_vec();
    let p13 = match expect_lit(s, p12, &l6) {
        None => {
            return None;
        },
        Some(x) => x,
    };
    let (body, p14) = match parse_opt_bytes(s, p13) {
        None => {
            return None;
        },
        Some(x) => x,
    };
    match eat(s, p14, 125) {
        None => None,
        Some(p15) => {
            let rd = crate::data::RequestData {
                target,
                gzip,
                redirect,
                timeout,
                basic_auth,
                headers: crate::data::Headers::from_entries(hentries),
                body,
            };
            proof {
                assert(dec_request(s@, i as int) matches Some((rv, jv)) && rv =~= rd@ && jv
                    == p15 as int);
            }
            Some((rd, p15))
        },
    }
}

fn parse_response(s: &Vec<u8>, i: usize) -> (r: Option<(crate::data::ResponseData, usize)>)
    requires
        i <= s@.len(),
    ensures
        match r {
            Some((rd, j)) => dec_response(s@, i as int) == Some((rd@, j as int)) && i < j
                <= s@.len() && crate::urls::wf_url(rd@.url),
            None => dec_response(s@, i as int) is None,
        },
{
    proof {
        reveal(dec_response);
    }
    let l0 = lit_url_key_vec();
    let p1 = match expect_lit(s, i, &l0) {
        None => {
            return None;
        },
        Some(x) => x,
    };
    let (ub, p2) = match parse_str(s, p1) {
        None => {
            return None;
        },
        Some(x) => x,
    };
    let url = match crate::urls::parse_url(&ub) {
        Err(_) => {
            return None;
        },
        Ok(u) => u,
    };
    let l1 = lit_status_key_vec();
    let p3 = match expect_lit(s, p2, &l1) {
        None => {
            return None;
        },
        Some(x) => x,
    };
    let (n, p4) = match parse_u64(s, p3) {
        None => {
            return None;
        },
        Some(x) => x,
    };
    if n > 65535 {
        return None;
    }
    let l2 = lit_headers_key_vec();
    let p5 = match expect_lit(s, p4, &l2) {
        None => {
            return None;
        },
        Some(x) => x,
    };
    let (hentries, p6) = match parse_hlist(s, p5) {
        None => {
            return None;
        },
        Some(x) => x,
    };
    let l3 = lit_body_key_vec();
    let p7 = match expect_lit(s, p6, &l3) {
        None => {
            return None;
        },
        Some(x) => x,
    };
    let (body, p8) = match parse_bytes(s, p7) {
        None => {
            return None;
        },
        Some(x) => x,
    };
    match eat(s, p8, 125) {
        None => None,
        Some(p9) => {
            let rd = crate::data::ResponseData {
                url,
                status: crate::data::StatusCode { value: n as u16 },
                headers: crate::data::Headers::from_entries(hentries),
                body,
            };
            proof {
                assert(dec_response(s@, i as int) matches Some((rv, jv)) && rv =~= rd@ && jv
                    == p9 as int);
            }
            Some((rd, p9))
        },
    }
}

fn parse_interaction(s: &Vec<u8>, i: usize) -> (r: Option<(crate::data::ReplayData, usize)>)
    requires
        i <= s@.len(),
    ensures
        match r {
            Some((rd, j)) => dec_interaction(s@, i as int) == Some((rd@, j as int)) && i < j
                <= s@.len() && wf_interaction(rd@),
            None => dec_interaction(s@, i as int) is None,
        },
{
    proof {
        reveal(dec_interaction);
    }
    let l0 = lit_req_open_vec();
    let p1 = match expect_lit(s, i, &l0) {
        None => {
            return None;
        },
        Some(x) => x,
    };
    let (request, p2) = match parse_request(s, p1) {
        None => {
            return None;
        },
        Some(x) => x,
    };
    let l1 = lit_resp_key_vec();
    let p3 = match expect_lit(s, p2, &l1) {
        None => {
            return None;
        },
        Some(x) => x,
    };
    let (response, p4) = match parse_response(s, p3) {
        None => {
            return None;
        },
        Some(x) => x,
    };
    match eat(s, p4, 125) {
        None => None,
        Some(p5) => {
            let rd = crate::data::ReplayData { request, response };
            proof {
                assert(dec_interaction(s@, i as int) matches Some((rv, jv)) && rv =~= rd@ && jv
                    == p5 as int);
            }
            Some((rd, p5))
        },
    }
}

/// Deserializes a cassette from its wire form. Returns `CorruptCassette`
/// exactly when the bytes are not a canonical cassette encoding.
pub fn decode_cassette(s: &Vec<u8>) -> (r: Result<
    Vec<crate::data::ReplayData>,
    crate::data::ReplayError,
>)
    ensures
        match r {
            Ok(c) => dec_cassette(s@) == Some(view_inters(c@)) && wf_cassette(view_inters(c@)),
            Err(e) => e == crate::data::ReplayError::CorruptCassette && dec_cassette(s@) is None,
        },
{
    if s.len() >= 2 && s[0] == 91 && s[1] == 93 {
        if s.len() == 2 {
            let empty: Vec<crate::data::ReplayData> = Vec::new();
            proof {
                assert(view_inters(empty@) =~= Seq::<crate::data::InteractionV>::empty());
            }
            return Ok(empty);
        } else {
            return Err(crate::data::ReplayError::CorruptCassette);
        }
    }
    if s.len() < 1 || s[0] != 91 {
        return Err(crate::data::ReplayError::CorruptCassette);
    }
    let mut cur: usize = 1;
    let mut acc: Vec<crate::data::ReplayData> = Vec::new();
    loop
        invariant
            1 <= cur <= s@.len(),
            wf_cassette(view_inters(acc@)),
            forall|t: Seq<crate::data::InteractionV>, j: int|
                dec_inters(s@, cur as int) == Some((t, j)) ==> dec_inters(s@, 1) == Some(
                    (view_inters(acc@) + t, j),
                ),
            dec_inters(s@, cur as int) is None ==> dec_inters(s@, 1) is None,
            dec_cassette(s@) == (match dec_inters(s@, 1) {
                Some((c, e)) => if e == s@.len() {
                    Some(c)
                } else {
                    None::<Seq<crate::data::InteractionV>>
                },
                None => None::<Seq<crate::data::InteractionV>>,
            }),
        decreases s@.len() - cur,
    {
        let parsed = parse_interaction(s, cur);
        match parsed {
            None => {
                return Err(crate::data::ReplayError::CorruptCassette);
            },
            Some((iv, j)) => {
                if j >= s.len() {
                    return Err(crate::data::ReplayError::CorruptCassette);
                }
                let ghost acc0 = view_inters(acc@);
                let ghost ivv = iv@;
                acc.push(iv);
                proof {
                    assert(view_inters(acc@) =~= acc0.push(ivv));
                    assert forall|k: int| 0 <= k < view_inters(acc@).len() implies wf_interaction(
                        #[trigger] view_inters(acc@)[k],
                    ) by {
                        if k < acc0.len() {
                            assert(view_inters(acc@)[k] == acc0[k]);
                        }
                    }
                }
                if s[j] == 44 {
                    proof {
                        assert forall|t: Seq<crate::data::InteractionV>, e: int|
                            dec_inters(s@, (j + 1) as int) == Some((t, e)) implies dec_inters(
                            s@,
                            1,
                        ) == Some((view_inters(acc@) + t, e)) by {
                            assert(dec_inters(s@, cur as int) == Some((seq![ivv] + t, e)));
                            assert(acc0 + (seq![ivv] + t) =~= view_inters(acc@) + t);
                        }
                    }
                    cur = j + 1;
                } else if s[j] == 93 {
                    if j + 1 == s.len() {
                        proof {
                            assert(dec_inters(s@, cur as int) == Some((seq![ivv], j + 1)));
                            assert(acc0 + seq![ivv] =~= view_inters(acc@));
                            assert(dec_inters(s@, 1) == Some((acc0 + seq![ivv], j + 1)));
                            assert(dec_inters(s@, 1) == Some((view_inters(acc@), j + 1)));
                            assert(j + 1 == s@.len());
                            assert(dec_cassette(s@) == Some(view_inters(acc@)));
                        }
                        return Ok(acc);
                    } else {
                        proof {
                            assert(dec_inters(s@, cur as int) == Some((seq![ivv], j + 1)));
                            assert(dec_inters(s@, 1) == Some((acc0 + seq![ivv], j + 1)));
                            assert(j + 1 != s@.len());
                            assert(dec_cassette(s@) is None);
                        }
                        return Err(crate::data::ReplayError::CorruptCassette);
                    }
                } else {
                    return Err(crate::data::ReplayError::CorruptCassette);
                }
            },
        }
    }
}

// ---------------------------------------------------------------------------
// Whatever parses is well-formed, so re-serializing it is faithful
// ---------------------------------------------------------------------------

proof fn lemma_dec_target_wf(s: Seq<u8>, i: int)
    ensures
        dec_target(s, i) matches Some((t, j)) ==> match t {
            Some(tv) => crate::urls::wf_url(tv.url),
            None => true,
        },
{
    match dec_lit(s, i, lit_null()) {
        Some(_) => {},
        None => {
            match dec_lit(s, i, lit_url_key()) {
                None => {},
                Some(j1) => {
                    match dec_str(s, j1) {
                        None => {},
                        Some((ub, _)) => {
                            crate::urls::lemma_dec_url_wf(ub);
                        },
                    }
                },
            }
        },
    }
}

proof fn lemma_dec_request_wf(s: Seq<u8>, i: int)
    ensures
        dec_request(s, i) matches Some((r, j)) ==> match r.target {
            Some(t) => crate::urls::wf_url(t.url),
            None => true,
        },
{
    reveal(dec_request);
    match dec_lit(s, i, lit_target_key()) {
        None => {},
        Some(p1) => {
            lemma_dec_target_wf(s, p1);
        },
    }
}

proof fn lemma_dec_response_wf(s: Seq<u8>, i: int)
    ensures
        dec_response(s, i) matches Some((r, j)) ==> crate::urls::wf_url(r.url),
{
    reveal(dec_response);
    match dec_lit(s, i, lit_url_key()) {
        None => {},
        Some(p1) => {
            match dec_str(s, p1) {
                None => {},
                Some((ub, _)) => {
                    crate::urls::lemma_dec_url_wf(ub);
                },
            }
        },
    }
}

proof fn lemma_dec_interaction_wf(s: Seq<u8>, i: int)
    ensures
        dec_interaction(s, i) matches Some((iv, j)) ==> wf_interaction(iv),
{
    reveal(dec_interaction);
    match dec_lit(s, i, lit_req_open()) {
        None => {},
        Some(p1) => {
            lemma_dec_request_wf(s, p1);
            match dec_request(s, p1) {
                None => {},
                Some((_, p2)) => {
                    match dec_lit(s, p2, lit_resp_key()) {
                        None => {},
                        Some(p3) => {
                            lemma_dec_response_wf(s, p3);
                        },
                    }
                },
            }
        },
    }
}

proof fn lemma_dec_inters_wf(s: Seq<u8>, i: int)
    ensures
        dec_inters(s, i) matches Some((c, j)) ==> wf_cassette(c),
    decreases s.len() - i,
{
    lemma_dec_interaction_wf(s, i);
    match dec_interaction(s, i) {
        None => {},
        Some((iv, j)) => {
            if i < j && j < s.len() {
                if s[j] == 44 {
                    lemma_dec_inters_wf(s, j + 1);
                    match dec_inters(s, j + 1) {
                        None => {},
                        Some((rest, _)) => {
                            assert forall|k: int| 0 <= k < (seq![iv] + rest).len()
                                implies wf_interaction(#[trigger] (seq![iv] + rest)[k]) by {
                                if k > 0 {
                                    assert((seq![iv] + rest)[k] == rest[k - 1]);
                                }
                            }
                        },
                    }
                } else if s[j] == 93 {
                    assert forall|k: int| 0 <= k < seq![iv].len() implies wf_interaction(
                        #[trigger] seq![iv][k],
                    ) by {}
                }
            }
        },
    }
}

/// Whatever bytes parse as a cassette parse to well-formed interactions.
pub proof fn lemma_dec_cassette_wf(s: Seq<u8>)
    ensures
        dec_cassette(s) matches Some(c) ==> wf_cassette(c),
{
    if s.len() >= 1 && s[0] == 91 && !(s.len() >= 2 && s[1] == 93) {
        lemma_dec_inters_wf(s, 1);
    }
}

/// Re-serializing a parsed cassette is faithful: the fresh bytes parse to
/// exactly the interactions the old bytes parsed to, even where the old
/// bytes were not in canonical form.
pub proof fn lemma_reserialize_faithful(s: Seq<u8>)
    ensures
        dec_cassette(s) matches Some(c) ==> dec_cassette(enc_cassette(c)) == Some(c),
{
    lemma_dec_cassette_wf(s);
    match dec_cassette(s) {
        None => {},
        Some(c) => {
            lemma_cassette_round_trip(c);
        },
    }
}

} // verus!
