//! Canonical URLs: a structured form of `scheme://authority/path?query`.
//!
//! A URL is held as its parts; the query is kept sorted, so that two URLs
//! that differ only in query-pair order are equal values. `parse_url` and
//! `Url::to_bytes` are exact inverses on well-formed URLs, which is what lets
//! a stored URL re-parse to an equal value.

use vstd::prelude::*;
use vstd::relations::{sorted_by, total_ordering};
use vstd::seq_lib::lemma_sorted_unique;
use vstd::seq_lib::lemma_multiset_commutative;
use vstd::multiset::Multiset;
use crate::data::ReplayError;

verus! {

// ---------------------------------------------------------------------------
// Byte classes
// ---------------------------------------------------------------------------

/// Bytes allowed in a scheme: lower-case letters and digits.
pub open spec fn is_scheme_byte(b: u8) -> bool {
    (97u8 <= b <= 122u8) || (48u8 <= b <= 57u8)
}

/// Bytes allowed in an authority: anything but the path and query delimiters.
pub open spec fn is_auth_byte(b: u8) -> bool {
    b != 47u8 && b != 63u8
}

/// Bytes allowed in a path: anything but the query delimiter.
pub open spec fn is_path_byte(b: u8) -> bool {
    b != 63u8
}

/// Bytes allowed in a query key.
pub open spec fn is_qkey_byte(b: u8) -> bool {
    b != 38u8 && b != 61u8 && b != 63u8
}

/// Bytes allowed in a query value.
pub open spec fn is_qval_byte(b: u8) -> bool {
    b != 38u8 && b != 63u8
}

// ---------------------------------------------------------------------------
// Lexicographic order on byte sequences and on query pairs
// ---------------------------------------------------------------------------

/// Lexicographic order on byte sequences.
pub open spec fn lex_le(a: Seq<u8>, b: Seq<u8>) -> bool
    decreases a.len(),
{
    if a.len() == 0 {
        true
    } else if b.len() == 0 {
        false
    } else if a[0] < b[0] {
        true
    } else if a[0] > b[0] {
        false
    } else {
        lex_le(a.drop_first(), b.drop_first())
    }
}

/// Order on query pairs: by key, then by value.
pub open spec fn qpair_le(a: (Seq<u8>, Seq<u8>), b: (Seq<u8>, Seq<u8>)) -> bool {
    if a.0 == b.0 {
        lex_le(a.1, b.1)
    } else {
        lex_le(a.0, b.0)
    }
}

/// The query-pair order as a closure, for vstd's sorting vocabulary.
pub open spec fn qle() -> spec_fn((Seq<u8>, Seq<u8>), (Seq<u8>, Seq<u8>)) -> bool {
    |a: (Seq<u8>, Seq<u8>), b: (Seq<u8>, Seq<u8>)| qpair_le(a, b)
}

proof fn lemma_lex_refl(a: Seq<u8>)
    ensures
        lex_le(a, a),
    decreases a.len(),
{
    if a.len() > 0 {
        lemma_lex_refl(a.drop_first());
    }
}

proof fn lemma_lex_total(a: Seq<u8>, b: Seq<u8>)
    ensures
        lex_le(a, b) || lex_le(b, a),
    decreases a.len(),
{
    if a.len() > 0 && b.len() > 0 && a[0] == b[0] {
        lemma_lex_total(a.drop_first(), b.drop_first());
    }
}

proof fn lemma_lex_antisym(a: Seq<u8>, b: Seq<u8>)
    requires
        lex_le(a, b),
        lex_le(b, a),
    ensures
        a == b,
    decreases a.len(),
{
    if a.len() == 0 {
        assert(b.len() == 0);
        assert(a =~= b);
    } else {
        assert(b.len() > 0);
        assert(a[0] == b[0]);
        lemma_lex_antisym(a.drop_first(), b.drop_first());
        assert(a.drop_first().len() == b.drop_first().len());
        assert forall|i: int| 0 <= i < a.len() implies a[i] == b[i] by {
            if i > 0 {
                assert(a[i] == a.drop_first()[i - 1]);
                assert(b[i] == b.drop_first()[i - 1]);
            }
        }
        assert(a =~= b);
    }
}

proof fn lemma_lex_trans(a: Seq<u8>, b: Seq<u8>, c: Seq<u8>)
    requires
        lex_le(a, b),
        lex_le(b, c),
    ensures
        lex_le(a, c),
    decreases a.len(),
{
    if a.len() > 0 {
        assert(b.len() > 0);
        assert(c.len() > 0);
        if a[0] == b[0] && b[0] == c[0] {
            lemma_lex_trans(a.drop_first(), b.drop_first(), c.drop_first());
        }
    }
}

/// The query-pair order is a total order, as vstd's sorting lemmas need.
pub proof fn lemma_qle_total_ordering()
    ensures
        total_ordering(qle()),
{
    let le = qle();
    assert forall|x: (Seq<u8>, Seq<u8>)| #[trigger] le(x, x) by {
        lemma_lex_refl(x.1);
    }
    assert forall|x: (Seq<u8>, Seq<u8>), y: (Seq<u8>, Seq<u8>)|
        #[trigger] le(x, y) && #[trigger] le(y, x) implies x == y by {
        if x.0 == y.0 {
            lemma_lex_antisym(x.1, y.1);
        } else {
            lemma_lex_antisym(x.0, y.0);
        }
    }
    assert forall|x: (Seq<u8>, Seq<u8>), y: (Seq<u8>, Seq<u8>), z: (Seq<u8>, Seq<u8>)|
        #[trigger] le(x, y) && #[trigger] le(y, z) implies le(x, z) by {
        if x.0 == y.0 && y.0 == z.0 {
            lemma_lex_trans(x.1, y.1, z.1);
        } else if x.0 == y.0 || y.0 == z.0 {
            // the key comparison passes through unchanged
        } else {
            lemma_lex_trans(x.0, y.0, z.0);
            if x.0 == z.0 {
                lemma_lex_antisym(x.0, y.0);
            }
        }
    }
    assert forall|x: (Seq<u8>, Seq<u8>), y: (Seq<u8>, Seq<u8>)| #[trigger] le(x, y) || #[trigger] le(
        y,
        x,
    ) by {
        if x.0 == y.0 {
            lemma_lex_total(x.1, y.1);
        } else {
            lemma_lex_total(x.0, y.0);
        }
    }
}

// ---------------------------------------------------------------------------
// The view of a URL, and well-formedness
// ---------------------------------------------------------------------------

/// The view of a URL: its parts as byte sequences, the query as a sorted
/// sequence of key/value pairs.
#[verifier::ext_equal]
pub struct UrlV {
    pub scheme: Seq<u8>,
    pub authority: Seq<u8>,
    pub path: Seq<u8>,
    pub query: Seq<(Seq<u8>, Seq<u8>)>,
}

/// Whether one query pair holds only bytes its position allows.
pub open spec fn wf_qpair(p: (Seq<u8>, Seq<u8>)) -> bool {
    &&& forall|i: int| 0 <= i < p.0.len() ==> is_qkey_byte(#[trigger] p.0[i])
    &&& forall|i: int| 0 <= i < p.1.len() ==> is_qval_byte(#[trigger] p.1[i])
}

/// A well-formed URL: nonempty scheme and authority of the allowed bytes,
/// a path that is empty or absolute, and a sorted query of allowed bytes.
pub open spec fn wf_url(u: UrlV) -> bool {
    &&& u.scheme.len() > 0
    &&& forall|i: int| 0 <= i < u.scheme.len() ==> is_scheme_byte(#[trigger] u.scheme[i])
    &&& u.authority.len() > 0
    &&& forall|i: int| 0 <= i < u.authority.len() ==> is_auth_byte(#[trigger] u.authority[i])
    &&& (u.path.len() == 0 || u.path[0] == 47u8)
    &&& forall|i: int| 0 <= i < u.path.len() ==> is_path_byte(#[trigger] u.path[i])
    &&& forall|k: int| 0 <= k < u.query.len() ==> wf_qpair(#[trigger] u.query[k])
    &&& sorted_by(u.query, qle())
}

// ---------------------------------------------------------------------------
// Printing
// ---------------------------------------------------------------------------

/// The query from pair `k` on, joined as `key=value&key=value`.
pub open spec fn pq_from(q: Seq<(Seq<u8>, Seq<u8>)>, k: int) -> Seq<u8>
    decreases q.len() - k,
{
    if k < 0 || k >= q.len() {
        Seq::empty()
    } else if k == q.len() - 1 {
        q[k].0 + seq![61u8] + q[k].1
    } else {
        q[k].0 + seq![61u8] + q[k].1 + seq![38u8] + pq_from(q, k + 1)
    }
}

/// The canonical byte form of a URL.
pub open spec fn print_url(u: UrlV) -> Seq<u8> {
    u.scheme + seq![58u8, 47u8, 47u8] + u.authority + u.path + if u.query.len() == 0 {
        Seq::<u8>::empty()
    } else {
        seq![63u8] + pq_from(u.query, 0)
    }
}

// ---------------------------------------------------------------------------
// Parsing (specification)
// ---------------------------------------------------------------------------

/// The first position at or after `i` whose byte fails `pred` (or the end).
pub open spec fn run_end(s: Seq<u8>, i: int, pred: spec_fn(u8) -> bool) -> int
    decreases s.len() - i,
{
    if i < 0 || i >= s.len() {
        i
    } else if pred(s[i]) {
        run_end(s, i + 1, pred)
    } else {
        i
    }
}

pub proof fn lemma_run_end(s: Seq<u8>, i: int, pred: spec_fn(u8) -> bool)
    requires
        0 <= i <= s.len(),
    ensures
        i <= run_end(s, i, pred) <= s.len(),
        forall|j: int| i <= j < run_end(s, i, pred) ==> pred(#[trigger] s[j]),
        run_end(s, i, pred) < s.len() ==> !pred(s[run_end(s, i, pred)]),
    decreases s.len() - i,
{
    if i < s.len() && pred(s[i]) {
        lemma_run_end(s, i + 1, pred);
    }
}

pub proof fn lemma_run_end_value(s: Seq<u8>, i: int, e: int, pred: spec_fn(u8) -> bool)
    requires
        0 <= i <= e <= s.len(),
        forall|j: int| i <= j < e ==> pred(#[trigger] s[j]),
        e < s.len() ==> !pred(s[e]),
    ensures
        run_end(s, i, pred) == e,
    decreases e - i,
{
    if i < e {
        lemma_run_end_value(s, i + 1, e, pred);
    }
}

/// The scheme-byte class as a closure.
pub open spec fn scheme_pred() -> spec_fn(u8) -> bool {
    |b: u8| is_scheme_byte(b)
}

/// The authority-byte class as a closure.
pub open spec fn auth_pred() -> spec_fn(u8) -> bool {
    |b: u8| is_auth_byte(b)
}

/// The path-byte class as a closure.
pub open spec fn path_pred() -> spec_fn(u8) -> bool {
    |b: u8| is_path_byte(b)
}

/// The query-key-byte class as a closure.
pub open spec fn qkey_pred() -> spec_fn(u8) -> bool {
    |b: u8| is_qkey_byte(b)
}

/// The query-value-byte class as a closure.
pub open spec fn qval_pred() -> spec_fn(u8) -> bool {
    |b: u8| is_qval_byte(b)
}

/// Parses `key=value` pairs separated by `&` from `i` to the end of `s`,
/// in the order written.
pub open spec fn dec_qpairs(s: Seq<u8>, i: int) -> Option<Seq<(Seq<u8>, Seq<u8>)>>
    decreases s.len() - i,
{
    if !(0 <= i <= s.len()) {
        None
    } else {
        let k1 = run_end(s, i, qkey_pred());
        if !(i <= k1 < s.len() && s[k1] == 61u8) {
            None
        } else {
            let v0 = k1 + 1;
            let v1 = run_end(s, v0, qval_pred());
            if !(v0 <= v1 <= s.len()) {
                None
            } else {
                let pair = (s.subrange(i, k1), s.subrange(v0, v1));
                if v1 == s.len() {
                    Some(seq![pair])
                } else if s[v1] == 38u8 {
                    match dec_qpairs(s, v1 + 1) {
                        Some(rest) => Some(seq![pair] + rest),
                        None => None,
                    }
                } else {
                    None
                }
            }
        }
    }
}

/// Parses a whole buffer as a URL; the query pairs are sorted into the
/// canonical order.
pub open spec fn dec_url(s: Seq<u8>) -> Option<UrlV> {
    let e1 = run_end(s, 0, scheme_pred());
    if !(0 < e1 && e1 + 3 <= s.len() && s[e1] == 58u8 && s[e1 + 1] == 47u8 && s[e1 + 2] == 47u8) {
        None
    } else {
        let a0 = e1 + 3;
        let a1 = run_end(s, a0, auth_pred());
        if !(a0 < a1 <= s.len()) {
            None
        } else {
            let scheme = s.subrange(0, e1);
            let authority = s.subrange(a0, a1);
            let p1 = if a1 < s.len() && s[a1] == 47u8 {
                run_end(s, a1, path_pred())
            } else {
                a1
            };
            if !(a1 <= p1 <= s.len()) {
                None
            } else {
                let path = s.subrange(a1, p1);
                if p1 == s.len() {
                    Some(UrlV { scheme, authority, path, query: Seq::empty() })
                } else if s[p1] == 63u8 {
                    match dec_qpairs(s, p1 + 1) {
                        Some(pairs) => Some(
                            UrlV { scheme, authority, path, query: pairs.sort_by(qle()) },
                        ),
                        None => None,
                    }
                } else {
                    None
                }
            }
        }
    }
}

// ---------------------------------------------------------------------------
// Round trip: printing then parsing gives the URL back
// ---------------------------------------------------------------------------

proof fn lemma_rt_qpairs(s: Seq<u8>, i: int, q: Seq<(Seq<u8>, Seq<u8>)>, k: int)
    requires
        0 <= k < q.len(),
        forall|j: int| 0 <= j < q.len() ==> wf_qpair(#[trigger] q[j]),
        0 <= i <= s.len(),
        s.subrange(i, s.len() as int) == pq_from(q, k),
    ensures
        dec_qpairs(s, i) == Some(q.skip(k)),
    decreases q.len() - k,
{
    let tail = s.subrange(i, s.len() as int);
    let key = q[k].0;
    let val = q[k].1;
    assert(wf_qpair(q[k]));
    let k1 = i + key.len();
    let v0 = k1 + 1;
    let v1 = v0 + val.len();
    assert(tail == pq_from(q, k));
    if k == q.len() - 1 {
        assert(pq_from(q, k) == key + seq![61u8] + val);
    } else {
        assert(pq_from(q, k) == key + seq![61u8] + val + seq![38u8] + pq_from(q, k + 1));
    }
    assert(tail.len() == s.len() - i);
    assert(tail.len() >= key.len() + 1 + val.len());
    assert forall|j: int| i <= j < k1 implies qkey_pred()(s[j]) by {
        assert(s[j] == tail[j - i]);
        assert(tail[j - i] == key[j - i]);
    }
    assert(s[k1] == tail[k1 - i]);
    assert(s[k1] == 61u8);
    lemma_run_end_value(s, i, k1, qkey_pred());
    assert forall|j: int| v0 <= j < v1 implies qval_pred()(s[j]) by {
        assert(s[j] == tail[j - i]);
        assert(tail[j - i] == val[j - i - key.len() - 1]);
    }
    if k == q.len() - 1 {
        assert(s.len() - i == tail.len());
        assert(v1 == s.len());
        lemma_run_end_value(s, v0, v1, qval_pred());
        assert(s.subrange(i, k1) =~= key);
        assert(s.subrange(v0, v1) =~= val) by {
            assert forall|m: int| 0 <= m < val.len() implies s.subrange(v0, v1)[m] == val[m] by {
                assert(s.subrange(v0, v1)[m] == s[v0 + m]);
                assert(s[v0 + m] == tail[v0 + m - i]);
                assert(tail[v0 + m - i] == val[m]);
            }
            assert(s.subrange(v0, v1).len() == val.len());
        }
        assert(q.skip(k) =~= seq![q[k]]);
        assert(dec_qpairs(s, i) == Some(seq![(key, val)]));
        assert(seq![(key, val)] =~= seq![q[k]]);
    } else {
        assert(s[v1] == tail[v1 - i]);
        assert(s[v1] == 38u8);
        lemma_run_end_value(s, v0, v1, qval_pred());
        assert(s.subrange(i, k1) =~= key);
        assert(s.subrange(v0, v1) =~= val) by {
            assert forall|m: int| 0 <= m < val.len() implies s.subrange(v0, v1)[m] == val[m] by {
                assert(s.subrange(v0, v1)[m] == s[v0 + m]);
                assert(s[v0 + m] == tail[v0 + m - i]);
                assert(tail[v0 + m - i] == val[m]);
            }
            assert(s.subrange(v0, v1).len() == val.len());
        }
        assert(s.subrange(v1 + 1, s.len() as int) =~= pq_from(q, k + 1)) by {
            assert(forall|j: int|
                v1 + 1 <= j < s.len() ==> s[j] == tail[j - i] && tail[j - i] == pq_from(q, k + 1)[j
                    - (v1 + 1)]);
        }
        lemma_rt_qpairs(s, v1 + 1, q, k + 1);
        assert(dec_qpairs(s, i) == Some(seq![(key, val)] + q.skip(k + 1)));
        assert(seq![(key, val)] + q.skip(k + 1) =~= q.skip(k));
    }
}

/// Printing a well-formed URL and parsing the result gives the same URL:
/// a stored canonical form re-parses to an equal value.
pub proof fn lemma_url_round_trip(u: UrlV)
    requires
        wf_url(u),
    ensures
        dec_url(print_url(u)) == Some(u),
{
    let s = print_url(u);
    let e1 = u.scheme.len() as int;
    let a0 = e1 + 3;
    let a1 = a0 + u.authority.len();
    let p1 = a1 + u.path.len();
    let qpart = if u.query.len() == 0 {
        Seq::<u8>::empty()
    } else {
        seq![63u8] + pq_from(u.query, 0)
    };
    assert(s =~= u.scheme + seq![58u8, 47u8, 47u8] + u.authority + u.path + qpart);
    assert(s.len() == p1 + qpart.len());
    assert forall|j: int| 0 <= j < e1 implies scheme_pred()(s[j]) by {
        assert(s[j] == u.scheme[j]);
    }
    assert(s[e1] == 58u8);
    lemma_run_end_value(s, 0, e1, scheme_pred());
    assert(s[e1 + 1] == 47u8);
    assert(s[e1 + 2] == 47u8);
    assert forall|j: int| a0 <= j < a1 implies auth_pred()(s[j]) by {
        assert(s[j] == u.authority[j - a0]);
    }
    if a1 < s.len() {
        if u.path.len() > 0 {
            assert(s[a1] == u.path[0]);
            assert(!auth_pred()(s[a1]));
        } else {
            assert(s[a1] == qpart[0]);
            assert(s[a1] == 63u8);
        }
    }
    lemma_run_end_value(s, a0, a1, auth_pred());
    assert(s.subrange(0, e1) =~= u.scheme);
    assert(s.subrange(a0, a1) =~= u.authority);
    if u.path.len() > 0 {
        assert(s[a1] == u.path[0]);
        assert(s[a1] == 47u8);
        assert forall|j: int| a1 <= j < p1 implies path_pred()(s[j]) by {
            assert(s[j] == u.path[j - a1]);
        }
        if p1 < s.len() {
            assert(s[p1] == qpart[0]);
            assert(s[p1] == 63u8);
        }
        lemma_run_end_value(s, a1, p1, path_pred());
    } else {
        assert(p1 == a1);
        if a1 < s.len() {
            assert(s[a1] == qpart[0]);
            assert(s[a1] == 63u8);
        }
    }
    assert(s.subrange(a1, p1) =~= u.path);
    lemma_qle_total_ordering();
    if u.query.len() == 0 {
        assert(p1 == s.len());
        assert(dec_url(s) == Some(UrlV {
            scheme: s.subrange(0, e1),
            authority: s.subrange(a0, a1),
            path: s.subrange(a1, p1),
            query: Seq::empty(),
        }));
        assert(Some(UrlV {
            scheme: s.subrange(0, e1),
            authority: s.subrange(a0, a1),
            path: s.subrange(a1, p1),
            query: Seq::<(Seq<u8>, Seq<u8>)>::empty(),
        }) =~= Some(u));
    } else {
        assert(s[p1] == 63u8);
        assert(s.subrange(p1 + 1, s.len() as int) =~= pq_from(u.query, 0)) by {
            assert(forall|j: int|
                p1 + 1 <= j < s.len() ==> s[j] == qpart[j - p1] && qpart[j - p1] == pq_from(
                    u.query,
                    0,
                )[j - p1 - 1]);
        }
        lemma_rt_qpairs(s, p1 + 1, u.query, 0);
        assert(u.query.skip(0) =~= u.query);
        u.query.lemma_sort_by_ensures(qle());
        lemma_sorted_unique(u.query.sort_by(qle()), u.query, qle());
        assert(dec_url(s) == Some(UrlV {
            scheme: s.subrange(0, e1),
            authority: s.subrange(a0, a1),
            path: s.subrange(a1, p1),
            query: u.query.sort_by(qle()),
        }));
        assert(Some(UrlV {
            scheme: s.subrange(0, e1),
            authority: s.subrange(a0, a1),
            path: s.subrange(a1, p1),
            query: u.query.sort_by(qle()),
        }) =~= Some(u));
    }
}

/// Whatever parses is well-formed: the parts hold only their allowed bytes
/// and the query comes out sorted.
pub proof fn lemma_dec_qpairs_wf(s: Seq<u8>, i: int)
    requires
        0 <= i <= s.len(),
    ensures
        dec_qpairs(s, i) matches Some(q) ==> forall|j: int|
            0 <= j < q.len() ==> wf_qpair(#[trigger] q[j]),
    decreases s.len() - i,
{
    let k1 = run_end(s, i, qkey_pred());
    lemma_run_end(s, i, qkey_pred());
    if i <= k1 < s.len() && s[k1] == 61u8 {
        let v0 = k1 + 1;
        let v1 = run_end(s, v0, qval_pred());
        lemma_run_end(s, v0, qval_pred());
        if v0 <= v1 <= s.len() {
            let pair = (s.subrange(i, k1), s.subrange(v0, v1));
            assert(wf_qpair(pair));
            if v1 < s.len() && s[v1] == 38u8 {
                lemma_dec_qpairs_wf(s, v1 + 1);
                match dec_qpairs(s, v1 + 1) {
                    Some(rest) => {
                        assert forall|j: int| 0 <= j < (seq![pair] + rest).len() implies wf_qpair(
                            #[trigger] (seq![pair] + rest)[j],
                        ) by {
                            if j > 0 {
                                assert((seq![pair] + rest)[j] == rest[j - 1]);
                            }
                        }
                    },
                    None => {},
                }
            }
        }
    }
}

pub proof fn lemma_dec_url_wf(s: Seq<u8>)
    ensures
        dec_url(s) matches Some(u) ==> wf_url(u),
{
    let e1 = run_end(s, 0, scheme_pred());
    lemma_run_end(s, 0, scheme_pred());
    if 0 < e1 && e1 + 3 <= s.len() && s[e1] == 58u8 && s[e1 + 1] == 47u8 && s[e1 + 2] == 47u8 {
        let a0 = e1 + 3;
        let a1 = run_end(s, a0, auth_pred());
        lemma_run_end(s, a0, auth_pred());
        if a0 < a1 <= s.len() {
            let p1 = if a1 < s.len() && s[a1] == 47u8 {
                run_end(s, a1, path_pred())
            } else {
                a1
            };
            if a1 < s.len() && s[a1] == 47u8 {
                lemma_run_end(s, a1, path_pred());
            }
            let path = s.subrange(a1, p1);
            assert(path.len() == 0 || path[0] == 47u8);
            if p1 < s.len() && s[p1] == 63u8 {
                lemma_dec_qpairs_wf(s, p1 + 1);
                match dec_qpairs(s, p1 + 1) {
                    Some(pairs) => {
                        lemma_qle_total_ordering();
                        pairs.lemma_sort_by_ensures(qle());
                        let sorted = pairs.sort_by(qle());
                        assert forall|k: int| 0 <= k < sorted.len() implies wf_qpair(
                            #[trigger] sorted[k],
                        ) by {
                            broadcast use vstd::seq_lib::group_to_multiset_ensures;

                            assert(sorted.contains(sorted[k]));
                            assert(sorted.to_multiset().count(sorted[k]) > 0);
                            assert(pairs.to_multiset().count(sorted[k]) > 0);
                            assert(pairs.contains(sorted[k]));
                        }
                    },
                    None => {},
                }
            }
        }
    }
}

// ---------------------------------------------------------------------------
// The executable type
// ---------------------------------------------------------------------------

/// A canonical URL. Values exist only through `parse_url`, so every `Url`
/// is well-formed.
#[derive(Debug)]
pub struct Url {
    scheme: Vec<u8>,
    authority: Vec<u8>,
    path: Vec<u8>,
    query: Vec<(Vec<u8>, Vec<u8>)>,
}

/// The view of a query list: pairs of byte sequences.
pub open spec fn view_qpairs(entries: Seq<(Vec<u8>, Vec<u8>)>) -> Seq<(Seq<u8>, Seq<u8>)> {
    entries.map_values(|e: (Vec<u8>, Vec<u8>)| (e.0@, e.1@))
}

impl View for Url {
    type V = UrlV;

    closed spec fn view(&self) -> UrlV {
        UrlV {
            scheme: self.scheme@,
            authority: self.authority@,
            path: self.path@,
            query: view_qpairs(self.query@),
        }
    }
}

fn scan_scheme(s: &Vec<u8>, i: usize) -> (e: usize)
    requires
        i <= s@.len(),
    ensures
        e == run_end(s@, i as int, scheme_pred()),
        i <= e <= s@.len(),
{
    let mut j = i;
    while j < s.len() && ((97u8 <= s[j] && s[j] <= 122u8) || (48u8 <= s[j] && s[j] <= 57u8))
        invariant
            i <= j <= s@.len(),
            forall|k: int| i <= k < j ==> scheme_pred()(#[trigger] s@[k]),
        decreases s@.len() - j,
    {
        j += 1;
    }
    proof {
        lemma_run_end_value(s@, i as int, j as int, scheme_pred());
    }
    j
}

fn scan_auth(s: &Vec<u8>, i: usize) -> (e: usize)
    requires
        i <= s@.len(),
    ensures
        e == run_end(s@, i as int, auth_pred()),
        i <= e <= s@.len(),
{
    let mut j = i;
    while j < s.len() && s[j] != 47u8 && s[j] != 63u8
        invariant
            i <= j <= s@.len(),
            forall|k: int| i <= k < j ==> auth_pred()(#[trigger] s@[k]),
        decreases s@.len() - j,
    {
        j += 1;
    }
    proof {
        lemma_run_end_value(s@, i as int, j as int, auth_pred());
    }
    j
}

fn scan_path(s: &Vec<u8>, i: usize) -> (e: usize)
    requires
        i <= s@.len(),
    ensures
        e == run_end(s@, i as int, path_pred()),
        i <= e <= s@.len(),
{
    let mut j = i;
    while j < s.len() && s[j] != 63u8
        invariant
            i <= j <= s@.len(),
            forall|k: int| i <= k < j ==> path_pred()(#[trigger] s@[k]),
        decreases s@.len() - j,
    {
        j += 1;
    }
    proof {
        lemma_run_end_value(s@, i as int, j as int, path_pred());
    }
    j
}

fn scan_qkey(s: &Vec<u8>, i: usize) -> (e: usize)
    requires
        i <= s@.len(),
    ensures
        e == run_end(s@, i as int, qkey_pred()),
        i <= e <= s@.len(),
{
    let mut j = i;
    while j < s.len() && s[j] != 38u8 && s[j] != 61u8 && s[j] != 63u8
        invariant
            i <= j <= s@.len(),
            forall|k: int| i <= k < j ==> qkey_pred()(#[trigger] s@[k]),
        decreases s@.len() - j,
    {
        j += 1;
    }
    proof {
        lemma_run_end_value(s@, i as int, j as int, qkey_pred());
    }
    j
}

fn scan_qval(s: &Vec<u8>, i: usize) -> (e: usize)
    requires
        i <= s@.len(),
    ensures
        e == run_end(s@, i as int, qval_pred()),
        i <= e <= s@.len(),
{
    let mut j = i;
    while j < s.len() && s[j] != 38u8 && s[j] != 63u8
        invariant
            i <= j <= s@.len(),
            forall|k: int| i <= k < j ==> qval_pred()(#[trigger] s@[k]),
        decreases s@.len() - j,
    {
        j += 1;
    }
    proof {
        lemma_run_end_value(s@, i as int, j as int, qval_pred());
    }
    j
}

/// Whether the pair `(a0, a1)` comes at or before `(b0, b1)` in the
/// canonical query order.
pub(crate) fn qle_exec(a0: &Vec<u8>, a1: &Vec<u8>, b0: &Vec<u8>, b1: &Vec<u8>) -> (r: bool)
    ensures
        r == qpair_le((a0@, a1@), (b0@, b1@)),
{
    if crate::bytes::bytes_eq(a0, b0) {
        lex_le_exec(a1, b1)
    } else {
        lex_le_exec(a0, b0)
    }
}

proof fn lemma_lex_skip(a: Seq<u8>, b: Seq<u8>, i: int)
    requires
        0 <= i <= a.len(),
        i <= b.len(),
        a.subrange(0, i) == b.subrange(0, i),
    ensures
        lex_le(a, b) == lex_le(a.skip(i), b.skip(i)),
    decreases i,
{
    if i == 0 {
        assert(a.skip(0) =~= a);
        assert(b.skip(0) =~= b);
    } else {
        assert(a[0] == a.subrange(0, i)[0]);
        assert(b[0] == b.subrange(0, i)[0]);
        assert(a[0] == b[0]);
        assert(a.len() > 0 && b.len() > 0);
        assert(a.drop_first().subrange(0, i - 1) =~= b.drop_first().subrange(0, i - 1)) by {
            assert(forall|j: int|
                0 <= j < i - 1 ==> a.drop_first()[j] == a[j + 1] && b.drop_first()[j] == b[j + 1]
                    && a[j + 1] == a.subrange(0, i)[j + 1] && b[j + 1] == b.subrange(0, i)[j + 1]);
        }
        lemma_lex_skip(a.drop_first(), b.drop_first(), i - 1);
        assert(a.drop_first().skip(i - 1) =~= a.skip(i));
        assert(b.drop_first().skip(i - 1) =~= b.skip(i));
    }
}

/// Whether `a` comes at or before `b` in byte-lexicographic order.
fn lex_le_exec(a: &Vec<u8>, b: &Vec<u8>) -> (r: bool)
    ensures
        r == lex_le(a@, b@),
{
    let mut i: usize = 0;
    while i < a.len() && i < b.len()
        invariant
            i <= a@.len(),
            i <= b@.len(),
            a@.subrange(0, i as int) =~= b@.subrange(0, i as int),
        decreases a.len() - i,
    {
        proof {
            lemma_lex_skip(a@, b@, i as int);
        }
        if a[i] < b[i] {
            proof {
                assert(a@.skip(i as int)[0] == a@[i as int]);
                assert(b@.skip(i as int)[0] == b@[i as int]);
            }
            return true;
        }
        if a[i] > b[i] {
            proof {
                assert(a@.skip(i as int)[0] == a@[i as int]);
                assert(b@.skip(i as int)[0] == b@[i as int]);
            }
            return false;
        }
        proof {
            assert(a@.subrange(0, i + 1) =~= a@.subrange(0, i as int).push(a@[i as int]));
            assert(b@.subrange(0, i + 1) =~= b@.subrange(0, i as int).push(b@[i as int]));
        }
        i += 1;
    }
    proof {
        lemma_lex_skip(a@, b@, i as int);
    }
    if i == a.len() {
        proof {
            assert(a@.skip(i as int).len() == 0);
        }
        true
    } else {
        proof {
            assert(b@.skip(i as int).len() == 0);
            assert(a@.skip(i as int).len() > 0);
        }
        false
    }
}

/// Sorts query pairs into the canonical order.
fn sort_pairs(input: Vec<(Vec<u8>, Vec<u8>)>) -> (r: Vec<(Vec<u8>, Vec<u8>)>)
    ensures
        view_qpairs(r@) == view_qpairs(input@).sort_by(qle()),
{
    let ghost orig = view_qpairs(input@);
    let mut rest = input;
    let mut out: Vec<(Vec<u8>, Vec<u8>)> = Vec::new();
    proof {
        broadcast use vstd::seq_lib::group_to_multiset_ensures;

        assert(view_qpairs(rest@).to_multiset().add(view_qpairs(out@).to_multiset()) =~= orig.to_multiset()) by {
            assert(view_qpairs(out@) =~= Seq::<(Seq<u8>, Seq<u8>)>::empty());
            assert(view_qpairs(out@).to_multiset().len() == 0);
        }
    }
    while rest.len() > 0
        invariant
            sorted_by(view_qpairs(out@), qle()),
            view_qpairs(rest@).to_multiset().add(view_qpairs(out@).to_multiset())
                =~= orig.to_multiset(),
        decreases rest.len(),
    {
        broadcast use vstd::seq_lib::group_to_multiset_ensures;

        let ghost restv0 = view_qpairs(rest@);
        let e = rest.pop().unwrap();
        let ghost ev = (e.0@, e.1@);
        proof {
            assert(restv0 =~= view_qpairs(rest@).push(ev));
            assert(restv0.to_multiset() =~= view_qpairs(rest@).to_multiset().insert(ev));
        }
        let ghost outv0 = view_qpairs(out@);
        let mut pos: usize = 0;
        loop
            invariant
                pos <= out@.len(),
                view_qpairs(out@) == outv0,
                ev == (e.0@, e.1@),
                forall|j: int| 0 <= j < pos ==> qpair_le(#[trigger] outv0[j], ev),
            ensures
                pos <= out@.len(),
                forall|j: int| 0 <= j < pos ==> qpair_le(#[trigger] outv0[j], ev),
                pos < out@.len() ==> !qpair_le(outv0[pos as int], ev),
            decreases out.len() - pos,
        {
            if pos >= out.len() {
                break;
            }
            let goes_before = qle_exec(&out[pos].0, &out[pos].1, &e.0, &e.1);
            proof {
                assert(outv0[pos as int] == (out@[pos as int].0@, out@[pos as int].1@));
                assert(goes_before == qpair_le(outv0[pos as int], ev));
            }
            if !goes_before {
                break;
            }
            pos += 1;
        }
        proof {
            lemma_qle_total_ordering();
            if pos < out@.len() {
                assert(!qpair_le(outv0[pos as int], ev));
                assert(qle()(outv0[pos as int], ev) == qpair_le(outv0[pos as int], ev));
                assert(qle()(ev, outv0[pos as int]) || qle()(outv0[pos as int], ev)) by {
                    assert(vstd::relations::strongly_connected(qle()));
                }
                assert(qle()(ev, outv0[pos as int]));
            }
        }
        out.insert(pos, e);
        proof {
            let outv1 = view_qpairs(out@);
            assert(outv1 =~= outv0.take(pos as int) + seq![ev] + outv0.skip(pos as int)) by {
                assert(forall|j: int| 0 <= j < outv1.len() ==> outv1[j] == (out@[j].0@, out@[j].1@));
            }
            assert(sorted_by(outv1, qle())) by {
                assert forall|x: int, y: int| 0 <= x < y < outv1.len() implies qle()(
                    outv1[x],
                    outv1[y],
                ) by {
                    let p = pos as int;
                    if x < p && y < p {
                        assert(outv1[x] == outv0[x] && outv1[y] == outv0[y]);
                    } else if x < p && y == p {
                        assert(outv1[x] == outv0[x] && outv1[y] == ev);
                    } else if x < p && y > p {
                        assert(outv1[x] == outv0[x] && outv1[y] == outv0[y - 1]);
                    } else if x == p && y > p {
                        assert(outv1[x] == ev && outv1[y] == outv0[y - 1]);
                        assert(qle()(ev, outv0[p]));
                        if y - 1 > p {
                            assert(qle()(outv0[p], outv0[y - 1]));
                        }
                    } else {
                        assert(x > p && y > p);
                        assert(outv1[x] == outv0[x - 1] && outv1[y] == outv0[y - 1]);
                    }
                }
            }
            assert(outv1.to_multiset() =~= outv0.to_multiset().insert(ev)) by {
                lemma_multiset_commutative(outv0.take(pos as int) + seq![ev], outv0.skip(pos as int));
                lemma_multiset_commutative(outv0.take(pos as int), seq![ev]);
                assert(outv0.take(pos as int) + outv0.skip(pos as int) =~= outv0);
                lemma_multiset_commutative(outv0.take(pos as int), outv0.skip(pos as int));
                assert(seq![ev].to_multiset() =~= Multiset::<(Seq<u8>, Seq<u8>)>::empty().insert(
                    ev,
                )) by {
                    assert(seq![ev] =~= Seq::<(Seq<u8>, Seq<u8>)>::empty().push(ev));
                }
            }
        }
    }
    proof {
        assert(view_qpairs(rest@) =~= Seq::<(Seq<u8>, Seq<u8>)>::empty());
        assert(view_qpairs(rest@).to_multiset().len() == 0);
        assert(view_qpairs(out@).to_multiset() =~= orig.to_multiset());
        lemma_qle_total_ordering();
        orig.lemma_sort_by_ensures(qle());
        lemma_sorted_unique(view_qpairs(out@), orig.sort_by(qle()), qle());
    }
    out
}

fn parse_qpairs(s: &Vec<u8>, start: usize) -> (r: Option<Vec<(Vec<u8>, Vec<u8>)>>)
    requires
        start <= s@.len(),
    ensures
        match r {
            Some(v) => dec_qpairs(s@, start as int) == Some(view_qpairs(v@)),
            None => dec_qpairs(s@, start as int) is None,
        },
{
    let mut acc: Vec<(Vec<u8>, Vec<u8>)> = Vec::new();
    let mut i = start;
    loop
        invariant
            start <= i <= s@.len(),
            forall|rest: Seq<(Seq<u8>, Seq<u8>)>|
                dec_qpairs(s@, i as int) == Some(rest) ==> dec_qpairs(s@, start as int) == Some(
                    view_qpairs(acc@) + rest,
                ),
            dec_qpairs(s@, i as int) is None ==> dec_qpairs(s@, start as int) is None,
        decreases s@.len() - i,
    {
        let k1 = scan_qkey(s, i);
        if k1 >= s.len() || s[k1] != 61u8 {
            return None;
        }
        let v0 = k1 + 1;
        let v1 = scan_qval(s, v0);
        let key = crate::bytes::sub_bytes(s, i, k1);
        let val = crate::bytes::sub_bytes(s, v0, v1);
        let ghost pairv = (key@, val@);
        let ghost accv0 = view_qpairs(acc@);
        acc.push((key, val));
        proof {
            assert(view_qpairs(acc@) =~= accv0.push(pairv));
        }
        if v1 == s.len() {
            proof {
                assert(dec_qpairs(s@, i as int) == Some(seq![pairv]));
                assert(accv0 + seq![pairv] =~= view_qpairs(acc@));
            }
            return Some(acc);
        }
        if s[v1] != 38u8 {
            proof {
                assert(dec_qpairs(s@, i as int) is None);
            }
            return None;
        }
        proof {
            assert forall|rest: Seq<(Seq<u8>, Seq<u8>)>|
                dec_qpairs(s@, (v1 + 1) as int) == Some(rest) implies dec_qpairs(
                s@,
                start as int,
            ) == Some(view_qpairs(acc@) + rest) by {
                assert(dec_qpairs(s@, i as int) == Some(seq![pairv] + rest));
                assert(accv0 + (seq![pairv] + rest) =~= view_qpairs(acc@) + rest);
            }
            assert(dec_qpairs(s@, (v1 + 1) as int) is None ==> dec_qpairs(s@, i as int) is None);
        }
        i = v1 + 1;
    }
}

/// Parses a byte string as a URL. Returns `InvalidUrl` exactly when the
/// bytes are not a URL of the canonical grammar; on success the query is
/// sorted into canonical order and the result is well-formed.
pub fn parse_url(s: &Vec<u8>) -> (r: Result<Url, ReplayError>)
    ensures
        match dec_url(s@) {
            Some(u) => r matches Ok(url) && url@ == u && wf_url(url@),
            None => r == Err::<Url, ReplayError>(ReplayError::InvalidUrl),
        },
{
    proof {
        lemma_dec_url_wf(s@);
    }
    let e1 = scan_scheme(s, 0);
    if e1 == 0 || s.len() - e1 < 3 || s[e1] != 58u8 || s[e1 + 1] != 47u8 || s[e1 + 2] != 47u8 {
        return Err(ReplayError::InvalidUrl);
    }
    let a0 = e1 + 3;
    let a1 = scan_auth(s, a0);
    if a1 == a0 {
        return Err(ReplayError::InvalidUrl);
    }
    let scheme = crate::bytes::sub_bytes(s, 0, e1);
    let authority = crate::bytes::sub_bytes(s, a0, a1);
    let p1 = if a1 < s.len() && s[a1] == 47u8 {
        scan_path(s, a1)
    } else {
        a1
    };
    let path = crate::bytes::sub_bytes(s, a1, p1);
    if p1 == s.len() {
        let url = Url { scheme, authority, path, query: Vec::new() };
        proof {
            assert(view_qpairs(url.query@) =~= Seq::<(Seq<u8>, Seq<u8>)>::empty());
            assert(url@ =~= dec_url(s@).unwrap());
        }
        return Ok(url);
    }
    if s[p1] != 63u8 {
        return Err(ReplayError::InvalidUrl);
    }
    match parse_qpairs(s, p1 + 1) {
        None => Err(ReplayError::InvalidUrl),
        Some(pairs) => {
            let sorted = sort_pairs(pairs);
            let url = Url { scheme, authority, path, query: sorted };
            proof {
                assert(url@ =~= dec_url(s@).unwrap());
            }
            Ok(url)
        },
    }
}

impl Url {
    /// The canonical byte form of this URL.
    pub fn to_bytes(&self) -> (r: Vec<u8>)
        ensures
            r@ == print_url(self@),
    {
        let mut out: Vec<u8> = Vec::new();
        crate::bytes::push_bytes(&mut out, &self.scheme);
        out.push(58u8);
        out.push(47u8);
        out.push(47u8);
        crate::bytes::push_bytes(&mut out, &self.authority);
        crate::bytes::push_bytes(&mut out, &self.path);
        if self.query.len() > 0 {
            out.push(63u8);
            proof {
                assert(out@ + pq_from(self@.query, 0) =~= print_url(self@));
            }
            let mut k: usize = 0;
            while k < self.query.len()
                invariant
                    k <= self.query@.len(),
                    self.query@.len() > 0,
                    k < self.query@.len() ==> out@ + pq_from(self@.query, k as int) == print_url(
                        self@,
                    ),
                    k == self.query@.len() ==> out@ == print_url(self@),
                decreases self.query@.len() - k,
            {
                crate::bytes::push_bytes(&mut out, &self.query[k].0);
                out.push(61u8);
                crate::bytes::push_bytes(&mut out, &self.query[k].1);
                proof {
                    assert(self@.query[k as int] == (self.query@[k as int].0@, self.query@[
                        k as int].1@));
                }
                if k + 1 < self.query.len() {
                    out.push(38u8);
                    proof {
                        assert(out@ + pq_from(self@.query, k + 1) =~= print_url(self@));
                    }
                } else {
                    proof {
                        assert(out@ =~= print_url(self@));
                    }
                }
                k += 1;
            }
            out
        } else {
            proof {
                assert(out@ =~= print_url(self@));
            }
            out
        }
    }

    /// Whether two URLs are the same canonical URL.
    pub fn same_url(&self, other: &Url) -> (r: bool)
        ensures
            r == (self@ == other@),
    {
        if !crate::bytes::bytes_eq(&self.scheme, &other.scheme) {
            proof {
                assert(self@.scheme != other@.scheme);
            }
            return false;
        }
        if !crate::bytes::bytes_eq(&self.authority, &other.authority) {
            return false;
        }
        if !crate::bytes::bytes_eq(&self.path, &other.path) {
            return false;
        }
        if self.query.len() != other.query.len() {
            proof {
                assert(self@.query.len() != other@.query.len());
            }
            return false;
        }
        let mut i: usize = 0;
        while i < self.query.len()
            invariant
                i <= self.query@.len(),
                self.query@.len() == other.query@.len(),
                self@.scheme == other@.scheme,
                self@.authority == other@.authority,
                self@.path == other@.path,
                forall|j: int| 0 <= j < i ==> view_qpairs(self.query@)[j] == view_qpairs(
                    other.query@,
                )[j],
            decreases self.query@.len() - i,
        {
            if !crate::bytes::bytes_eq(&self.query[i].0, &other.query[i].0) {
                proof {
                    assert(view_qpairs(self.query@)[i as int].0 != view_qpairs(other.query@)[
                        i as int].0);
                }
                return false;
            }
            if !crate::bytes::bytes_eq(&self.query[i].1, &other.query[i].1) {
                proof {
                    assert(view_qpairs(self.query@)[i as int].1 != view_qpairs(other.query@)[
                        i as int].1);
                }
                return false;
            }
            proof {
                assert(view_qpairs(self.query@)[i as int] =~= view_qpairs(other.query@)[i as int]);
            }
            i += 1;
        }
        proof {
            assert(self@.query =~= other@.query);
            assert(self@ =~= other@);
        }
        true
    }

    /// A fresh copy of this URL.
    pub fn duplicate(&self) -> (r: Url)
        ensures
            r@ == self@,
    {
        let mut q: Vec<(Vec<u8>, Vec<u8>)> = Vec::new();
        let mut i: usize = 0;
        while i < self.query.len()
            invariant
                i <= self.query@.len(),
                view_qpairs(q@) =~= view_qpairs(self.query@).subrange(0, i as int),
            decreases self.query@.len() - i,
        {
            let k = crate::bytes::copy_bytes(&self.query[i].0);
            let v = crate::bytes::copy_bytes(&self.query[i].1);
            let ghost q0 = q@;
            q.push((k, v));
            proof {
                assert(q@.len() == q0.len() + 1);
                assert(view_qpairs(q0).len() == q0.len());
                assert(q0.len() == i);
            }
            i += 1;
            proof {
                assert(view_qpairs(q@) =~= view_qpairs(self.query@).subrange(0, i as int)) by {
                    assert forall|j: int| 0 <= j < i implies view_qpairs(q@)[j] == view_qpairs(
                        self.query@,
                    ).subrange(0, i as int)[j] by {
                        assert(view_qpairs(q@)[j] == (q@[j].0@, q@[j].1@));
                        assert(view_qpairs(self.query@)[j] == (self.query@[j].0@, self.query@[
                            j].1@));
                        if j < i - 1 {
                            assert(q@[j] == q0[j]);
                            assert(view_qpairs(q0)[j] == (q0[j].0@, q0[j].1@));
                        }
                    }
                    assert(view_qpairs(q@).len() == i);
                }
            }
        }
        proof {
            assert(view_qpairs(q@) =~= view_qpairs(self.query@));
        }
        let r = Url {
            scheme: crate::bytes::copy_bytes(&self.scheme),
            authority: crate::bytes::copy_bytes(&self.authority),
            path: crate::bytes::copy_bytes(&self.path),
            query: q,
        };
        proof {
            assert(r@ =~= self@);
        }
        r
    }
}

} // verus!

