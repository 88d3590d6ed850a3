//! Request matching and reconciliation: whether an outgoing request is
//! equivalent to a recorded one, which unconsumed interaction answers it,
//! and what one replay step does under each reconciliation policy.

use vstd::prelude::*;
use crate::data::{
    HandleChangedRequest, Headers, InteractionV, ReplayData, ReplayError, RequestData, RequestDiff,
    RequestV, ResponseV,
};

verus! {

// ---------------------------------------------------------------------------
// Request equivalence
// ---------------------------------------------------------------------------

/// ASCII upper-case letters folded to lower case; all other bytes unchanged.
pub open spec fn lower_byte(b: u8) -> u8 {
    if 65 <= b <= 90 {
        (b + 32) as u8
    } else {
        b
    }
}

/// A byte string folded to lower case.
pub open spec fn lower(s: Seq<u8>) -> Seq<u8> {
    s.map_values(|b: u8| lower_byte(b))
}

/// The headers that matter for matching: the set of name/value pairs with
/// names folded to lower case. Order and repetition are irrelevant.
pub open spec fn header_set(h: Seq<(Seq<u8>, Seq<u8>)>) -> Set<(Seq<u8>, Seq<u8>)> {
    h.map_values(|e: (Seq<u8>, Seq<u8>)| (lower(e.0), e.1)).to_set()
}

/// The body bytes that matter for matching: an absent body and an empty body
/// are the same.
pub open spec fn body_rep(b: Option<Seq<u8>>) -> Seq<u8> {
    match b {
        Some(v) => v,
        None => Seq::empty(),
    }
}

/// Request equivalence: method, canonical URL, header sets with
/// case-insensitive names, body bytes and credentials are equal. The
/// transport knobs (`gzip`, `redirect`, `timeout`) play no part. Both
/// targets must be present.
pub open spec fn req_equiv(a: RequestV, b: RequestV) -> bool {
    &&& match (a.target, b.target) {
        (Some(ta), Some(tb)) => ta.method == tb.method && ta.url == tb.url,
        _ => false,
    }
    &&& header_set(a.headers) == header_set(b.headers)
    &&& body_rep(a.body) == body_rep(b.body)
    &&& a.basic_auth == b.basic_auth
}

/// Which fields of `a` differ from `b`, for mismatch reports.
pub open spec fn diff_of(a: RequestV, b: RequestV) -> RequestDiff {
    RequestDiff {
        method: !match (a.target, b.target) {
            (Some(ta), Some(tb)) => ta.method == tb.method,
            _ => false,
        },
        url: !match (a.target, b.target) {
            (Some(ta), Some(tb)) => ta.url == tb.url,
            _ => false,
        },
        headers: header_set(a.headers) != header_set(b.headers),
        body: body_rep(a.body) != body_rep(b.body),
        basic_auth: a.basic_auth != b.basic_auth,
    }
}

/// Folds one byte vector to lower case.
fn to_lower(v: &Vec<u8>) -> (r: Vec<u8>)
    ensures
        r@ == lower(v@),
{
    let mut out: Vec<u8> = Vec::new();
    let mut i: usize = 0;
    while i < v.len()
        invariant
            i <= v@.len(),
            out@ =~= lower(v@).subrange(0, i as int),
        decreases v.len() - i,
    {
        let b = v[i];
        if 65 <= b && b <= 90 {
            out.push(b + 32);
        } else {
            out.push(b);
        }
        proof {
            assert(out@ =~= lower(v@).subrange(0, i + 1));
        }
        i += 1;
    }
    proof {
        assert(out@ =~= lower(v@));
    }
    out
}

/// Whether entry `i` of `a`, name-folded, occurs anywhere in `b`.
fn entry_in(a: &Headers, i: usize, b: &Headers) -> (r: bool)
    requires
        i < a@.len(),
    ensures
        r == header_set(b@).contains((lower(a@[i as int].0), a@[i as int].1)),
{
    let target_name = to_lower(&a.entry(i).0);
    let ghost x = (lower(a@[i as int].0), a@[i as int].1);
    let mut j: usize = 0;
    while j < b.len()
        invariant
            j <= b@.len(),
            target_name@ == lower(a@[i as int].0),
            i < a@.len(),
            x == (lower(a@[i as int].0), a@[i as int].1),
            forall|m: int|
                0 <= m < j ==> (lower(#[trigger] b@[m].0), b@[m].1) != x,
        decreases b@.len() - j,
    {
        let bn = to_lower(&b.entry(j).0);
        if crate::bytes::bytes_eq(&target_name, &bn) && crate::bytes::bytes_eq(
            &a.entry(i).1,
            &b.entry(j).1,
        ) {
            proof {
                let mapped = b@.map_values(|e: (Seq<u8>, Seq<u8>)| (lower(e.0), e.1));
                assert(mapped[j as int] == x);
                assert(mapped.contains(x));
            }
            return true;
        }
        proof {
            assert((lower(b@[j as int].0), b@[j as int].1) != x);
        }
        j += 1;
    }
    proof {
        let mapped = b@.map_values(|e: (Seq<u8>, Seq<u8>)| (lower(e.0), e.1));
        assert forall|m: int| 0 <= m < mapped.len() implies mapped[m] != x by {
            assert(mapped[m] == (lower(b@[m].0), b@[m].1));
        }
        assert(!mapped.contains(x));
    }
    false
}

/// Whether every folded entry of `a` occurs in `b`.
fn headers_subset(a: &Headers, b: &Headers) -> (r: bool)
    ensures
        r == header_set(a@).subset_of(header_set(b@)),
{
    let mut i: usize = 0;
    while i < a.len()
        invariant
            i <= a@.len(),
            forall|m: int|
                0 <= m < i ==> header_set(b@).contains(
                    (lower(#[trigger] a@[m].0), a@[m].1),
                ),
        decreases a@.len() - i,
    {
        if !entry_in(a, i, b) {
            proof {
                let mapped = a@.map_values(|e: (Seq<u8>, Seq<u8>)| (lower(e.0), e.1));
                assert(mapped[i as int] == (lower(a@[i as int].0), a@[i as int].1));
                assert(mapped.contains(mapped[i as int]));
                assert(header_set(a@).contains((lower(a@[i as int].0), a@[i as int].1)));
            }
            return false;
        }
        i += 1;
    }
    proof {
        let mapped = a@.map_values(|e: (Seq<u8>, Seq<u8>)| (lower(e.0), e.1));
        assert forall|x: (Seq<u8>, Seq<u8>)| header_set(a@).contains(x) implies header_set(
            b@,
        ).contains(x) by {
            assert(mapped.contains(x));
            let m = choose|m: int| 0 <= m < mapped.len() && mapped[m] == x;
            assert(mapped[m] == (lower(a@[m].0), a@[m].1));
        }
    }
    true
}

/// Whether two header lists carry the same set of folded name/value pairs.
fn headers_equiv(a: &Headers, b: &Headers) -> (r: bool)
    ensures
        r == (header_set(a@) == header_set(b@)),
{
    let ab = headers_subset(a, b);
    if !ab {
        proof {
            assert(header_set(a@) != header_set(b@)) by {
                if header_set(a@) == header_set(b@) {
                    assert(header_set(a@).subset_of(header_set(b@)));
                }
            }
        }
        return false;
    }
    let ba = headers_subset(b, a);
    if !ba {
        proof {
            assert(header_set(a@) != header_set(b@)) by {
                if header_set(a@) == header_set(b@) {
                    assert(header_set(b@).subset_of(header_set(a@)));
                }
            }
        }
        return false;
    }
    proof {
        assert(header_set(a@) =~= header_set(b@));
    }
    true
}

/// Whether two optional bodies carry the same bytes, treating an absent
/// body as empty.
fn bodies_equiv(a: &Option<Vec<u8>>, b: &Option<Vec<u8>>) -> (r: bool)
    ensures
        r == (body_rep(crate::data::view_opt_bytes(*a)) == body_rep(
            crate::data::view_opt_bytes(*b),
        )),
{
    match (a, b) {
        (Some(va), Some(vb)) => crate::bytes::bytes_eq(va, vb),
        (Some(va), None) => {
            let r = va.len() == 0;
            proof {
                if va@.len() == 0 {
                    assert(va@ =~= Seq::<u8>::empty());
                }
            }
            r
        },
        (None, Some(vb)) => {
            let r = vb.len() == 0;
            proof {
                if vb@.len() == 0 {
                    assert(vb@ =~= Seq::<u8>::empty());
                }
            }
            r
        },
        (None, None) => true,
    }
}

/// Whether two optional credential sets are equal.
fn auth_equiv(a: &Option<crate::data::BasicAuth>, b: &Option<crate::data::BasicAuth>) -> (r: bool)
    ensures
        r == ((match a {
            Some(v) => Some(v@),
            None => None,
        }) == (match b {
            Some(v) => Some(v@),
            None => None,
        })),
{
    match (a, b) {
        (None, None) => true,
        (Some(va), Some(vb)) => {
            let ue = crate::bytes::bytes_eq(&va.username, &vb.username);
            if !ue {
                proof {
                    assert(va@ != vb@);
                }
                return false;
            }
            let pe = match (&va.password, &vb.password) {
                (None, None) => true,
                (Some(pa), Some(pb)) => crate::bytes::bytes_eq(pa, pb),
                _ => false,
            };
            proof {
                if pe {
                    assert(va@.password == vb@.password);
                    assert(va@ =~= vb@);
                } else {
                    assert(va@.password != vb@.password);
                    assert(va@ != vb@);
                }
            }
            pe
        },
        _ => false,
    }
}

/// Whether `a` and `b` are request-equivalent.
pub fn req_equivalent(a: &RequestData, b: &RequestData) -> (r: bool)
    ensures
        r == req_equiv(a@, b@),
{
    let targets_ok = match (&a.target, &b.target) {
        (Some(ta), Some(tb)) => {
            let me = crate::bytes::bytes_eq(ta.method(), tb.method());
            if !me {
                false
            } else {
                ta.url().same_url(tb.url())
            }
        },
        _ => false,
    };
    if !targets_ok {
        return false;
    }
    if !headers_equiv(&a.headers, &b.headers) {
        return false;
    }
    if !bodies_equiv(&a.body, &b.body) {
        return false;
    }
    auth_equiv(&a.basic_auth, &b.basic_auth)
}

/// The structural difference between two requests.
pub fn request_diff(a: &RequestData, b: &RequestData) -> (r: RequestDiff)
    ensures
        r == diff_of(a@, b@),
{
    let (method_same, url_same) = match (&a.target, &b.target) {
        (Some(ta), Some(tb)) => {
            let me = crate::bytes::bytes_eq(ta.method(), tb.method());
            let ue = ta.url().same_url(tb.url());
            (me, ue)
        },
        _ => (false, false),
    };
    RequestDiff {
        method: !method_same,
        url: !url_same,
        headers: !headers_equiv(&a.headers, &b.headers),
        body: !bodies_equiv(&a.body, &b.body),
        basic_auth: !auth_equiv(&a.basic_auth, &b.basic_auth),
    }
}

// ---------------------------------------------------------------------------
// In-order, unconsumed-first lookup
// ---------------------------------------------------------------------------

/// The first unconsumed position at or after `i`.
pub open spec fn first_unconsumed_from(consumed: Seq<bool>, i: int) -> Option<int>
    decreases consumed.len() - i,
{
    if i < 0 || i >= consumed.len() {
        None
    } else if !consumed[i] {
        Some(i)
    } else {
        first_unconsumed_from(consumed, i + 1)
    }
}

/// The first unconsumed position at or after `i` whose recorded request is
/// equivalent to `req`.
pub open spec fn first_match_from(
    cassette: Seq<InteractionV>,
    consumed: Seq<bool>,
    req: RequestV,
    i: int,
) -> Option<int>
    decreases cassette.len() - i,
{
    if i < 0 || i >= cassette.len() {
        None
    } else if i < consumed.len() && !consumed[i] && req_equiv(req, cassette[i].request) {
        Some(i)
    } else {
        first_match_from(cassette, consumed, req, i + 1)
    }
}

/// Finds the first unconsumed interaction equivalent to `req`.
pub fn find_match(
    cassette: &Vec<ReplayData>,
    consumed: &Vec<bool>,
    req: &RequestData,
) -> (r: Option<usize>)
    requires
        consumed@.len() == cassette@.len(),
    ensures
        match r {
            Some(i) => first_match_from(crate::codec::view_inters(cassette@), consumed@, req@, 0)
                == Some(i as int) && i < cassette@.len(),
            None => first_match_from(crate::codec::view_inters(cassette@), consumed@, req@, 0)
                is None,
        },
{
    let ghost cv = crate::codec::view_inters(cassette@);
    let mut i: usize = 0;
    while i < cassette.len()
        invariant
            i <= cassette@.len(),
            consumed@.len() == cassette@.len(),
            cv == crate::codec::view_inters(cassette@),
            first_match_from(cv, consumed@, req@, 0) == first_match_from(
                cv,
                consumed@,
                req@,
                i as int,
            ),
        decreases cassette.len() - i,
    {
        proof {
            assert(cv[i as int] == cassette@[i as int]@);
        }
        if !consumed[i] && req_equivalent(req, &cassette[i].request) {
            return Some(i);
        }
        i += 1;
    }
    None
}

/// Finds the first unconsumed position.
pub fn find_unconsumed(consumed: &Vec<bool>) -> (r: Option<usize>)
    ensures
        match r {
            Some(i) => first_unconsumed_from(consumed@, 0) == Some(i as int) && i
                < consumed@.len(),
            None => first_unconsumed_from(consumed@, 0) is None,
        },
{
    let mut i: usize = 0;
    while i < consumed.len()
        invariant
            i <= consumed@.len(),
            first_unconsumed_from(consumed@, 0) == first_unconsumed_from(consumed@, i as int),
        decreases consumed.len() - i,
    {
        if !consumed[i] {
            return Some(i);
        }
        i += 1;
    }
    None
}

// ---------------------------------------------------------------------------
// One replay step
// ---------------------------------------------------------------------------

/// What one replay step produced: a stored response, a promotion to a live
/// call, or a failure.
pub enum StepOutcome {
    Replayed(ResponseV),
    NeedsLive,
    Failed(ReplayError),
}

/// One replay-mode step: the first unconsumed equivalent interaction is the
/// match and is consumed; otherwise the reconciliation policy decides, and
/// nothing is consumed yet.
pub open spec fn replay_step(
    cassette: Seq<InteractionV>,
    consumed: Seq<bool>,
    policy: HandleChangedRequest,
    req: RequestV,
) -> (StepOutcome, Seq<bool>) {
    match first_match_from(cassette, consumed, req, 0) {
        Some(i) => (StepOutcome::Replayed(cassette[i].response), consumed.update(i, true)),
        None => match first_unconsumed_from(consumed, 0) {
            Some(k) => match policy {
                HandleChangedRequest::Ignore => (
                    StepOutcome::Replayed(cassette[k].response),
                    consumed,
                ),
                HandleChangedRequest::Panic => (
                    StepOutcome::Failed(ReplayError::ReplayMismatch(diff_of(req, cassette[k].request))),
                    consumed,
                ),
                HandleChangedRequest::Record => (StepOutcome::NeedsLive, consumed),
            },
            None => match policy {
                HandleChangedRequest::Record => (StepOutcome::NeedsLive, consumed),
                _ => (StepOutcome::Failed(ReplayError::ReplayExhausted), consumed),
            },
        },
    }
}

// ---------------------------------------------------------------------------
// Laws of the matcher
// ---------------------------------------------------------------------------

/// How many entries of a sequence are true: the number of interactions a
/// session has consumed.
pub open spec fn count_true(s: Seq<bool>) -> int
    decreases s.len(),
{
    if s.len() == 0 {
        0
    } else {
        count_true(s.drop_last()) + if s.last() {
            1int
        } else {
            0int
        }
    }
}

/// The consumption state after the first `n` of `len` interactions have
/// been replayed in order.
pub open spec fn prefix_consumed(n: int, len: int) -> Seq<bool> {
    Seq::new(len as nat, |j: int| j < n)
}

proof fn lemma_count_all_true(s: Seq<bool>)
    requires
        forall|k: int| 0 <= k < s.len() ==> s[k],
    ensures
        count_true(s) == s.len(),
    decreases s.len(),
{
    if s.len() > 0 {
        lemma_count_all_true(s.drop_last());
    }
}

proof fn lemma_first_match_skips_consumed(
    cassette: Seq<InteractionV>,
    consumed: Seq<bool>,
    req: RequestV,
    j: int,
    i: int,
)
    requires
        consumed.len() == cassette.len(),
        0 <= j <= i < cassette.len(),
        forall|m: int| j <= m < i ==> consumed[m],
        !consumed[i],
        req_equiv(req, cassette[i].request),
    ensures
        first_match_from(cassette, consumed, req, j) == Some(i),
    decreases i - j,
{
    if j < i {
        lemma_first_match_skips_consumed(cassette, consumed, req, j + 1, i);
    }
}

proof fn lemma_first_match_all_consumed(
    cassette: Seq<InteractionV>,
    consumed: Seq<bool>,
    req: RequestV,
    j: int,
)
    requires
        consumed.len() == cassette.len(),
        0 <= j,
        forall|m: int| 0 <= m < consumed.len() ==> consumed[m],
    ensures
        first_match_from(cassette, consumed, req, j) is None,
    decreases cassette.len() - j,
{
    if j < cassette.len() {
        lemma_first_match_all_consumed(cassette, consumed, req, j + 1);
    }
}

proof fn lemma_first_unconsumed_all_consumed(consumed: Seq<bool>, j: int)
    requires
        0 <= j,
        forall|m: int| 0 <= m < consumed.len() ==> consumed[m],
    ensures
        first_unconsumed_from(consumed, j) is None,
    decreases consumed.len() - j,
{
    if j < consumed.len() {
        lemma_first_unconsumed_all_consumed(consumed, j + 1);
    }
}

/// Recording a sequence of requests and then replaying the same requests in
/// the same order, under a policy that never goes live on a match, returns
/// exactly the recorded responses: the step after `i` replays has the
/// `i`-th interaction answer the `i`-th request and consume one more entry,
/// and after all of them the whole cassette is consumed.
pub proof fn lemma_record_then_replay_idempotent(
    cassette: Seq<InteractionV>,
    reqs: Seq<RequestV>,
    policy: HandleChangedRequest,
    i: int,
)
    requires
        reqs.len() == cassette.len(),
        forall|j: int| 0 <= j < reqs.len() ==> req_equiv(#[trigger] reqs[j], cassette[j].request),
        0 <= i < reqs.len(),
    ensures
        replay_step(cassette, prefix_consumed(i, cassette.len() as int), policy, reqs[i]) == (
            StepOutcome::Replayed(cassette[i].response),
            prefix_consumed(i + 1, cassette.len() as int),
        ),
        count_true(prefix_consumed(cassette.len() as int, cassette.len() as int))
            == cassette.len(),
{
    let n = cassette.len() as int;
    let consumed = prefix_consumed(i, n);
    lemma_first_match_skips_consumed(cassette, consumed, reqs[i], 0, i);
    assert(consumed.update(i, true) =~= prefix_consumed(i + 1, n));
    lemma_count_all_true(prefix_consumed(n, n));
}

/// A replayed request whose body differs from the recorded one, all
/// identity fields else agreeing, is a mismatch: under `Panic` the call
/// fails with a report naming the body; under `Ignore` the stored response
/// is returned unchanged; under `Record` the one call is promoted to a live
/// call.
pub proof fn lemma_mismatch_detection(iv: InteractionV, req: RequestV)
    requires
        match (req.target, iv.request.target) {
            (Some(a), Some(b)) => a.method == b.method && a.url == b.url,
            _ => false,
        },
        header_set(req.headers) == header_set(iv.request.headers),
        req.basic_auth == iv.request.basic_auth,
        body_rep(req.body) != body_rep(iv.request.body),
    ensures
        diff_of(req, iv.request).body,
        !diff_of(req, iv.request).method,
        !diff_of(req, iv.request).url,
        !diff_of(req, iv.request).headers,
        !diff_of(req, iv.request).basic_auth,
        replay_step(seq![iv], seq![false], HandleChangedRequest::Panic, req) == (
            StepOutcome::Failed(ReplayError::ReplayMismatch(diff_of(req, iv.request))),
            seq![false],
        ),
        replay_step(seq![iv], seq![false], HandleChangedRequest::Ignore, req) == (
            StepOutcome::Replayed(iv.response),
            seq![false],
        ),
        replay_step(seq![iv], seq![false], HandleChangedRequest::Record, req) == (
            StepOutcome::NeedsLive,
            seq![false],
        ),
{
    let cassette = seq![iv];
    let consumed = seq![false];
    assert(!req_equiv(req, cassette[0].request));
    assert(first_match_from(cassette, consumed, req, 1) is None);
    assert(first_match_from(cassette, consumed, req, 0) is None);
    assert(first_unconsumed_from(consumed, 0) == Some(0int));
}

/// Replaying one more request than was recorded, under a policy that does
/// not promote to recording, fails with exhaustion and consumes nothing.
pub proof fn lemma_exhaustion(
    cassette: Seq<InteractionV>,
    consumed: Seq<bool>,
    policy: HandleChangedRequest,
    req: RequestV,
)
    requires
        consumed.len() == cassette.len(),
        forall|m: int| 0 <= m < consumed.len() ==> consumed[m],
        policy is Ignore || policy is Panic,
    ensures
        replay_step(cassette, consumed, policy, req) == (
            StepOutcome::Failed(ReplayError::ReplayExhausted),
            consumed,
        ),
{
    lemma_first_match_all_consumed(cassette, consumed, req, 0);
    lemma_first_unconsumed_all_consumed(consumed, 0);
}

proof fn lemma_first_match_agrees(
    cassette: Seq<InteractionV>,
    consumed: Seq<bool>,
    a: RequestV,
    b: RequestV,
    j: int,
)
    requires
        a.target == b.target,
        a.headers == b.headers,
        a.body == b.body,
        a.basic_auth == b.basic_auth,
    ensures
        first_match_from(cassette, consumed, a, j) == first_match_from(cassette, consumed, b, j),
    decreases cassette.len() - j,
{
    if 0 <= j < cassette.len() {
        assert(req_equiv(a, cassette[j].request) == req_equiv(b, cassette[j].request));
        lemma_first_match_agrees(cassette, consumed, a, b, j + 1);
    }
}

/// The transport knobs never affect the match outcome: two requests that
/// agree on every identity field take exactly the same replay step, whatever
/// their `gzip`, `redirect` and `timeout` settings; in particular one
/// matches a recorded request exactly when the other does.
pub proof fn lemma_knobs_never_affect_outcome(
    cassette: Seq<InteractionV>,
    consumed: Seq<bool>,
    policy: HandleChangedRequest,
    a: RequestV,
    b: RequestV,
)
    requires
        a.target == b.target,
        a.headers == b.headers,
        a.body == b.body,
        a.basic_auth == b.basic_auth,
    ensures
        replay_step(cassette, consumed, policy, a) == replay_step(cassette, consumed, policy, b),
        forall|c: RequestV| req_equiv(a, c) == req_equiv(b, c),
{
    lemma_first_match_agrees(cassette, consumed, a, b, 0);
    assert forall|c: RequestV| req_equiv(a, c) == req_equiv(b, c) by {}
    match first_match_from(cassette, consumed, a, 0) {
        Some(_) => {},
        None => {
            match first_unconsumed_from(consumed, 0) {
                Some(k) => {
                    assert(diff_of(a, cassette[k].request) == diff_of(b, cassette[k].request));
                },
                None => {},
            }
        },
    }
}

} // verus!
