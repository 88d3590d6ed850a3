//! The normalized interaction data model: requests, responses, headers and
//! the session-level configuration that seeds every new request.
//!
//! All textual fields are byte strings (`Vec<u8>`), so that matching and the
//! cassette wire format can be stated exactly over byte sequences.

use vstd::prelude::*;
use crate::urls::{Url, UrlV};

verus! {

/// Which request fields differed when a replayed request did not match the
/// recorded one. Carried by `ReplayError::ReplayMismatch`.
#[derive(Clone, Copy, Debug, PartialEq, Eq, Structural)]
pub struct RequestDiff {
    pub method: bool,
    pub url: bool,
    pub headers: bool,
    pub body: bool,
    pub basic_auth: bool,
}

/// Every failure the engine reports to its caller.
#[derive(Clone, Copy, Debug, PartialEq, Eq, Structural)]
pub enum ReplayError {
    /// A malformed URL was handed to a request builder.
    InvalidUrl,
    /// The external transport failed; the call is not recorded.
    TransportError,
    /// The cassette file could not be read or written.
    IoError,
    /// Stored cassette data failed to parse.
    CorruptCassette,
    /// A replayed request differed from the recorded one under the `Panic`
    /// reconciliation policy; says which fields differed.
    ReplayMismatch(RequestDiff),
    /// A replay was requested beyond the recorded sequence under a
    /// non-recording policy.
    ReplayExhausted,
    /// An operation was attempted after `close`.
    SessionClosed,
}

/// How redirects are followed: up to a limit, or not at all.
#[derive(Clone, Copy, Debug, PartialEq, Eq, Structural)]
pub enum RedirectPolicy {
    Limit(usize),
    NoFollow,
}

impl RedirectPolicy {
    /// Allow up to `n` redirects.
    pub fn limited(n: usize) -> (r: Self)
        ensures
            r == RedirectPolicy::Limit(n),
    {
        RedirectPolicy::Limit(n)
    }

    /// Allow no redirects.
    pub fn none() -> (r: Self)
        ensures
            r == RedirectPolicy::NoFollow,
    {
        RedirectPolicy::NoFollow
    }
}

impl Default for RedirectPolicy {
    /// The default follows up to ten redirects.
    fn default() -> (r: Self)
        ensures
            r == RedirectPolicy::Limit(10usize),
    {
        RedirectPolicy::Limit(10)
    }
}

/// What to do when a replayed request does not match the recorded one.
#[derive(Clone, Copy, Debug, PartialEq, Eq, Structural)]
pub enum HandleChangedRequest {
    /// Ignore the change: the stored response is used no matter what.
    Ignore,
    /// Promote the changed request to a live call; the fresh interaction is
    /// recorded.
    Record,
    /// Fail the call with `ReplayError::ReplayMismatch`.
    Panic,
}

/// Credentials for HTTP basic authentication.
#[derive(Debug)]
pub struct BasicAuth {
    pub username: Vec<u8>,
    pub password: Option<Vec<u8>>,
}

/// The view of `BasicAuth`: username and optional password as sequences.
#[verifier::ext_equal]
pub struct AuthV {
    pub username: Seq<u8>,
    pub password: Option<Seq<u8>>,
}

impl View for BasicAuth {
    type V = AuthV;

    open spec fn view(&self) -> AuthV {
        AuthV { username: self.username@, password: view_opt_bytes(self.password) }
    }
}

/// The view of an optional byte vector.
pub open spec fn view_opt_bytes(b: Option<Vec<u8>>) -> Option<Seq<u8>> {
    match b {
        Some(v) => Some(v@),
        None => None,
    }
}

/// An ordered multimap of header name/value pairs. A name may occur more
/// than once; insertion order is preserved for serialization, though it does
/// not participate in request matching.
#[derive(Debug)]
pub struct Headers {
    entries: Vec<(Vec<u8>, Vec<u8>)>,
}

/// The view of a header list: the ordered sequence of name/value pairs.
pub open spec fn view_pairs(entries: Seq<(Vec<u8>, Vec<u8>)>) -> Seq<(Seq<u8>, Seq<u8>)> {
    entries.map_values(|e: (Vec<u8>, Vec<u8>)| (e.0@, e.1@))
}

impl View for Headers {
    type V = Seq<(Seq<u8>, Seq<u8>)>;

    closed spec fn view(&self) -> Seq<(Seq<u8>, Seq<u8>)> {
        view_pairs(self.entries@)
    }
}

impl Headers {
    /// An empty header list.
    pub fn new() -> (r: Self)
        ensures
            r@ =~= Seq::<(Seq<u8>, Seq<u8>)>::empty(),
    {
        Headers { entries: Vec::new() }
    }

    /// How many name/value pairs are held.
    pub fn len(&self) -> (n: usize)
        ensures
            n == self@.len(),
    {
        self.entries.len()
    }

    /// The pair at position `i`, in insertion order.
    pub fn entry(&self, i: usize) -> (r: &(Vec<u8>, Vec<u8>))
        requires
            i < self@.len(),
        ensures
            (r.0@, r.1@) == self@[i as int],
    {
        &self.entries[i]
    }

    /// Appends one name/value pair, keeping any pairs already present.
    pub fn append(&mut self, name: Vec<u8>, value: Vec<u8>)
        ensures
            final(self)@ =~= old(self)@.push((name@, value@)),
    {
        self.entries.push((name, value));
    }

    /// Appends every pair of `other`, keeping insertion order.
    pub fn extend(&mut self, other: &Headers)
        ensures
            final(self)@ =~= old(self)@ + other@,
    {
        let mut i: usize = 0;
        while i < other.entries.len()
            invariant
                i <= other.entries@.len(),
                self@ =~= old(self)@ + other@.subrange(0, i as int),
            decreases other.entries@.len() - i,
        {
            let n = crate::bytes::copy_bytes(&other.entries[i].0);
            let v = crate::bytes::copy_bytes(&other.entries[i].1);
            let ghost pre = self@;
            self.entries.push((n, v));
            proof {
                assert(self@ =~= pre.push((other@[i as int].0, other@[i as int].1)));
                assert(self@ =~= old(self)@ + other@.subrange(0, i + 1));
            }
            i += 1;
        }
        proof {
            assert(self@ =~= old(self)@ + other@);
        }
    }

    /// A header list made of the given pairs, in the given order.
    pub fn from_entries(entries: Vec<(Vec<u8>, Vec<u8>)>) -> (r: Self)
        ensures
            r@ == view_pairs(entries@),
    {
        Headers { entries }
    }

    /// A fresh copy of this header list.
    pub fn duplicate(&self) -> (r: Self)
        ensures
            r@ == self@,
    {
        let mut out: Vec<(Vec<u8>, Vec<u8>)> = Vec::new();
        let mut i: usize = 0;
        while i < self.entries.len()
            invariant
                i <= self.entries@.len(),
                view_pairs(out@) =~= view_pairs(self.entries@).subrange(0, i as int),
            decreases self.entries@.len() - i,
        {
            let n = crate::bytes::copy_bytes(&self.entries[i].0);
            let v = crate::bytes::copy_bytes(&self.entries[i].1);
            let ghost out0 = out@;
            out.push((n, v));
            proof {
                assert(out@.len() == out0.len() + 1);
                assert(view_pairs(out0).len() == out0.len());
                assert(out0.len() == i);
            }
            i += 1;
            proof {
                assert(view_pairs(out@) =~= view_pairs(self.entries@).subrange(0, i as int)) by {
                    assert forall|j: int| 0 <= j < i implies view_pairs(out@)[j] == view_pairs(
                        self.entries@,
                    ).subrange(0, i as int)[j] by {
                        assert(view_pairs(out@)[j] == (out@[j].0@, out@[j].1@));
                        assert(view_pairs(self.entries@)[j] == (self.entries@[j].0@, self.entries@[
                            j].1@));
                        if j < i - 1 {
                            assert(out@[j] == out0[j]);
                            assert(view_pairs(out0)[j] == (out0[j].0@, out0[j].1@));
                        }
                    }
                    assert(view_pairs(out@).len() == i);
                }
            }
        }
        proof {
            assert(view_pairs(out@) =~= view_pairs(self.entries@));
        }
        Headers { entries: out }
    }
}

/// The HTTP status of a captured response.
#[derive(Clone, Copy, Debug, PartialEq, Eq, Structural)]
pub struct StatusCode {
    pub value: u16,
}

/// The pair that fixes where a request goes: its method and its URL.
#[derive(Debug)]
pub struct RequestTarget {
    url: Url,
    method: Vec<u8>,
}

/// The view of a request target.
#[verifier::ext_equal]
pub struct TargetV {
    pub url: UrlV,
    pub method: Seq<u8>,
}

impl View for RequestTarget {
    type V = TargetV;

    closed spec fn view(&self) -> TargetV {
        TargetV { url: self.url@, method: self.method@ }
    }
}

impl RequestTarget {
    /// Pairs a method with a URL.
    pub fn new(method: Vec<u8>, url: Url) -> (r: Self)
        ensures
            r@ == (TargetV { url: url@, method: method@ }),
    {
        RequestTarget { url, method }
    }

    /// The method of this target.
    pub fn method(&self) -> (r: &Vec<u8>)
        ensures
            r@ == self@.method,
    {
        &self.method
    }

    /// The URL of this target.
    pub fn url(&self) -> (r: &Url)
        ensures
            r@ == self@.url,
    {
        &self.url
    }

    /// A fresh copy of this target.
    pub fn duplicate(&self) -> (r: Self)
        ensures
            r@ == self@,
    {
        RequestTarget { url: self.url.duplicate(), method: crate::bytes::copy_bytes(&self.method) }
    }
}

/// A normalized snapshot of everything that affects an HTTP call: the target,
/// the transport knobs (`gzip`, `redirect`, `timeout`), credentials, headers
/// and body. The transport knobs are recorded for fidelity but never take
/// part in request matching.
#[derive(Debug)]
pub struct RequestData {
    /// Absent only while a builder is still assembling the request; must be
    /// present before matching or sending.
    pub target: Option<RequestTarget>,
    /// Whether automatic response decompression is requested.
    pub gzip: bool,
    pub redirect: RedirectPolicy,
    /// Timeout in seconds; absence means no timeout.
    pub timeout: Option<u64>,
    pub basic_auth: Option<BasicAuth>,
    pub headers: Headers,
    /// Absent and empty bodies are distinct in storage but equivalent for
    /// matching.
    pub body: Option<Vec<u8>>,
}

/// The view of a request.
#[verifier::ext_equal]
pub struct RequestV {
    pub target: Option<TargetV>,
    pub gzip: bool,
    pub redirect: RedirectPolicy,
    pub timeout: Option<u64>,
    pub basic_auth: Option<AuthV>,
    pub headers: Seq<(Seq<u8>, Seq<u8>)>,
    pub body: Option<Seq<u8>>,
}

impl View for RequestData {
    type V = RequestV;

    open spec fn view(&self) -> RequestV {
        RequestV {
            target: match self.target {
                Some(t) => Some(t@),
                None => None,
            },
            gzip: self.gzip,
            redirect: self.redirect,
            timeout: self.timeout,
            basic_auth: match self.basic_auth {
                Some(a) => Some(a@),
                None => None,
            },
            headers: self.headers@,
            body: view_opt_bytes(self.body),
        }
    }
}

/// The view of a request fresh from `ClientData` `cd`: no target, headers,
/// credentials or body yet, transport knobs copied from the session.
pub open spec fn seeded_request(cd: ClientData) -> RequestV {
    RequestV {
        target: None,
        gzip: cd.gzip,
        redirect: cd.redirect,
        timeout: cd.timeout,
        basic_auth: None,
        headers: Seq::empty(),
        body: None,
    }
}

impl Default for RequestData {
    /// A request with no target, no headers, no credentials and no body,
    /// with the default transport knobs.
    fn default() -> (r: Self)
        ensures
            r@ == seeded_request(ClientData { gzip: true, redirect: RedirectPolicy::Limit(10usize), timeout: None }),
    {
        RequestData {
            target: None,
            gzip: true,
            redirect: RedirectPolicy::Limit(10),
            timeout: None,
            basic_auth: None,
            headers: Headers::new(),
            body: None,
        }
    }
}

impl RequestData {
    /// A request seeded from the session configuration: the transport knobs
    /// are copied, everything else starts empty.
    pub fn new_for_client(cd: &ClientData) -> (r: Self)
        ensures
            r@ == seeded_request(*cd),
    {
        RequestData {
            target: None,
            gzip: cd.gzip,
            redirect: cd.redirect,
            timeout: cd.timeout,
            basic_auth: None,
            headers: Headers::new(),
            body: None,
        }
    }

    /// A fresh copy of this request.
    pub fn duplicate(&self) -> (r: Self)
        ensures
            r@ == self@,
    {
        let target = match &self.target {
            Some(t) => Some(t.duplicate()),
            None => None,
        };
        let basic_auth = match &self.basic_auth {
            Some(a) => Some(
                BasicAuth {
                    username: crate::bytes::copy_bytes(&a.username),
                    password: match &a.password {
                        Some(p) => Some(crate::bytes::copy_bytes(p)),
                        None => None,
                    },
                },
            ),
            None => None,
        };
        let body = match &self.body {
            Some(b) => Some(crate::bytes::copy_bytes(b)),
            None => None,
        };
        let r = RequestData {
            target,
            gzip: self.gzip,
            redirect: self.redirect,
            timeout: self.timeout,
            basic_auth,
            headers: self.headers.duplicate(),
            body,
        };
        proof {
            assert(r@ =~= self@);
        }
        r
    }
}

/// The immutable captured outcome of one live call: final URL, status,
/// headers and body. Created once at record time, never mutated.
#[derive(Debug)]
pub struct ResponseData {
    /// The final URL of this request, after any redirects.
    pub url: Url,
    pub status: StatusCode,
    pub headers: Headers,
    pub body: Vec<u8>,
}

/// The view of a response.
#[verifier::ext_equal]
pub struct ResponseV {
    pub url: UrlV,
    pub status: u16,
    pub headers: Seq<(Seq<u8>, Seq<u8>)>,
    pub body: Seq<u8>,
}

impl View for ResponseData {
    type V = ResponseV;

    open spec fn view(&self) -> ResponseV {
        ResponseV { url: self.url@, status: self.status.value, headers: self.headers@, body: self.body@ }
    }
}

impl ResponseData {
    /// Captures a completed live call.
    pub fn new(url: Url, status: StatusCode, headers: Headers, body: Vec<u8>) -> (r: Self)
        ensures
            r@ == (ResponseV { url: url@, status: status.value, headers: headers@, body: body@ }),
    {
        ResponseData { url, status, headers, body }
    }

    /// A fresh copy of this response.
    pub fn duplicate(&self) -> (r: Self)
        ensures
            r@ == self@,
    {
        let r = ResponseData {
            url: self.url.duplicate(),
            status: self.status,
            headers: self.headers.duplicate(),
            body: crate::bytes::copy_bytes(&self.body),
        };
        proof {
            assert(r@ =~= self@);
        }
        r
    }
}

/// One recorded request/response pair: the unit of storage and replay.
#[derive(Debug)]
pub struct ReplayData {
    pub request: RequestData,
    pub response: ResponseData,
}

/// The view of one recorded interaction.
#[verifier::ext_equal]
pub struct InteractionV {
    pub request: RequestV,
    pub response: ResponseV,
}

impl View for ReplayData {
    type V = InteractionV;

    open spec fn view(&self) -> InteractionV {
        InteractionV { request: self.request@, response: self.response@ }
    }
}

impl ReplayData {
    /// A fresh copy of this interaction.
    pub fn duplicate(&self) -> (r: Self)
        ensures
            r@ == self@,
    {
        let r = ReplayData { request: self.request.duplicate(), response: self.response.duplicate() };
        proof {
            assert(r@ =~= self@);
        }
        r
    }
}

/// Session-scoped defaults seeded into every new request at builder
/// creation. Mutating them later never retroactively affects a request that
/// was already built.
#[derive(Clone, Copy, Debug, PartialEq, Eq, Structural)]
pub struct ClientData {
    pub gzip: bool,
    pub redirect: RedirectPolicy,
    /// Timeout in seconds; absence means no timeout.
    pub timeout: Option<u64>,
}

impl Default for ClientData {
    /// Decompression on, up to ten redirects, no timeout.
    fn default() -> (r: Self)
        ensures
            r == (ClientData { gzip: true, redirect: RedirectPolicy::Limit(10usize), timeout: None }),
    {
        ClientData { gzip: true, redirect: RedirectPolicy::Limit(10), timeout: None }
    }
}

} // verus!
