//! The request builder: assembles a request from the session configuration
//! and per-call headers, credentials and body, then hands it to the session.
//!
//! Form and JSON bodies are encoded by outside serializers behind trusted
//! wrappers; everything else is built and verified here.

use vstd::prelude::*;
use crate::data::{BasicAuth, Headers, ReplayError, RequestData, RequestTarget, RequestV, TargetV};
use crate::session::{ReplayClient, SendOutcome, SessionState};
use crate::urls::dec_url;

verus! {

/// The bytes of the `GET` method.
pub open spec fn method_get() -> Seq<u8> {
    seq![71u8, 69u8, 84u8]
}

/// The bytes of the `POST` method.
pub open spec fn method_post() -> Seq<u8> {
    seq![80u8, 79u8, 83u8, 84u8]
}

/// The bytes of the `PUT` method.
pub open spec fn method_put() -> Seq<u8> {
    seq![80u8, 85u8, 84u8]
}

/// The bytes of the `PATCH` method.
pub open spec fn method_patch() -> Seq<u8> {
    seq![80u8, 65u8, 84u8, 67u8, 72u8]
}

/// The bytes of the `DELETE` method.
pub open spec fn method_delete() -> Seq<u8> {
    seq![68u8, 69u8, 76u8, 69u8, 84u8, 69u8]
}

/// The bytes of the `HEAD` method.
pub open spec fn method_head() -> Seq<u8> {
    seq![72u8, 69u8, 65u8, 68u8]
}

/// The bytes of the `Content-Type` header name.
pub open spec fn ct_name() -> Seq<u8> {
    seq![67u8, 111u8, 110u8, 116u8, 101u8, 110u8, 116u8, 45u8, 84u8, 121u8, 112u8, 101u8]
}

/// The bytes of `application/x-www-form-urlencoded`.
pub open spec fn ct_form() -> Seq<u8> {
    seq![
        97u8, 112u8, 112u8, 108u8, 105u8, 99u8, 97u8, 116u8, 105u8, 111u8, 110u8, 47u8, 120u8,
        45u8, 119u8, 119u8, 119u8, 45u8, 102u8, 111u8, 114u8, 109u8, 45u8, 117u8, 114u8, 108u8,
        101u8, 110u8, 99u8, 111u8, 100u8, 101u8, 100u8,
    ]
}

/// The bytes of `application/json`.
pub open spec fn ct_json() -> Seq<u8> {
    seq![
        97u8, 112u8, 112u8, 108u8, 105u8, 99u8, 97u8, 116u8, 105u8, 111u8, 110u8, 47u8, 106u8,
        115u8, 111u8, 110u8,
    ]
}

/// The views of name/value string pairs handed to an outside serializer.
pub open spec fn view_str_pairs(pairs: Seq<(String, String)>) -> Seq<(Seq<char>, Seq<char>)> {
    pairs.map_values(|p: (String, String)| (p.0@, p.1@))
}

/// What `serde_urlencoded::to_string` returns for a list of name/value
/// pairs; the encoding depends on the pairs alone.
pub uninterp spec fn urlencoded_of(pairs: Seq<(Seq<char>, Seq<char>)>) -> Seq<u8>;

/// Relies on serde_urlencoded::to_string: it writes the pairs as
/// `application/x-www-form-urlencoded` text, and its serializer accepts
/// every string pair.
#[verifier::external_body]
fn urlencode_pairs(pairs: &Vec<(String, String)>) -> (r: Option<Vec<u8>>)
    ensures
        r is Some,
        r matches Some(b) ==> b@ == urlencoded_of(view_str_pairs(pairs@)),
{
    serde_urlencoded::to_string(pairs).ok().map(String::into_bytes)
}

/// What `serde_json::to_vec` returns for a list of name/value pairs: their
/// JSON form as an array of two-element string arrays, depending on the
/// pairs alone.
pub uninterp spec fn json_pairs_of(pairs: Seq<(Seq<char>, Seq<char>)>) -> Seq<u8>;

/// Relies on serde_json::to_vec: it writes the pairs as JSON, and writing
/// strings to a vector cannot fail.
#[verifier::external_body]
fn json_pairs(pairs: &Vec<(String, String)>) -> (r: Option<Vec<u8>>)
    ensures
        r is Some,
        r matches Some(b) ==> b@ == json_pairs_of(view_str_pairs(pairs@)),
{
    serde_json::to_vec(pairs).ok()
}

/// A request under assembly: the session configuration was copied in at
/// creation, so later configuration changes do not affect it.
#[derive(Debug)]
pub struct ReplayRequestBuilder {
    data: RequestData,
}

impl View for ReplayRequestBuilder {
    type V = RequestV;

    closed spec fn view(&self) -> RequestV {
        self.data@
    }
}

impl ReplayRequestBuilder {
    /// The builder holds a sendable request: target present, URL canonical.
    pub open spec fn wf(&self) -> bool {
        crate::session::sendable(self@)
    }

    /// Adds one header, after those already present.
    pub fn header(self, name: Vec<u8>, value: Vec<u8>) -> (r: Self)
        ensures
            r@ == (RequestV { headers: self@.headers.push((name@, value@)), ..self@ }),
            self.wf() ==> r.wf(),
    {
        let mut data = self.data;
        data.headers.append(name, value);
        let r = ReplayRequestBuilder { data };
        proof {
            assert(r@ =~= RequestV { headers: self@.headers.push((name@, value@)), ..self@ });
        }
        r
    }

    /// Adds all the given headers, after those already present.
    pub fn headers(self, hs: &Headers) -> (r: Self)
        ensures
            r@ == (RequestV { headers: self@.headers + hs@, ..self@ }),
            self.wf() ==> r.wf(),
    {
        let mut data = self.data;
        data.headers.extend(hs);
        let r = ReplayRequestBuilder { data };
        proof {
            assert(r@ =~= RequestV { headers: self@.headers + hs@, ..self@ });
        }
        r
    }

    /// Sets the basic-authentication credentials.
    pub fn basic_auth(self, username: Vec<u8>, password: Option<Vec<u8>>) -> (r: Self)
        ensures
            r@ == (RequestV {
                basic_auth: Some(
                    crate::data::AuthV {
                        username: username@,
                        password: crate::data::view_opt_bytes(password),
                    },
                ),
                ..self@
            }),
            self.wf() ==> r.wf(),
    {
        let ghost uv = username@;
        let ghost pv = crate::data::view_opt_bytes(password);
        let mut data = self.data;
        data.basic_auth = Some(BasicAuth { username, password });
        let r = ReplayRequestBuilder { data };
        proof {
            assert(r@ =~= RequestV {
                basic_auth: Some(crate::data::AuthV { username: uv, password: pv }),
                ..self@
            });
        }
        r
    }

    /// Sets the body to exactly the given bytes.
    pub fn body(self, body: Vec<u8>) -> (r: Self)
        ensures
            r@ == (RequestV { body: Some(body@), ..self@ }),
            self.wf() ==> r.wf(),
    {
        let ghost bv = body@;
        let mut data = self.data;
        data.body = Some(body);
        let r = ReplayRequestBuilder { data };
        proof {
            assert(r@ =~= RequestV { body: Some(bv), ..self@ });
        }
        r
    }

    /// Encodes the pairs as a form body: the body becomes their
    /// `application/x-www-form-urlencoded` form and a matching
    /// `Content-Type` header is added.
    pub fn form(self, pairs: &Vec<(String, String)>) -> (r: Self)
        ensures
            r@ == (RequestV {
                headers: self@.headers.push((ct_name(), ct_form())),
                body: Some(urlencoded_of(view_str_pairs(pairs@))),
                ..self@
            }),
            self.wf() ==> r.wf(),
    {
        let encoded = urlencode_pairs(pairs).unwrap();
        let name = ct_name_vec();
        let value = ct_form_vec();
        self.header(name, value).body(encoded)
    }

    /// Encodes the pairs as a JSON body: the body becomes their JSON form
    /// and a matching `Content-Type` header is added.
    pub fn json(self, pairs: &Vec<(String, String)>) -> (r: Self)
        ensures
            r@ == (RequestV {
                headers: self@.headers.push((ct_name(), ct_json())),
                body: Some(json_pairs_of(view_str_pairs(pairs@))),
                ..self@
            }),
            self.wf() ==> r.wf(),
    {
        let encoded = json_pairs(pairs).unwrap();
        let name = ct_name_vec();
        let value = ct_json_vec();
        self.header(name, value).body(encoded)
    }

    /// Hands the assembled request to the session: replayed, sent live, or
    /// failed, exactly as `ReplayClient::dispatch` decides.
    pub fn send(self, client: &mut ReplayClient) -> (r: Result<SendOutcome, ReplayError>)
        requires
            old(client).wf(),
            self.wf(),
            !(old(client)@.state is AwaitingLive),
        ensures
            final(client).wf(),
            final(client)@.mode == old(client)@.mode && final(client)@.policy == old(
                client,
            )@.policy && final(client)@.config == old(client)@.config && final(client)@.path
                == old(client)@.path && final(client)@.cassette == old(client)@.cassette,
            old(client)@.state is Closed ==> r == Err::<SendOutcome, ReplayError>(
                ReplayError::SessionClosed,
            ) && final(client)@ == old(client)@,
            old(client)@.state is Idle && old(client)@.mode is Record ==> (r matches Ok(
                SendOutcome::NeedsLive,
            ) && final(client)@.state is AwaitingLive && final(client)@.pending == Some(self@)
                && final(client)@.consumed == old(client)@.consumed),
            old(client)@.state is Idle && old(client)@.mode is Replay ==> {
                let (outcome, consumed2) = crate::matcher::replay_step(
                    old(client)@.cassette,
                    old(client)@.consumed,
                    old(client)@.policy,
                    self@,
                );
                &&& final(client)@.consumed == consumed2
                &&& match outcome {
                    crate::matcher::StepOutcome::Replayed(rv) => r matches Ok(
                        SendOutcome::Replayed(resp),
                    ) && resp@ == rv && final(client)@.state is Idle && final(client)@.pending
                        is None,
                    crate::matcher::StepOutcome::NeedsLive => r matches Ok(SendOutcome::NeedsLive)
                        && final(client)@.state is AwaitingLive && final(client)@.pending == Some(
                        self@,
                    ),
                    crate::matcher::StepOutcome::Failed(e) => r == Err::<
                        SendOutcome,
                        ReplayError,
                    >(e) && final(client)@.state is Idle && final(client)@.pending is None,
                }
            },
    {
        client.dispatch(self.data)
    }
}

/// The `Content-Type` header name as bytes.
fn ct_name_vec() -> (v: Vec<u8>)
    ensures
        v@ == ct_name(),
{
    let mut v: Vec<u8> = Vec::new();
    v.push(67);
    v.push(111);
    v.push(110);
    v.push(116);
    v.push(101);
    v.push(110);
    v.push(116);
    v.push(45);
    v.push(84);
    v.push(121);
    v.push(112);
    v.push(101);
    proof {
        assert(v@ =~= ct_name());
    }
    v
}

/// The `application/x-www-form-urlencoded` media type as bytes.
fn ct_form_vec() -> (v: Vec<u8>)
    ensures
        v@ == ct_form(),
{
    let mut v: Vec<u8> = Vec::new();
    v.push(97);
    v.push(112);
    v.push(112);
    v.push(108);
    v.push(105);
    v.push(99);
    v.push(97);
    v.push(116);
    v.push(105);
    v.push(111);
    v.push(110);
    v.push(47);
    v.push(120);
    v.push(45);
    v.push(119);
    v.push(119);
    v.push(119);
    v.push(45);
    v.push(102);
    v.push(111);
    v.push(114);
    v.push(109);
    v.push(45);
    v.push(117);
    v.push(114);
    v.push(108);
    v.push(101);
    v.push(110);
    v.push(99);
    v.push(111);
    v.push(100);
    v.push(101);
    v.push(100);
    proof {
        assert(v@ =~= ct_form());
    }
    v
}

/// The `application/json` media type as bytes.
fn ct_json_vec() -> (v: Vec<u8>)
    ensures
        v@ == ct_json(),
{
    let mut v: Vec<u8> = Vec::new();
    v.push(97);
    v.push(112);
    v.push(112);
    v.push(108);
    v.push(105);
    v.push(99);
    v.push(97);
    v.push(116);
    v.push(105);
    v.push(111);
    v.push(110);
    v.push(47);
    v.push(106);
    v.push(115);
    v.push(111);
    v.push(110);
    proof {
        assert(v@ =~= ct_json());
    }
    v
}

fn method_vec(which: u8) -> (v: Vec<u8>)
    requires
        which < 6,
    ensures
        which == 0 ==> v@ == method_get(),
        which == 1 ==> v@ == method_post(),
        which == 2 ==> v@ == method_put(),
        which == 3 ==> v@ == method_patch(),
        which == 4 ==> v@ == method_delete(),
        which == 5 ==> v@ == method_head(),
{
    let mut v: Vec<u8> = Vec::new();
    if which == 0 {
        v.push(71);
        v.push(69);
        v.push(84);
        proof {
            assert(v@ =~= method_get());
        }
    } else if which == 1 {
        v.push(80);
        v.push(79);
        v.push(83);
        v.push(84);
        proof {
            assert(v@ =~= method_post());
        }
    } else if which == 2 {
        v.push(80);
        v.push(85);
        v.push(84);
        proof {
            assert(v@ =~= method_put());
        }
    } else if which == 3 {
        v.push(80);
        v.push(65);
        v.push(84);
        v.push(67);
        v.push(72);
        proof {
            assert(v@ =~= method_patch());
        }
    } else if which == 4 {
        v.push(68);
        v.push(69);
        v.push(76);
        v.push(69);
        v.push(84);
        v.push(69);
        proof {
            assert(v@ =~= method_delete());
        }
    } else {
        v.push(72);
        v.push(69);
        v.push(65);
        v.push(68);
        proof {
            assert(v@ =~= method_head());
        }
    }
    v
}

impl ReplayClient {
    /// Begins a request: the URL is parsed (and its query put in canonical
    /// order), the transport knobs are copied from the current session
    /// configuration. A malformed URL is rejected at once.
    pub fn request(&self, method: Vec<u8>, url: &Vec<u8>) -> (r: Result<
        ReplayRequestBuilder,
        ReplayError,
    >)
        ensures
            match dec_url(url@) {
                Some(u) => r matches Ok(b) && b@ == (RequestV {
                    target: Some(TargetV { url: u, method: method@ }),
                    ..crate::data::seeded_request(self@.config)
                }) && b.wf(),
                None => r == Err::<ReplayRequestBuilder, ReplayError>(ReplayError::InvalidUrl),
            },
    {
        let parsed = match crate::urls::parse_url(url) {
            Err(e) => {
                return Err(e);
            },
            Ok(u) => u,
        };
        let ghost uv = parsed@;
        let ghost mv = method@;
        let mut data = RequestData::new_for_client(self.config());
        data.target = Some(RequestTarget::new(method, parsed));
        let b = ReplayRequestBuilder { data };
        proof {
            assert(b@ =~= RequestV {
                target: Some(TargetV { url: uv, method: mv }),
                ..crate::data::seeded_request(self@.config)
            });
        }
        Ok(b)
    }

    /// Begins a `GET` request.
    pub fn get(&self, url: &Vec<u8>) -> (r: Result<ReplayRequestBuilder, ReplayError>)
        ensures
            match dec_url(url@) {
                Some(u) => r matches Ok(b) && b@ == (RequestV {
                    target: Some(TargetV { url: u, method: method_get() }),
                    ..crate::data::seeded_request(self@.config)
                }) && b.wf(),
                None => r == Err::<ReplayRequestBuilder, ReplayError>(ReplayError::InvalidUrl),
            },
    {
        self.request(method_vec(0), url)
    }

    /// Begins a `POST` request.
    pub fn post(&self, url: &Vec<u8>) -> (r: Result<ReplayRequestBuilder, ReplayError>)
        ensures
            match dec_url(url@) {
                Some(u) => r matches Ok(b) && b@ == (RequestV {
                    target: Some(TargetV { url: u, method: method_post() }),
                    ..crate::data::seeded_request(self@.config)
                }) && b.wf(),
                None => r == Err::<ReplayRequestBuilder, ReplayError>(ReplayError::InvalidUrl),
            },
    {
        self.request(method_vec(1), url)
    }

    /// Begins a `PUT` request.
    pub fn put(&self, url: &Vec<u8>) -> (r: Result<ReplayRequestBuilder, ReplayError>)
        ensures
            match dec_url(url@) {
                Some(u) => r matches Ok(b) && b@ == (RequestV {
                    target: Some(TargetV { url: u, method: method_put() }),
                    ..crate::data::seeded_request(self@.config)
                }) && b.wf(),
                None => r == Err::<ReplayRequestBuilder, ReplayError>(ReplayError::InvalidUrl),
            },
    {
        self.request(method_vec(2), url)
    }

    /// Begins a `PATCH` request.
    pub fn patch(&self, url: &Vec<u8>) -> (r: Result<ReplayRequestBuilder, ReplayError>)
        ensures
            match dec_url(url@) {
                Some(u) => r matches Ok(b) && b@ == (RequestV {
                    target: Some(TargetV { url: u, method: method_patch() }),
                    ..crate::data::seeded_request(self@.config)
                }) && b.wf(),
                None => r == Err::<ReplayRequestBuilder, ReplayError>(ReplayError::InvalidUrl),
            },
    {
        self.request(method_vec(3), url)
    }

    /// Begins a `DELETE` request.
    pub fn delete(&self, url: &Vec<u8>) -> (r: Result<ReplayRequestBuilder, ReplayError>)
        ensures
            match dec_url(url@) {
                Some(u) => r matches Ok(b) && b@ == (RequestV {
                    target: Some(TargetV { url: u, method: method_delete() }),
                    ..crate::data::seeded_request(self@.config)
                }) && b.wf(),
                None => r == Err::<ReplayRequestBuilder, ReplayError>(ReplayError::InvalidUrl),
            },
    {
        self.request(method_vec(4), url)
    }

    /// Begins a `HEAD` request.
    pub fn head(&self, url: &Vec<u8>) -> (r: Result<ReplayRequestBuilder, ReplayError>)
        ensures
            match dec_url(url@) {
                Some(u) => r matches Ok(b) && b@ == (RequestV {
                    target: Some(TargetV { url: u, method: method_head() }),
                    ..crate::data::seeded_request(self@.config)
                }) && b.wf(),
                None => r == Err::<ReplayRequestBuilder, ReplayError>(ReplayError::InvalidUrl),
            },
    {
        self.request(method_vec(5), url)
    }
}

} // verus!
