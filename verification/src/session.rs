//! The session controller: a state machine that, per request, either replays
//! a recorded interaction or asks the embedding program to perform a live
//! call, and records what came back.
//!
//! The session owns the cassette and its consumption state. The external
//! transport is not called from here: `dispatch` says when a live call is
//! needed, `complete_live` records its result, `fail_live` abandons it.

use vstd::prelude::*;
use vstd::pervasive::VecAdditionalExecFns;
use crate::data::{
    ClientData, HandleChangedRequest, InteractionV, RedirectPolicy, ReplayData, ReplayError,
    RequestData, RequestV, ResponseData,
};
use crate::matcher::{
    count_true, find_match, find_unconsumed, first_match_from, first_unconsumed_from, replay_step,
    request_diff, StepOutcome,
};
use crate::storage::ReplayFile;
use crate::ClientMode;

verus! {

/// Where a session stands: between calls, waiting for the embedding program
/// to finish a live call, or closed.
#[derive(Clone, Copy, Debug, PartialEq, Eq, Structural)]
pub enum SessionState {
    Idle,
    AwaitingLive,
    Closed,
}

/// What `dispatch` decided: a stored response answers the request, or the
/// embedding program must perform the call live.
#[derive(Debug)]
pub enum SendOutcome {
    Replayed(ResponseData),
    NeedsLive,
}

/// The view of a session.
#[verifier::ext_equal]
pub struct ClientV {
    pub mode: ClientMode,
    pub policy: HandleChangedRequest,
    pub config: ClientData,
    pub path: Seq<u8>,
    pub cassette: Seq<InteractionV>,
    pub consumed: Seq<bool>,
    pub state: SessionState,
    pub pending: Option<RequestV>,
}

/// A recording or replaying session over one cassette.
pub struct ReplayClient {
    mode: ClientMode,
    policy: HandleChangedRequest,
    data: ClientData,
    file: ReplayFile,
    cassette: Vec<ReplayData>,
    consumed: Vec<bool>,
    state: SessionState,
    pending: Option<RequestData>,
}

impl View for ReplayClient {
    type V = ClientV;

    closed spec fn view(&self) -> ClientV {
        ClientV {
            mode: self.mode,
            policy: self.policy,
            config: self.data,
            path: self.file@,
            cassette: crate::codec::view_inters(self.cassette@),
            consumed: self.consumed@,
            state: self.state,
            pending: match self.pending {
                Some(p) => Some(p@),
                None => None,
            },
        }
    }
}

/// A request that can be matched or sent: its target is present and its URL
/// is canonical.
pub open spec fn sendable(r: RequestV) -> bool {
    match r.target {
        Some(t) => crate::urls::wf_url(t.url),
        None => false,
    }
}

impl ReplayClient {
    /// The session invariant: consumption marks line up with the cassette,
    /// a pending request exists exactly while a live call is awaited, and
    /// everything stored is well-formed.
    pub open spec fn wf(&self) -> bool {
        &&& self@.consumed.len() == self@.cassette.len()
        &&& (self@.state is AwaitingLive <==> self@.pending is Some)
        &&& crate::codec::wf_cassette(self@.cassette)
        &&& match self@.pending {
            Some(p) => sendable(p),
            None => true,
        }
    }

    /// A session over an empty cassette.
    pub fn new(mode: ClientMode, policy: HandleChangedRequest, file: ReplayFile) -> (r: Self)
        ensures
            r.wf(),
            r@ == (ClientV {
                mode,
                policy,
                config: ClientData { gzip: true, redirect: RedirectPolicy::Limit(10usize), timeout: None },
                path: file@,
                cassette: Seq::empty(),
                consumed: Seq::empty(),
                state: SessionState::Idle,
                pending: None,
            }),
    {
        let r = ReplayClient {
            mode,
            policy,
            data: ClientData { gzip: true, redirect: RedirectPolicy::Limit(10), timeout: None },
            file,
            cassette: Vec::new(),
            consumed: Vec::new(),
            state: SessionState::Idle,
            pending: None,
        };
        proof {
            assert(crate::codec::view_inters(r.cassette@) =~= Seq::<InteractionV>::empty());
            assert(r@ =~= ClientV {
                mode,
                policy,
                config: ClientData { gzip: true, redirect: RedirectPolicy::Limit(10usize), timeout: None },
                path: r.file@,
                cassette: Seq::empty(),
                consumed: Seq::empty(),
                state: SessionState::Idle,
                pending: None,
            });
        }
        r
    }

    /// A session over a stored cassette. Fails with `CorruptCassette`
    /// exactly when the bytes do not parse.
    pub fn with_cassette_bytes(
        mode: ClientMode,
        policy: HandleChangedRequest,
        file: ReplayFile,
        bytes: &Vec<u8>,
    ) -> (r: Result<Self, ReplayError>)
        ensures
            match r {
                Ok(c) => c.wf() && crate::codec::dec_cassette(bytes@) == Some(c@.cassette)
                    && c@.mode == mode && c@.policy == policy && c@.state == SessionState::Idle
                    && c@.pending is None && c@.consumed =~= Seq::new(
                    c@.cassette.len(),
                    |i: int| false,
                ) && c@.config == (ClientData {
                    gzip: true,
                    redirect: RedirectPolicy::Limit(10usize),
                    timeout: None,
                }),
                Err(e) => e == ReplayError::CorruptCassette && crate::codec::dec_cassette(bytes@)
                    is None,
            },
    {
        let cassette = match crate::codec::decode_cassette(bytes) {
            Err(e) => {
                return Err(e);
            },
            Ok(c) => c,
        };
        let mut consumed: Vec<bool> = Vec::new();
        let mut i: usize = 0;
        while i < cassette.len()
            invariant
                i <= cassette@.len(),
                consumed@.len() == i,
                forall|j: int| 0 <= j < i ==> !(#[trigger] consumed@[j]),
            decreases cassette@.len() - i,
        {
            consumed.push(false);
            i += 1;
        }
        let r = ReplayClient {
            mode,
            policy,
            data: ClientData { gzip: true, redirect: RedirectPolicy::Limit(10), timeout: None },
            file,
            cassette,
            consumed,
            state: SessionState::Idle,
            pending: None,
        };
        proof {
            assert(r@.consumed =~= Seq::new(r@.cassette.len(), |i: int| false));
        }
        Ok(r)
    }

    /// Turns automatic response decompression on or off for requests built
    /// from now on.
    pub fn gzip(&mut self, enable: bool)
        ensures
            final(self)@ == (ClientV {
                config: ClientData { gzip: enable, ..old(self)@.config },
                ..old(self)@
            }),
            old(self).wf() ==> final(self).wf(),
    {
        self.data.gzip = enable;
        proof {
            assert(final(self)@ =~= ClientV {
                config: ClientData { gzip: enable, ..old(self)@.config },
                ..old(self)@
            });
        }
    }

    /// Sets the redirect policy for requests built from now on.
    pub fn redirect(&mut self, policy: RedirectPolicy)
        ensures
            final(self)@ == (ClientV {
                config: ClientData { redirect: policy, ..old(self)@.config },
                ..old(self)@
            }),
            old(self).wf() ==> final(self).wf(),
    {
        self.data.redirect = policy;
        proof {
            assert(final(self)@ =~= ClientV {
                config: ClientData { redirect: policy, ..old(self)@.config },
                ..old(self)@
            });
        }
    }

    /// Sets the timeout, in seconds, for requests built from now on.
    pub fn timeout(&mut self, seconds: u64)
        ensures
            final(self)@ == (ClientV {
                config: ClientData { timeout: Some(seconds), ..old(self)@.config },
                ..old(self)@
            }),
            old(self).wf() ==> final(self).wf(),
    {
        self.data.timeout = Some(seconds);
        proof {
            assert(final(self)@ =~= ClientV {
                config: ClientData { timeout: Some(seconds), ..old(self)@.config },
                ..old(self)@
            });
        }
    }

    /// The request awaiting a live call, if any: what the embedding program
    /// must now perform against the transport.
    pub fn pending_request(&self) -> (r: Option<&RequestData>)
        ensures
            match r {
                Some(p) => self@.pending == Some(p@),
                None => self@.pending is None,
            },
    {
        match &self.pending {
            Some(p) => Some(p),
            None => None,
        }
    }

    /// The handle of the cassette file this session persists to.
    pub fn file(&self) -> (r: &ReplayFile)
        ensures
            r@ == self@.path,
    {
        &self.file
    }

    /// The session configuration that seeds new requests.
    pub fn config(&self) -> (r: &ClientData)
        ensures
            *r == self@.config,
    {
        &self.data
    }

    /// How many interactions the cassette holds.
    pub fn interaction_count(&self) -> (n: usize)
        ensures
            n == self@.cassette.len(),
    {
        self.cassette.len()
    }

    /// How many interactions this session has consumed by replaying them.
    pub fn consumed_count(&self) -> (n: usize)
        ensures
            n == count_true(self@.consumed),
    {
        let mut n: usize = 0;
        let mut i: usize = 0;
        while i < self.consumed.len()
            invariant
                i <= self.consumed@.len(),
                n == count_true(self.consumed@.subrange(0, i as int)),
                n <= i,
            decreases self.consumed@.len() - i,
        {
            proof {
                assert(self.consumed@.subrange(0, i + 1).drop_last() =~= self.consumed@.subrange(
                    0,
                    i as int,
                ));
                assert(self.consumed@.subrange(0, i + 1).last() == self.consumed@[i as int]);
            }
            if self.consumed[i] {
                n += 1;
            }
            i += 1;
        }
        proof {
            assert(self.consumed@.subrange(0, self.consumed@.len() as int) =~= self.consumed@);
        }
        n
    }

    /// Decides the current call. A match is answered from the cassette and
    /// consumed; a mismatch or exhaustion is handled by the reconciliation
    /// policy; in `Record` mode every call goes live. `NeedsLive` means the
    /// embedding program must perform the call and report back through
    /// `complete_live` or `fail_live`.
    pub fn dispatch(&mut self, req: RequestData) -> (r: Result<SendOutcome, ReplayError>)
        requires
            old(self).wf(),
            sendable(req@),
            !(old(self)@.state is AwaitingLive),
        ensures
            final(self).wf(),
            final(self)@.mode == old(self)@.mode && final(self)@.policy == old(self)@.policy
                && final(self)@.config == old(self)@.config && final(self)@.path == old(self)@.path && final(self)@.cassette == old(self)@.cassette,
            old(self)@.state is Closed ==> r == Err::<SendOutcome, ReplayError>(
                ReplayError::SessionClosed,
            ) && final(self)@ == old(self)@,
            old(self)@.state is Idle && old(self)@.mode is Record ==> (r matches Ok(
                SendOutcome::NeedsLive,
            ) && final(self)@.state is AwaitingLive && final(self)@.pending == Some(req@)
                && final(self)@.consumed == old(self)@.consumed),
            old(self)@.state is Idle && old(self)@.mode is Replay ==> {
                let (outcome, consumed2) = replay_step(
                    old(self)@.cassette,
                    old(self)@.consumed,
                    old(self)@.policy,
                    req@,
                );
                &&& final(self)@.consumed == consumed2
                &&& match outcome {
                    StepOutcome::Replayed(rv) => r matches Ok(SendOutcome::Replayed(resp))
                        && resp@ == rv && final(self)@.state is Idle && final(self)@.pending
                        is None,
                    StepOutcome::NeedsLive => r matches Ok(SendOutcome::NeedsLive) && final(self)@.state is AwaitingLive && final(self)@.pending == Some(req@),
                    StepOutcome::Failed(e) => r == Err::<SendOutcome, ReplayError>(e) && final(self)@.state is Idle && final(self)@.pending is None,
                }
            },
    {
        match self.state {
            SessionState::Closed => Err(ReplayError::SessionClosed),
            // Excluded by the caller's obligations: no request is dispatched
            // while a live call is outstanding.
            SessionState::AwaitingLive => Err(ReplayError::SessionClosed),
            SessionState::Idle => {
                match self.mode {
                    ClientMode::Record => {
                        self.pending = Some(req);
                        self.state = SessionState::AwaitingLive;
                        Ok(SendOutcome::NeedsLive)
                    },
                    ClientMode::Replay => {
                        match find_match(&self.cassette, &self.consumed, &req) {
                            Some(i) => {
                                let resp = self.cassette[i].response.duplicate();
                                self.consumed.set(i, true);
                                proof {
                                    assert(self@.cassette[i as int] == self.cassette@[i as int]@);
                                }
                                Ok(SendOutcome::Replayed(resp))
                            },
                            None => {
                                match find_unconsumed(&self.consumed) {
                                    Some(k) => {
                                        match self.policy {
                                            HandleChangedRequest::Ignore => {
                                                proof {
                                                    assert(self@.cassette[k as int]
                                                        == self.cassette@[k as int]@);
                                                }
                                                let resp = self.cassette[k].response.duplicate();
                                                Ok(SendOutcome::Replayed(resp))
                                            },
                                            HandleChangedRequest::Panic => {
                                                proof {
                                                    assert(self@.cassette[k as int]
                                                        == self.cassette@[k as int]@);
                                                }
                                                let d = request_diff(
                                                    &req,
                                                    &self.cassette[k].request,
                                                );
                                                Err(ReplayError::ReplayMismatch(d))
                                            },
                                            HandleChangedRequest::Record => {
                                                self.pending = Some(req);
                                                self.state = SessionState::AwaitingLive;
                                                Ok(SendOutcome::NeedsLive)
                                            },
                                        }
                                    },
                                    None => {
                                        match self.policy {
                                            HandleChangedRequest::Record => {
                                                self.pending = Some(req);
                                                self.state = SessionState::AwaitingLive;
                                                Ok(SendOutcome::NeedsLive)
                                            },
                                            _ => Err(ReplayError::ReplayExhausted),
                                        }
                                    },
                                }
                            },
                        }
                    },
                }
            },
        }
    }

    /// Records the result of the live call that `dispatch` asked for: the
    /// fresh interaction is appended, and a mismatched recorded interaction
    /// counts as dealt with.
    pub fn complete_live(&mut self, resp: ResponseData)
        requires
            old(self).wf(),
            old(self)@.state is AwaitingLive,
            crate::urls::wf_url(resp@.url),
        ensures
            final(self).wf(),
            final(self)@.mode == old(self)@.mode && final(self)@.policy == old(self)@.policy
                && final(self)@.config == old(self)@.config && final(self)@.path == old(self)@.path,
            final(self)@.state is Idle && final(self)@.pending is None,
            final(self)@.cassette == old(self)@.cassette.push(
                InteractionV {
                    request: old(self)@.pending.unwrap(),
                    response: resp@,
                },
            ),
            final(self)@.consumed == (if old(self)@.mode is Replay && first_match_from(
                old(self)@.cassette,
                old(self)@.consumed,
                old(self)@.pending.unwrap(),
                0,
            ) is None {
                match first_unconsumed_from(old(self)@.consumed, 0) {
                    Some(k) => old(self)@.consumed.update(k, true).push(false),
                    None => old(self)@.consumed.push(false),
                }
            } else {
                old(self)@.consumed.push(false)
            }),
    {
        let req = self.pending.take().unwrap();
        match self.mode {
            ClientMode::Replay => {
                match find_match(&self.cassette, &self.consumed, &req) {
                    Some(_) => {},
                    None => {
                        match find_unconsumed(&self.consumed) {
                            Some(k) => {
                                self.consumed.set(k, true);
                            },
                            None => {},
                        }
                    },
                }
            },
            ClientMode::Record => {},
        }
        let ghost reqv = req@;
        let ghost respv = resp@;
        self.cassette.push(ReplayData { request: req, response: resp });
        self.consumed.push(false);
        self.state = SessionState::Idle;
        proof {
            assert(self@.cassette =~= old(self)@.cassette.push(
                InteractionV { request: reqv, response: respv },
            ));
            assert(crate::codec::wf_cassette(self@.cassette)) by {
                assert forall|k: int| 0 <= k < self@.cassette.len() implies crate::codec::wf_interaction(
                    #[trigger] self@.cassette[k],
                ) by {
                    if k < old(self)@.cassette.len() {
                        assert(self@.cassette[k] == old(self)@.cassette[k]);
                    }
                }
            }
        }
    }

    /// Abandons the live call that `dispatch` asked for: nothing is
    /// recorded, as failed calls never are.
    pub fn fail_live(&mut self)
        requires
            old(self).wf(),
            old(self)@.state is AwaitingLive,
        ensures
            final(self).wf(),
            final(self)@ == (ClientV {
                state: SessionState::Idle,
                pending: None,
                ..old(self)@
            }),
    {
        self.pending = None;
        self.state = SessionState::Idle;
        proof {
            assert(final(self)@ =~= ClientV {
                state: SessionState::Idle,
                pending: None,
                ..old(self)@
            });
        }
    }

    /// Closes the session and hands back the full cassette in its wire form
    /// for the embedding program to persist atomically. Closing an already
    /// closed session returns the same bytes again.
    pub fn close(&mut self) -> (r: Vec<u8>)
        requires
            old(self).wf(),
            !(old(self)@.state is AwaitingLive),
        ensures
            final(self).wf(),
            final(self)@ == (ClientV { state: SessionState::Closed, ..old(self)@ }),
            r@ == crate::codec::enc_cassette(old(self)@.cassette),
    {
        self.state = SessionState::Closed;
        let r = crate::codec::encode_cassette(&self.cassette);
        proof {
            assert(final(self)@ =~= ClientV { state: SessionState::Closed, ..old(self)@ });
        }
        r
    }
}

} // verus!
