//! A record/replay engine for HTTP interactions.
//!
//! A session either records live request/response exchanges into a cassette
//! (an ordered sequence of interactions persisted to one file) or answers
//! requests from a previously recorded cassette instead of the network.
//! The data model, the cassette wire format, the request matcher and the
//! session state machine are verified; the HTTP transport and the file
//! system are left to the embedding program.

pub mod body;
pub mod builder;
pub mod bytes;
pub mod codec;
pub mod matcher;
pub mod session;
pub mod storage;
pub mod data;
pub mod urls;

use vstd::prelude::*;

verus! {

/// A session either performs live calls and records them, or replays
/// recorded interactions.
#[derive(Clone, Copy, Debug, PartialEq, Eq, Structural)]
pub enum ClientMode {
    Record,
    Replay,
}

} // verus!
