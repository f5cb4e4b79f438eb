//! What the core reports to the UI: pairing requests and outcomes, inbound
//! and outbound file transfer events.

use vstd::prelude::*;
use crate::promise::Promise;
use crate::promise::UIResolver;

verus! {

/// The user's decision on an inbound pairing request.
#[derive(PartialEq, Eq, Structural, Clone, Copy, Debug)]
pub enum UIPairReaction {
    Accept,
    Reject,
    WrongPairingCode,
}

/// The outcome of an outbound pairing, as resolved on its promise.
pub enum PairingResponse {
    Success,
    WrongCode,
    WrongSecret,
    Error(String),
}

/// Progress of an outbound transfer, as emitted on its sink.
pub enum OutboundFileStatus {
    Progress { offset: u64, size: u64 },
    Done,
    Error(String),
}

/// The state of an inbound transfer, inside an event.
pub enum InboundFileStatus {
    Progress { offset: u64, size: u64 },
    Done { path: String, name: String },
    Error(String),
}

/// One inbound transfer event, with peer and file names resolved for
/// display.
pub struct InboundFileEvent {
    pub peer: String,
    pub peer_name: String,
    pub file_name: String,
    pub event: InboundFileStatus,
}

/// An inbound pairing request published to the UI: who asks, under which
/// code, plus the resolver for the user's reaction and the promise of the
/// final outcome.
pub struct InboundPair {
    pub peer: String,
    pub friendly_name: String,
    pub pairing_code: [u8; 6],
    pub reaction: UIResolver<UIPairReaction>,
    pub outcome: Promise<Result<(), String>>,
}

impl InboundPair {
    /// Answers the request. Each request is answered at most once.
    pub fn react(&mut self, reaction: UIPairReaction)
        requires
            old(self).reaction.pending(),
        ensures
            !final(self).reaction.pending(),
    {
        self.reaction.resolve(reaction);
    }

    /// Waits for the overall outcome of the pairing.
    pub fn result(self) -> Option<Result<(), String>> {
        self.outcome.wait()
    }
}

} // verus!
