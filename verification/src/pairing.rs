//! The pairing subsystem: owner of the rotating pairing secret, the inbound
//! escalation decision, and the reading of outbound handshake replies.
//!
//! The published secret admits at most one inbound attempt: every attempt,
//! whatever its outcome, replaces it with a fresh random value.

use vstd::prelude::*;
use crate::config::Config;
use crate::config::Peer;
use crate::config::PeerV;
use crate::config::peer_known;
use crate::config::spec_register;
use crate::identity::EndpointId;
use crate::identity::bytes_clone;
use crate::identity::bytes_eq;
use crate::pair::Pair;
use crate::pair::PairV;
use crate::ui::PairingResponse;

verus! {

/// Bytes in a pairing secret.
pub const SECRET_LEN: usize = 128;

/// Relies on `rand::random`: draws a value from the thread-local generator;
/// nothing is promised of the value.
pub assume_specification<T>[ rand::random::<T> ]() -> (r: T)
    where
        rand::distr::StandardUniform: rand::distr::Distribution<T>,
;

/// A fresh pairing secret: `SECRET_LEN` random bytes.
pub fn generate_secret() -> (r: Vec<u8>)
    ensures
        r@.len() == SECRET_LEN,
{
    let mut v: Vec<u8> = Vec::new();
    let mut i: usize = 0;
    while i < SECRET_LEN
        invariant
            v@.len() == i <= SECRET_LEN,
        decreases SECRET_LEN - i,
    {
        v.push(rand::random());
        i = i + 1;
    }
    v
}

/// The pairing subsystem's own state: the currently published secret, and
/// whether the UI's inbound-pair sink (held by the caller) is installed.
pub struct PairingState {
    pub active_secret: Vec<u8>,
    pub sink_installed: bool,
}

/// What the acceptor does with an inbound pairing request.
#[derive(PartialEq, Eq, Structural, Clone, Copy, Debug)]
pub enum InboundDecision {
    /// The peer is already paired: resolve the reaction to `Reject` at once.
    RejectKnown,
    /// Publish the request to the UI and await the user's reaction.
    Publish,
    /// No UI is subscribed: the reaction stays unanswered.
    Dropped,
}

impl PairingState {
    pub open spec fn wf(&self) -> bool {
        self.active_secret@.len() == SECRET_LEN
    }

    /// A subsystem holding a fresh random secret; no sink is installed yet.
    pub fn new() -> (r: Self)
        ensures
            r.wf(),
            !r.sink_installed,
    {
        PairingState { active_secret: generate_secret(), sink_installed: false }
    }

    /// Records that the UI has installed its inbound-pair sink; the secret is
    /// untouched.
    pub fn install_sink(&mut self)
        ensures
            final(self).sink_installed,
            final(self).active_secret == old(self).active_secret,
    {
        self.sink_installed = true;
    }

    /// Constant-time check of a presented secret against the published one:
    /// true exactly on equality.
    pub fn validate_secret(&self, presented: &Vec<u8>) -> (r: bool)
        ensures
            r == (presented@ == self.active_secret@),
    {
        bytes_eq(presented, &self.active_secret)
    }

    /// The currently published secret, for the out-of-band ticket.
    pub fn current_secret(&self) -> (r: Vec<u8>)
        ensures
            r@ == self.active_secret@,
    {
        bytes_clone(&self.active_secret)
    }

    /// Registers an inbound pairing attempt: decides what the acceptor does
    /// with it, and rotates the published secret whatever that decision is,
    /// so a secret admits at most one attempt. An already-known peer is
    /// rejected at once, before the UI is consulted; only an unknown peer's
    /// attempt depends on whether a sink is installed. Whenever the fresh
    /// draw differs from the old value, the secret published after the
    /// attempt differs from the one published before.
    pub fn incoming_pair_started(&mut self, is_known: bool, fresh: Vec<u8>) -> (r: InboundDecision)
        requires
            fresh@.len() == SECRET_LEN,
        ensures
            final(self).active_secret@ == fresh@,
            final(self).wf(),
            final(self).sink_installed == old(self).sink_installed,
            old(self).active_secret@ != fresh@ ==> final(self).active_secret@ != old(
                self,
            ).active_secret@,
            r == (if is_known {
                InboundDecision::RejectKnown
            } else if !old(self).sink_installed {
                InboundDecision::Dropped
            } else {
                InboundDecision::Publish
            }),
    {
        let has_sink = self.sink_installed;
        self.active_secret = fresh;
        if is_known {
            InboundDecision::RejectKnown
        } else if !has_sink {
            InboundDecision::Dropped
        } else {
            InboundDecision::Publish
        }
    }
}

/// Completes an accepted inbound pairing: registers the peer and reports
/// success, or leaves the configuration untouched and passes the failure on.
pub fn incoming_pair_completed(config: &mut Config, outcome: Result<Peer, String>) -> (r: Result<
    (),
    String,
>)
    ensures
        ({
            let pre = old(config)@;
            let post = final(config)@;
            match outcome {
                Ok(peer) => post.peers == spec_register(pre.peers, peer@) && post.key == pre.key
                    && post.name == pre.name && post.target_dir == pre.target_dir && r is Ok,
                Err(e) => post == pre && (r matches Err(e2) && e2@ == e@),
            }
        }),
{
    match outcome {
        Ok(peer) => {
            config.register_peer(peer);
            Ok(())
        },
        Err(e) => Err(e),
    }
}

/// The outbound short-circuit: pairing with an already-known peer resolves
/// `Success` without any traffic; only an unknown peer needs the handshake.
pub fn outbound_pair_shortcut(config: &Config, peer: &EndpointId) -> (r: Option<PairingResponse>)
    ensures
        r is Some <==> peer_known(config@.peers, peer@),
        r matches Some(resp) ==> resp is Success,
{
    if config.is_peer_known(peer) {
        Some(PairingResponse::Success)
    } else {
        None
    }
}

/// How the initiator reads the acceptor's reply to its `Helo`.
pub enum OutboundPairOutcome {
    /// `NiceToMeetYou`: pairing succeeded; the acceptor gave this name.
    Accepted { peer_name: String },
    /// `WrongPairingCode`: the other user judged the code wrong.
    CodeMismatch,
    /// `WrongSecret`: the presented secret was stale or wrong.
    SecretMismatch,
    /// `FuckOff`: the other user declined.
    Rejected,
    /// Any other message type.
    Invalid,
}

/// Classifies the one reply frame an initiator reads after sending `Helo`.
pub fn classify_pair_reply(msg: Pair) -> (r: OutboundPairOutcome)
    ensures
        match msg@ {
            PairV::NiceToMeetYou { friendly_name } => (
            r matches OutboundPairOutcome::Accepted { peer_name } && peer_name@ == friendly_name),
            PairV::WrongPairingCode => r is CodeMismatch,
            PairV::WrongSecret => r is SecretMismatch,
            PairV::FuckOff => r is Rejected,
            PairV::Helo { .. } => r is Invalid,
        },
{
    match msg {
        Pair::NiceToMeetYou { friendly_name } => OutboundPairOutcome::Accepted {
            peer_name: friendly_name,
        },
        Pair::WrongPairingCode => OutboundPairOutcome::CodeMismatch,
        Pair::WrongSecret => OutboundPairOutcome::SecretMismatch,
        Pair::FuckOff => OutboundPairOutcome::Rejected,
        Pair::Helo { .. } => OutboundPairOutcome::Invalid,
    }
}

/// Settles an outbound pairing from the handshake's outcome: a success
/// registers the peer under the name it gave; everything else leaves the
/// peer list untouched and reports the matching response.
pub fn resolve_outbound_pairing(config: &mut Config, id: EndpointId, outcome: OutboundPairOutcome)
    -> (r: PairingResponse)
    ensures
        ({
            let pre = old(config)@;
            let post = final(config)@;
            match outcome {
                OutboundPairOutcome::Accepted { peer_name } => post.peers == spec_register(
                    pre.peers,
                    (PeerV { name: peer_name@, id: id@ }),
                ) && post.key == pre.key && post.name == pre.name && post.target_dir
                    == pre.target_dir && r is Success,
                OutboundPairOutcome::CodeMismatch => post == pre && r is WrongCode,
                OutboundPairOutcome::SecretMismatch => post == pre && r is WrongSecret,
                OutboundPairOutcome::Rejected => post == pre && (
                r matches PairingResponse::Error(e) && e@ == "Peer rejected pairing"@),
                OutboundPairOutcome::Invalid => post == pre && (
                r matches PairingResponse::Error(e) && e@ == "Invalid msg type"@),
            }
        }),
{
    match outcome {
        OutboundPairOutcome::Accepted { peer_name } => {
            config.register_peer(Peer { name: peer_name, id });
            PairingResponse::Success
        },
        OutboundPairOutcome::CodeMismatch => PairingResponse::WrongCode,
        OutboundPairOutcome::SecretMismatch => PairingResponse::WrongSecret,
        OutboundPairOutcome::Rejected => PairingResponse::Error(
            String::from_str("Peer rejected pairing"),
        ),
        OutboundPairOutcome::Invalid => PairingResponse::Error(
            String::from_str("Invalid msg type"),
        ),
    }
}

} // verus!
