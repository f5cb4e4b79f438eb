//! The pairing wire protocol: message set and binary codec.
//!
//! Frames carry one message each; a message is a tag byte followed by its
//! fields (strings and byte arrays length-prefixed, the 6-byte pairing code
//! raw). `decode` accepts exactly the encodings that `encode` emits.

use vstd::prelude::*;
use crate::wire::enc_bytes;
use crate::wire::enc_str;
use crate::wire::lemma_bytes_prefix_unique;
use crate::wire::lemma_starts_with_cons;
use crate::wire::lemma_starts_with_join;
use crate::wire::lemma_starts_with_self;
use crate::wire::lemma_starts_with_split;
use crate::wire::read_bytes;
use crate::wire::read_fixed;
use crate::wire::read_str;
use crate::wire::starts_with_at;
use crate::wire::write_bytes;
use crate::wire::write_str;

verus! {

/// Identifier this protocol is negotiated under.
pub fn pair_alpn() -> (r: &'static str)
    ensures
        r@ == "teleport/pair/0"@,
{
    "teleport/pair/0"
}

/// Largest frame a pairing stream accepts.
pub const PAIR_MAX_SIZE: usize = 4096;

/// Length of the pairing code both users compare visually.
pub const PAIRING_CODE_LEN: usize = 6;

/// A message of the pairing handshake.
pub enum Pair {
    /// Initiator's opening: its name, the shared code, and proof of the
    /// published secret.
    Helo { friendly_name: String, pairing_code: [u8; 6], secret: Vec<u8> },
    /// Acceptor's user rejected the request.
    FuckOff,
    /// Acceptor accepted; carries the acceptor's name.
    NiceToMeetYou { friendly_name: String },
    /// Acceptor's user judged the code wrong.
    WrongPairingCode,
    /// The presented secret is not the published one.
    WrongSecret,
}

/// The mathematical shape of a pairing message.
pub enum PairV {
    Helo { friendly_name: Seq<char>, pairing_code: Seq<u8>, secret: Seq<u8> },
    FuckOff,
    NiceToMeetYou { friendly_name: Seq<char> },
    WrongPairingCode,
    WrongSecret,
}

impl View for Pair {
    type V = PairV;

    open spec fn view(&self) -> PairV {
        match self {
            Pair::Helo { friendly_name, pairing_code, secret } => PairV::Helo {
                friendly_name: friendly_name@,
                pairing_code: pairing_code@,
                secret: secret@,
            },
            Pair::FuckOff => PairV::FuckOff,
            Pair::NiceToMeetYou { friendly_name } => PairV::NiceToMeetYou {
                friendly_name: friendly_name@,
            },
            Pair::WrongPairingCode => PairV::WrongPairingCode,
            Pair::WrongSecret => PairV::WrongSecret,
        }
    }
}

/// Structural bounds every real message meets: a 6-byte code, and fields
/// whose encodings carry a `u64` length.
pub open spec fn wf_pair(m: PairV) -> bool {
    match m {
        PairV::Helo { friendly_name, pairing_code, secret } => pairing_code.len() == 6
            && vstd::utf8::encode_utf8(friendly_name).len() <= u64::MAX && secret.len()
            <= u64::MAX,
        PairV::NiceToMeetYou { friendly_name } => vstd::utf8::encode_utf8(friendly_name).len()
            <= u64::MAX,
        _ => true,
    }
}

/// The tag byte that opens each variant's encoding.
pub open spec fn pair_tag(m: PairV) -> u8 {
    match m {
        PairV::Helo { .. } => 0u8,
        PairV::FuckOff => 1u8,
        PairV::NiceToMeetYou { .. } => 2u8,
        PairV::WrongPairingCode => 3u8,
        PairV::WrongSecret => 4u8,
    }
}

/// The byte encoding of a pairing message.
pub open spec fn enc_pair(m: PairV) -> Seq<u8> {
    match m {
        PairV::Helo { friendly_name, pairing_code, secret } => seq![0u8] + enc_str(friendly_name)
            + pairing_code + enc_bytes(secret),
        PairV::FuckOff => seq![1u8],
        PairV::NiceToMeetYou { friendly_name } => seq![2u8] + enc_str(friendly_name),
        PairV::WrongPairingCode => seq![3u8],
        PairV::WrongSecret => seq![4u8],
    }
}

proof fn lemma_pair_tag(v: PairV)
    ensures
        enc_pair(v).len() >= 1,
        enc_pair(v)[0] == pair_tag(v),
{
    match v {
        PairV::Helo { friendly_name, pairing_code, secret } => {
            assert(enc_pair(v)[0] == 0u8);
        },
        PairV::NiceToMeetYou { friendly_name } => {
            assert(enc_pair(v)[0] == 2u8);
        },
        _ => {},
    }
}

/// Where each part of an encoded `Helo` sits inside a buffer equal to it.
proof fn lemma_helo_parts(bv: Seq<u8>, name: Seq<char>, code: Seq<u8>, secret: Seq<u8>)
    requires
        bv == enc_pair(PairV::Helo { friendly_name: name, pairing_code: code, secret }),
    ensures
        bv.len() == 1 + enc_str(name).len() + code.len() + enc_bytes(secret).len(),
        bv[0] == 0,
        starts_with_at(bv, 1, enc_str(name)),
        starts_with_at(bv, 1 + enc_str(name).len() as int, code),
        starts_with_at(bv, 1 + enc_str(name).len() + code.len() as int, enc_bytes(secret)),
{
    let tail = enc_str(name) + (code + enc_bytes(secret));
    assert(bv =~= seq![0u8] + tail);
    lemma_starts_with_self(bv);
    lemma_starts_with_cons(bv, 0, 0u8, tail);
    lemma_starts_with_split(bv, 1, enc_str(name), code + enc_bytes(secret));
    lemma_starts_with_split(bv, 1 + enc_str(name).len() as int, code, enc_bytes(secret));
}

impl Pair {
    /// Serializes the message for one frame.
    pub fn encode(&self) -> (r: Vec<u8>)
        ensures
            r@ == enc_pair(self@),
    {
        let mut out: Vec<u8> = Vec::new();
        match self {
            Pair::Helo { friendly_name, pairing_code, secret } => {
                out.push(0u8);
                proof {
                    assert(out@ =~= seq![0u8]);
                }
                write_str(&mut out, friendly_name);
                let ghost mid = out@;
                let mut i: usize = 0;
                while i < 6
                    invariant
                        i <= 6,
                        out@ =~= mid + pairing_code@.subrange(0, i as int),
                    decreases 6 - i,
                {
                    out.push(pairing_code[i]);
                    proof {
                        assert(pairing_code@.subrange(0, i + 1) =~= pairing_code@.subrange(
                            0,
                            i as int,
                        ) + seq![pairing_code@[i as int]]);
                    }
                    i = i + 1;
                }
                proof {
                    assert(pairing_code@.subrange(0, 6) =~= pairing_code@);
                }
                write_bytes(&mut out, secret);
                proof {
                    assert(out@ =~= enc_pair(self@));
                }
            },
            Pair::FuckOff => {
                out.push(1u8);
                proof {
                    assert(out@ =~= seq![1u8]);
                }
            },
            Pair::NiceToMeetYou { friendly_name } => {
                out.push(2u8);
                proof {
                    assert(out@ =~= seq![2u8]);
                }
                write_str(&mut out, friendly_name);
            },
            Pair::WrongPairingCode => {
                out.push(3u8);
                proof {
                    assert(out@ =~= seq![3u8]);
                }
            },
            Pair::WrongSecret => {
                out.push(4u8);
                proof {
                    assert(out@ =~= seq![4u8]);
                }
            },
        }
        out
    }

    /// Parses one frame. Returns the message whose encoding is exactly the
    /// buffer, and `None` when the buffer encodes no message.
    pub fn decode(b: &Vec<u8>) -> (r: Option<Pair>)
        ensures
            match r {
                Some(m) => wf_pair(m@) && b@ == enc_pair(m@),
                None => forall|v: PairV| wf_pair(v) ==> b@ != enc_pair(v),
            },
    {
        if b.len() == 0 {
            proof {
                assert forall|v: PairV| wf_pair(v) implies b@ != enc_pair(v) by {
                    lemma_pair_tag(v);
                }
            }
            return None;
        }
        let tag = b[0];
        if tag == 0 {
            Self::decode_helo(b)
        } else if tag == 2 {
            Self::decode_nice_to_meet_you(b)
        } else if b.len() == 1 && tag == 1 {
            proof {
                assert(b@ =~= seq![1u8]);
            }
            Some(Pair::FuckOff)
        } else if b.len() == 1 && tag == 3 {
            proof {
                assert(b@ =~= seq![3u8]);
            }
            Some(Pair::WrongPairingCode)
        } else if b.len() == 1 && tag == 4 {
            proof {
                assert(b@ =~= seq![4u8]);
            }
            Some(Pair::WrongSecret)
        } else {
            proof {
                assert forall|v: PairV| wf_pair(v) implies b@ != enc_pair(v) by {
                    if b@ == enc_pair(v) {
                        lemma_pair_tag(v);
                    }
                }
            }
            None
        }
    }

    /// Parses a frame already known to carry the `Helo` tag.
    fn decode_helo(b: &Vec<u8>) -> (r: Option<Pair>)
        requires
            b@.len() >= 1,
            b@[0] == 0,
        ensures
            match r {
                Some(m) => wf_pair(m@) && b@ == enc_pair(m@),
                None => forall|v: PairV| wf_pair(v) ==> b@ != enc_pair(v),
            },
    {
        match read_str(b, 1) {
            None => {
                proof {
                    assert forall|v: PairV| wf_pair(v) implies b@ != enc_pair(v) by {
                        if b@ == enc_pair(v) {
                            lemma_pair_tag(v);
                            match v {
                                PairV::Helo { friendly_name, pairing_code, secret } => {
                                    lemma_helo_parts(b@, friendly_name, pairing_code, secret);
                                },
                                _ => {},
                            }
                        }
                    }
                }
                None
            },
            Some((friendly_name, p1)) => {
                proof {
                    // Any `Helo` encoded here names the same string, so its
                    // code field starts exactly at `p1`.
                    assert forall|v: PairV| b@ == enc_pair(v) && v is Helo implies match v {
                        PairV::Helo { friendly_name: n2, pairing_code: c2, secret: s2 } => enc_str(
                            n2,
                        ).len() == p1 - 1 && starts_with_at(b@, p1 as int, c2) && starts_with_at(
                            b@,
                            p1 + c2.len(),
                            enc_bytes(s2),
                        ) && b@.len() == p1 + c2.len() + enc_bytes(s2).len(),
                        _ => true,
                    } by {
                        match v {
                            PairV::Helo { friendly_name: n2, pairing_code: c2, secret: s2 } => {
                                lemma_helo_parts(b@, n2, c2, s2);
                                lemma_bytes_prefix_unique(
                                    b@,
                                    1,
                                    vstd::utf8::encode_utf8(friendly_name@),
                                    vstd::utf8::encode_utf8(n2),
                                );
                            },
                            _ => {},
                        }
                    }
                }
                match read_fixed(b, p1, 6) {
                    None => {
                        proof {
                            assert forall|v: PairV| wf_pair(v) implies b@ != enc_pair(v) by {
                                if b@ == enc_pair(v) {
                                    lemma_pair_tag(v);
                                }
                            }
                        }
                        None
                    },
                    Some((code_bytes, p2)) => {
                        match read_bytes(b, p2) {
                            None => {
                                proof {
                                    assert forall|v: PairV| wf_pair(v) implies b@ != enc_pair(v)
                                        by {
                                        if b@ == enc_pair(v) {
                                            lemma_pair_tag(v);
                                        }
                                    }
                                }
                                None
                            },
                            Some((secret, p3)) => {
                                if p3 != b.len() {
                                    proof {
                                        assert forall|v: PairV| wf_pair(v) implies b@ != enc_pair(
                                            v,
                                        ) by {
                                            if b@ == enc_pair(v) {
                                                lemma_pair_tag(v);
                                                match v {
                                                    PairV::Helo {
                                                        friendly_name: n2,
                                                        pairing_code: c2,
                                                        secret: s2,
                                                    } => {
                                                        lemma_bytes_prefix_unique(
                                                            b@,
                                                            p2 as int,
                                                            secret@,
                                                            s2,
                                                        );
                                                    },
                                                    _ => {},
                                                }
                                            }
                                        }
                                    }
                                    None
                                } else {
                                    let pairing_code: [u8; 6] = [
                                        code_bytes[0],
                                        code_bytes[1],
                                        code_bytes[2],
                                        code_bytes[3],
                                        code_bytes[4],
                                        code_bytes[5],
                                    ];
                                    proof {
                                        assert(pairing_code@ =~= code_bytes@);
                                        lemma_starts_with_join(
                                            b@,
                                            1,
                                            enc_str(friendly_name@),
                                            pairing_code@,
                                        );
                                        lemma_starts_with_join(
                                            b@,
                                            1,
                                            enc_str(friendly_name@) + pairing_code@,
                                            enc_bytes(secret@),
                                        );
                                        let tail = enc_str(friendly_name@) + pairing_code@
                                            + enc_bytes(secret@);
                                        let whole = seq![0u8] + tail;
                                        assert(b@ =~= whole) by {
                                            assert(starts_with_at(b@, 1, tail));
                                            assert(b@.len() == whole.len());
                                            assert forall|i: int| 0 <= i < b@.len() implies b@[i]
                                                == whole[i] by {
                                                if i >= 1 {
                                                    assert(b@.subrange(
                                                        1,
                                                        1 + tail.len() as int,
                                                    )[i - 1] == tail[i - 1]);
                                                }
                                            }
                                        }
                                        assert(enc_pair(
                                            PairV::Helo {
                                                friendly_name: friendly_name@,
                                                pairing_code: pairing_code@,
                                                secret: secret@,
                                            },
                                        ) =~= whole);
                                    }
                                    Some(Pair::Helo { friendly_name, pairing_code, secret })
                                }
                            },
                        }
                    },
                }
            },
        }
    }

    /// Parses a frame already known to carry the `NiceToMeetYou` tag.
    fn decode_nice_to_meet_you(b: &Vec<u8>) -> (r: Option<Pair>)
        requires
            b@.len() >= 1,
            b@[0] == 2,
        ensures
            match r {
                Some(m) => wf_pair(m@) && b@ == enc_pair(m@),
                None => forall|v: PairV| wf_pair(v) ==> b@ != enc_pair(v),
            },
    {
        let parsed = read_str(b, 1);
        proof {
            assert forall|v: PairV| wf_pair(v) && b@ == enc_pair(v) implies match v {
                PairV::NiceToMeetYou { friendly_name: n2 } => starts_with_at(b@, 1, enc_str(n2))
                    && b@.len() == 1 + enc_str(n2).len(),
                _ => false,
            } by {
                lemma_pair_tag(v);
                match v {
                    PairV::NiceToMeetYou { friendly_name: n2 } => {
                        lemma_starts_with_self(b@);
                        assert(b@ =~= seq![2u8] + enc_str(n2));
                        lemma_starts_with_cons(b@, 0, 2u8, enc_str(n2));
                    },
                    _ => {},
                }
            }
        }
        match parsed {
            None => None,
            Some((friendly_name, end)) => {
                if end == b.len() {
                    proof {
                        assert(b@.subrange(0, 1) =~= seq![2u8]);
                        lemma_starts_with_join(b@, 0, seq![2u8], enc_str(friendly_name@));
                        let whole = seq![2u8] + enc_str(friendly_name@);
                        assert(b@ =~= whole) by {
                            assert(b@.subrange(0, b@.len() as int) =~= b@);
                        }
                    }
                    Some(Pair::NiceToMeetYou { friendly_name })
                } else {
                    proof {
                        assert forall|v: PairV| wf_pair(v) implies b@ != enc_pair(v) by {
                            if b@ == enc_pair(v) {
                                match v {
                                    PairV::NiceToMeetYou { friendly_name: n2 } => {
                                        lemma_bytes_prefix_unique(
                                            b@,
                                            1,
                                            vstd::utf8::encode_utf8(friendly_name@),
                                            vstd::utf8::encode_utf8(n2),
                                        );
                                    },
                                    _ => {},
                                }
                            }
                        }
                    }
                    None
                }
            },
        }
    }
}

/// Why a pairing connection was aborted; each maps to a stable close code.
#[derive(PartialEq, Eq, Structural, Clone, Copy, Debug)]
pub enum PairCloseCode {
    /// The first frame failed to arrive or was not a `Helo`.
    InvalidHelo,
    /// The presented secret is not the published one.
    InvalidSecret,
    /// The pairing subsystem could not be reached.
    Internal,
}

impl PairCloseCode {
    /// The diagnostic close reason sent when the connection is aborted; the
    /// close code is always 1.
    pub fn reason(&self) -> (r: &'static str)
        ensures
            r@ == (match self {
                PairCloseCode::InvalidHelo => "INV_HELO"@,
                PairCloseCode::InvalidSecret => "INV_SEC"@,
                PairCloseCode::Internal => "INT_ERR"@,
            }),
    {
        match self {
            PairCloseCode::InvalidHelo => "INV_HELO",
            PairCloseCode::InvalidSecret => "INV_SEC",
            PairCloseCode::Internal => "INT_ERR",
        }
    }
}

/// Where the acceptor of one pairing connection stands.
#[derive(PartialEq, Eq, Structural, Clone, Copy, Debug)]
pub enum PairAcceptPhase {
    /// Nothing received; the first frame must be a `Helo`.
    AwaitHelo,
    /// `Helo` taken; the presented secret must be validated.
    CheckSecret,
    /// Secret matched; awaiting the user's reaction.
    AwaitReaction,
    /// A reply was sent; awaiting graceful close.
    Closing,
    /// Aborted.
    Failed,
}

/// What to do after the opening frame of a pairing connection.
pub enum HeloOutcome {
    /// Ask the pairing subsystem whether this secret is the published one.
    ValidateSecret,
    /// Close the connection with this code.
    Close(PairCloseCode),
}

/// What to do after the secret check.
pub enum SecretOutcome {
    /// Publish the request to the user and await the reaction.
    Escalate,
    /// Send `WrongSecret`, then close with `INV_SEC`.
    RejectSecret,
}

/// What to do after the user's reaction: send this reply, then, for an
/// acceptance, register the peer and resolve the outcome.
pub enum ReactionOutcome {
    AcceptedPair { reply: Pair, peer: crate::config::Peer },
    Declined { reply: Pair },
}

/// The acceptor state machine of one inbound pairing connection
/// (one per accepted connection under the pair protocol).
pub struct PairAcceptor {
    /// Current phase.
    pub phase: PairAcceptPhase,
    /// Who connected.
    pub from: crate::identity::EndpointId,
    /// The name the initiator introduced itself with.
    pub peer_name: String,
    /// The code both users compare.
    pub pairing_code: [u8; 6],
    /// The secret the initiator presented.
    pub presented: Vec<u8>,
}

impl PairAcceptor {
    /// A fresh acceptor for a connection from `from`.
    pub fn new(from: crate::identity::EndpointId) -> (r: Self)
        ensures
            r.phase == PairAcceptPhase::AwaitHelo,
            r.from@ == from@,
    {
        PairAcceptor {
            phase: PairAcceptPhase::AwaitHelo,
            from,
            peer_name: String::new(),
            pairing_code: [0u8, 0u8, 0u8, 0u8, 0u8, 0u8],
            presented: Vec::new(),
        }
    }

    /// Takes the opening frame, or `None` when it failed to arrive or
    /// decode. Anything other than a `Helo` closes with `INV_HELO`.
    pub fn on_first_frame(&mut self, msg: Option<Pair>) -> (r: HeloOutcome)
        requires
            old(self).phase == PairAcceptPhase::AwaitHelo,
        ensures
            final(self).from == old(self).from,
            match msg {
                Some(m) => match m@ {
                    PairV::Helo { friendly_name, pairing_code, secret } => {
                        &&& final(self).phase == PairAcceptPhase::CheckSecret
                        &&& final(self).peer_name@ == friendly_name
                        &&& final(self).pairing_code@ == pairing_code
                        &&& final(self).presented@ == secret
                        &&& r is ValidateSecret
                    },
                    _ => final(self).phase == PairAcceptPhase::Failed && r == HeloOutcome::Close(
                        PairCloseCode::InvalidHelo,
                    ),
                },
                None => final(self).phase == PairAcceptPhase::Failed && r == HeloOutcome::Close(
                    PairCloseCode::InvalidHelo,
                ),
            },
    {
        match msg {
            Some(Pair::Helo { friendly_name, pairing_code, secret }) => {
                self.peer_name = friendly_name;
                self.pairing_code = pairing_code;
                self.presented = secret;
                self.phase = PairAcceptPhase::CheckSecret;
                HeloOutcome::ValidateSecret
            },
            _ => {
                self.phase = PairAcceptPhase::Failed;
                HeloOutcome::Close(PairCloseCode::InvalidHelo)
            },
        }
    }

    /// Takes the pairing subsystem's verdict on the presented secret: a
    /// mismatch answers `WrongSecret` and closes; a match escalates to the
    /// user.
    pub fn on_secret_checked(&mut self, valid: bool) -> (r: SecretOutcome)
        requires
            old(self).phase == PairAcceptPhase::CheckSecret,
        ensures
            final(self).from == old(self).from,
            final(self).peer_name == old(self).peer_name,
            final(self).pairing_code == old(self).pairing_code,
            valid ==> r is Escalate && final(self).phase == PairAcceptPhase::AwaitReaction,
            !valid ==> r is RejectSecret && final(self).phase == PairAcceptPhase::Failed,
    {
        if valid {
            self.phase = PairAcceptPhase::AwaitReaction;
            SecretOutcome::Escalate
        } else {
            self.phase = PairAcceptPhase::Failed;
            SecretOutcome::RejectSecret
        }
    }

    /// Takes the user's reaction. An acceptance replies `NiceToMeetYou` with
    /// the local name and hands back the peer to register; the other
    /// reactions reply their message and close gracefully.
    pub fn on_reaction(&mut self, reaction: crate::ui::UIPairReaction, our_name: String) -> (r:
        ReactionOutcome)
        requires
            old(self).phase == PairAcceptPhase::AwaitReaction,
        ensures
            final(self).phase == PairAcceptPhase::Closing,
            match reaction {
                crate::ui::UIPairReaction::Accept => (r matches ReactionOutcome::AcceptedPair {
                    reply,
                    peer,
                } && reply@ == (PairV::NiceToMeetYou { friendly_name: our_name@ }) && peer@.name
                    == old(self).peer_name@ && peer@.id == old(self).from@),
                crate::ui::UIPairReaction::WrongPairingCode => (
                r matches ReactionOutcome::Declined { reply } && reply@
                    == PairV::WrongPairingCode),
                crate::ui::UIPairReaction::Reject => (r matches ReactionOutcome::Declined { reply }
                    && reply@ == PairV::FuckOff),
            },
    {
        self.phase = PairAcceptPhase::Closing;
        match reaction {
            crate::ui::UIPairReaction::Accept => {
                let peer = crate::config::Peer {
                    name: self.peer_name.clone(),
                    id: self.from.clone(),
                };
                ReactionOutcome::AcceptedPair {
                    reply: Pair::NiceToMeetYou { friendly_name: our_name },
                    peer,
                }
            },
            crate::ui::UIPairReaction::WrongPairingCode => {
                ReactionOutcome::Declined { reply: Pair::WrongPairingCode }
            },
            crate::ui::UIPairReaction::Reject => {
                ReactionOutcome::Declined { reply: Pair::FuckOff }
            },
        }
    }
}

/// The encoding is injective: distinct well-formed messages have distinct
/// encodings, so a decoded frame identifies the message that was sent.
pub proof fn lemma_enc_pair_injective(v1: PairV, v2: PairV)
    requires
        wf_pair(v1),
        wf_pair(v2),
        enc_pair(v1) == enc_pair(v2),
    ensures
        v1 == v2,
{
    let bv = enc_pair(v1);
    lemma_pair_tag(v1);
    lemma_pair_tag(v2);
    match (v1, v2) {
        (
            PairV::Helo { friendly_name: n1, pairing_code: c1, secret: s1 },
            PairV::Helo { friendly_name: n2, pairing_code: c2, secret: s2 },
        ) => {
            lemma_helo_parts(bv, n1, c1, s1);
            lemma_helo_parts(bv, n2, c2, s2);
            lemma_bytes_prefix_unique(
                bv,
                1,
                vstd::utf8::encode_utf8(n1),
                vstd::utf8::encode_utf8(n2),
            );
            vstd::utf8::encode_utf8_decode_utf8(n1);
            vstd::utf8::encode_utf8_decode_utf8(n2);
            assert(c1 =~= bv.subrange(1 + enc_str(n1).len() as int, 1 + enc_str(n1).len() + 6 as int));
            assert(c2 =~= bv.subrange(1 + enc_str(n2).len() as int, 1 + enc_str(n2).len() + 6 as int));
            lemma_bytes_prefix_unique(bv, 1 + enc_str(n1).len() + 6 as int, s1, s2);
        },
        (PairV::NiceToMeetYou { friendly_name: n1 }, PairV::NiceToMeetYou { friendly_name: n2 }) => {
            lemma_starts_with_self(bv);
            assert(bv =~= seq![2u8] + enc_str(n1));
            lemma_starts_with_cons(bv, 0, 2u8, enc_str(n1));
            assert(enc_pair(v2) =~= seq![2u8] + enc_str(n2));
            lemma_starts_with_cons(bv, 0, 2u8, enc_str(n2));
            lemma_bytes_prefix_unique(
                bv,
                1,
                vstd::utf8::encode_utf8(n1),
                vstd::utf8::encode_utf8(n2),
            );
            vstd::utf8::encode_utf8_decode_utf8(n1);
            vstd::utf8::encode_utf8_decode_utf8(n2);
        },
        _ => {},
    }
}

} // verus!
