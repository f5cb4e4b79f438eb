//! The keepalive wire protocol and its liveness decisions.
//!
//! An initiator pings every known peer on a fixed interval and expects the
//! matching pong within a timeout; anything else tears the connection down so
//! it can be rebuilt after a backoff. The acceptor echoes pings.

use vstd::prelude::*;
use crate::wire::enc_varint;
use crate::wire::lemma_starts_with_cons;
use crate::wire::lemma_starts_with_join;
use crate::wire::lemma_starts_with_self;
use crate::wire::lemma_varint_prefix_unique;
use crate::wire::read_varint;
use crate::wire::starts_with_at;
use crate::wire::write_varint;

verus! {

/// Identifier this protocol is negotiated under.
pub fn keepalive_alpn() -> (r: &'static str)
    ensures
        r@ == "teleport/keepalive/1"@,
{
    "teleport/keepalive/1"
}

/// Largest frame a keepalive stream accepts.
pub const MAX_MSG_SIZE: usize = 64;

/// Seconds between pings, and between scans for peers without a task.
pub const KEEPALIVE_INTERVAL_SECS: u64 = 10;

/// Seconds an initiator waits for the matching pong.
pub const KEEPALIVE_TIMEOUT_SECS: u64 = 5;

/// Seconds to back off before reconnecting after a failure.
pub const RECONNECT_DELAY_SECS: u64 = 5;

/// A keepalive message.
pub enum KeepAlive {
    Ping { seq: u64 },
    Pong { seq: u64 },
}

/// The mathematical shape of a keepalive message.
pub enum KeepAliveV {
    Ping { seq: u64 },
    Pong { seq: u64 },
}

impl View for KeepAlive {
    type V = KeepAliveV;

    open spec fn view(&self) -> KeepAliveV {
        match self {
            KeepAlive::Ping { seq } => KeepAliveV::Ping { seq: *seq },
            KeepAlive::Pong { seq } => KeepAliveV::Pong { seq: *seq },
        }
    }
}

/// The byte encoding of a keepalive message.
pub open spec fn enc_keepalive(m: KeepAliveV) -> Seq<u8> {
    match m {
        KeepAliveV::Ping { seq } => seq![0u8] + enc_varint(seq as nat),
        KeepAliveV::Pong { seq } => seq![1u8] + enc_varint(seq as nat),
    }
}

proof fn lemma_keepalive_parts(bv: Seq<u8>, v: KeepAliveV)
    requires
        bv == enc_keepalive(v),
    ensures
        bv.len() >= 1,
        v matches KeepAliveV::Ping { seq } ==> bv[0] == 0 && starts_with_at(
            bv,
            1,
            enc_varint(seq as nat),
        ) && bv.len() == 1 + enc_varint(seq as nat).len(),
        v matches KeepAliveV::Pong { seq } ==> bv[0] == 1 && starts_with_at(
            bv,
            1,
            enc_varint(seq as nat),
        ) && bv.len() == 1 + enc_varint(seq as nat).len(),
{
    match v {
        KeepAliveV::Ping { seq } => {
            assert(bv =~= seq![0u8] + enc_varint(seq as nat));
            lemma_starts_with_self(bv);
            lemma_starts_with_cons(bv, 0, 0u8, enc_varint(seq as nat));
        },
        KeepAliveV::Pong { seq } => {
            assert(bv =~= seq![1u8] + enc_varint(seq as nat));
            lemma_starts_with_self(bv);
            lemma_starts_with_cons(bv, 0, 1u8, enc_varint(seq as nat));
        },
    }
}

impl KeepAlive {
    /// Serializes the message for one frame.
    pub fn encode(&self) -> (r: Vec<u8>)
        ensures
            r@ == enc_keepalive(self@),
    {
        let mut out: Vec<u8> = Vec::new();
        match self {
            KeepAlive::Ping { seq } => {
                out.push(0u8);
                proof {
                    assert(out@ =~= seq![0u8]);
                }
                write_varint(&mut out, *seq);
            },
            KeepAlive::Pong { seq } => {
                out.push(1u8);
                proof {
                    assert(out@ =~= seq![1u8]);
                }
                write_varint(&mut out, *seq);
            },
        }
        out
    }

    /// Parses one frame. Returns the message whose encoding is exactly the
    /// buffer, and `None` when the buffer encodes no message.
    pub fn decode(b: &Vec<u8>) -> (r: Option<KeepAlive>)
        ensures
            match r {
                Some(m) => b@ == enc_keepalive(m@),
                None => forall|v: KeepAliveV| b@ != enc_keepalive(v),
            },
    {
        proof {
            assert forall|v: KeepAliveV| b@ == enc_keepalive(v) implies match v {
                KeepAliveV::Ping { seq } => b@.len() >= 1 && b@[0] == 0 && starts_with_at(
                    b@,
                    1,
                    enc_varint(seq as nat),
                ) && b@.len() == 1 + enc_varint(seq as nat).len(),
                KeepAliveV::Pong { seq } => b@.len() >= 1 && b@[0] == 1 && starts_with_at(
                    b@,
                    1,
                    enc_varint(seq as nat),
                ) && b@.len() == 1 + enc_varint(seq as nat).len(),
            } by {
                lemma_keepalive_parts(b@, v);
            }
        }
        if b.len() == 0 {
            return None;
        }
        let tag = b[0];
        if tag > 1 {
            return None;
        }
        match read_varint(b, 1) {
            None => None,
            Some((seq, end)) => {
                if end != b.len() {
                    proof {
                        assert forall|v: KeepAliveV| b@ != enc_keepalive(v) by {
                            if b@ == enc_keepalive(v) {
                                match v {
                                    KeepAliveV::Ping { seq: s2 } => {
                                        lemma_varint_prefix_unique(b@, 1, seq as nat, s2 as nat);
                                    },
                                    KeepAliveV::Pong { seq: s2 } => {
                                        lemma_varint_prefix_unique(b@, 1, seq as nat, s2 as nat);
                                    },
                                }
                            }
                        }
                    }
                    None
                } else if tag == 0 {
                    proof {
                        assert(b@.subrange(0, 1) =~= seq![0u8]);
                        lemma_starts_with_join(b@, 0, seq![0u8], enc_varint(seq as nat));
                        assert(b@ =~= seq![0u8] + enc_varint(seq as nat)) by {
                            assert(b@.subrange(0, b@.len() as int) =~= b@);
                        }
                    }
                    Some(KeepAlive::Ping { seq })
                } else {
                    proof {
                        assert(b@.subrange(0, 1) =~= seq![1u8]);
                        lemma_starts_with_join(b@, 0, seq![1u8], enc_varint(seq as nat));
                        assert(b@ =~= seq![1u8] + enc_varint(seq as nat)) by {
                            assert(b@.subrange(0, b@.len() as int) =~= b@);
                        }
                    }
                    Some(KeepAlive::Pong { seq })
                }
            },
        }
    }
}

/// The encoding is injective: a decoded frame identifies the message sent.
pub proof fn lemma_enc_keepalive_injective(v1: KeepAliveV, v2: KeepAliveV)
    requires
        enc_keepalive(v1) == enc_keepalive(v2),
    ensures
        v1 == v2,
{
    let bv = enc_keepalive(v1);
    lemma_keepalive_parts(bv, v1);
    lemma_keepalive_parts(bv, v2);
    match (v1, v2) {
        (KeepAliveV::Ping { seq: s1 }, KeepAliveV::Ping { seq: s2 }) => {
            lemma_varint_prefix_unique(bv, 1, s1 as nat, s2 as nat);
        },
        (KeepAliveV::Pong { seq: s1 }, KeepAliveV::Pong { seq: s2 }) => {
            lemma_varint_prefix_unique(bv, 1, s1 as nat, s2 as nat);
        },
        _ => {},
    }
}

/// What an acceptor answers to one message: pings are echoed as pongs with
/// the same sequence number, unsolicited pongs are ignored.
pub fn acceptor_reply(msg: &KeepAlive) -> (r: Option<KeepAlive>)
    ensures
        match msg@ {
            KeepAliveV::Ping { seq } => r matches Some(p) && p@ == (KeepAliveV::Pong { seq }),
            KeepAliveV::Pong { .. } => r is None,
        },
{
    match msg {
        KeepAlive::Ping { seq } => Some(KeepAlive::Pong { seq: *seq }),
        KeepAlive::Pong { .. } => None,
    }
}

/// The next ping sequence number; wraps at the top of `u64`.
pub fn next_seq(seq: u64) -> (r: u64)
    ensures
        seq < u64::MAX ==> r == seq + 1,
        seq == u64::MAX ==> r == 0,
{
    if seq == u64::MAX {
        0
    } else {
        seq + 1
    }
}

/// What an initiator observed while waiting for the pong to ping `expected`.
pub enum PongEvent {
    /// A frame arrived and decoded to this message.
    Msg(KeepAlive),
    /// The frame failed to arrive or decode.
    RecvError,
    /// No frame arrived within the timeout.
    Timeout,
}

/// Whether the liveness connection survives the observation: only the
/// matching pong does; a mismatch, a late pong, an error, or any other
/// message forces a reconnect after the backoff.
pub fn pong_keeps_connection(expected: u64, event: &PongEvent) -> (r: bool)
    ensures
        r <==> (match event {
            PongEvent::Msg(m) => m@ == (KeepAliveV::Pong { seq: expected }),
            _ => false,
        }),
{
    match event {
        PongEvent::Msg(KeepAlive::Pong { seq }) => *seq == expected,
        _ => false,
    }
}

} // verus!
