//! The outbound file transfer state machine and its chunking arithmetic.
//!
//! A sender walks a file of known size in chunks of at most `CHUNK_SIZE`
//! bytes: each step names the next chunk's length until every byte is
//! covered, then exactly one `Finish` ends the stream. The chunk plan is
//! proved to cover the file exactly, in exactly `ceil(size / CHUNK_SIZE)`
//! chunks.

use vstd::prelude::*;
use vstd::arithmetic::div_mod::lemma_basic_div;
use vstd::arithmetic::div_mod::lemma_div_plus_one;
use crate::send::CHUNK_SIZE;
use crate::send::SendResponse;
use crate::send::SendResponseV;

verus! {

/// The lengths of the data frames a transfer of `size - offset` remaining
/// bytes sends: full chunks, then the remainder if any.
pub open spec fn chunk_plan(offset: int, size: int) -> Seq<int>
    decreases size - offset,
{
    if offset < 0 || offset >= size {
        Seq::empty()
    } else {
        let n = if size - offset < CHUNK_SIZE as int {
            size - offset
        } else {
            CHUNK_SIZE as int
        };
        seq![n] + chunk_plan(offset + n, size)
    }
}

/// The sum of a sequence of integers.
pub open spec fn seq_sum(s: Seq<int>) -> int
    decreases s.len(),
{
    if s.len() == 0 {
        0
    } else {
        s[0] + seq_sum(s.drop_first())
    }
}

/// The chunk plan covers the remaining bytes exactly, uses
/// `ceil(remaining / CHUNK_SIZE)` chunks, and every chunk fits the bound.
pub proof fn lemma_chunk_plan(offset: int, size: int)
    requires
        0 <= offset <= size,
    ensures
        seq_sum(chunk_plan(offset, size)) == size - offset,
        chunk_plan(offset, size).len() == ((size - offset) + CHUNK_SIZE - 1) / (CHUNK_SIZE as int),
        forall|i: int| 0 <= i < chunk_plan(offset, size).len() ==> 1 <= #[trigger] chunk_plan(
            offset,
            size,
        )[i] <= CHUNK_SIZE,
    decreases size - offset,
{
    let c = CHUNK_SIZE as int;
    let r = size - offset;
    if offset >= size {
        lemma_basic_div(c - 1, c);
    } else {
        let n = if r < c {
            r
        } else {
            c
        };
        let plan = chunk_plan(offset, size);
        let rest = chunk_plan(offset + n, size);
        lemma_chunk_plan(offset + n, size);
        assert(plan =~= seq![n] + rest);
        assert(plan.drop_first() =~= rest);
        if r < c {
            // One final short chunk: `ceil(r / c) == 1` for `1 <= r <= c`.
            lemma_basic_div(r - 1, c);
            lemma_div_plus_one(r - 1, c);
        } else {
            // One full chunk peels off: `ceil(r / c) == 1 + ceil((r - c) / c)`.
            lemma_div_plus_one(r - c + c - 1, c);
        }
    }
}

/// A sent file of `size` bytes is carried by data frames whose lengths sum
/// to exactly `size`, in exactly `ceil(size / CHUNK_SIZE)` frames.
pub proof fn lemma_transfer_volume(size: int)
    requires
        0 <= size,
    ensures
        seq_sum(chunk_plan(0, size)) == size,
        chunk_plan(0, size).len() == (size + CHUNK_SIZE - 1) / (CHUNK_SIZE as int),
{
    lemma_chunk_plan(0, size);
}

/// One instruction to the sending loop.
pub enum SendStep {
    /// Send a chunk header for `len` bytes, then a raw data frame of exactly
    /// the next `len` bytes of the file, then emit `Progress`.
    Chunk { len: usize },
    /// Every byte is covered: send `Finish`, exactly once.
    Finish,
}

/// The sender of one outbound transfer.
pub struct Sender {
    /// Bytes already handed to the stream.
    pub offset: u64,
    /// Total size derived from the opened file.
    pub size: u64,
    /// Whether `Finish` has been issued.
    pub finished: bool,
}

impl Sender {
    pub open spec fn inv(&self) -> bool {
        &&& self.offset <= self.size
        &&& self.finished ==> self.offset == self.size
    }

    /// A fresh sender for a file of `size` bytes.
    pub fn new(size: u64) -> (r: Self)
        ensures
            r == (Sender { offset: 0, size, finished: false }),
            r.inv(),
    {
        Sender { offset: 0, size, finished: false }
    }

    /// The next instruction: the following chunk of the plan while bytes
    /// remain, `Finish` once — and only once — when all are covered.
    pub fn next_step(&mut self) -> (r: SendStep)
        requires
            !old(self).finished,
            old(self).inv(),
        ensures
            final(self).inv(),
            final(self).size == old(self).size,
            old(self).offset < old(self).size ==> {
                &&& r == (SendStep::Chunk {
                    len: chunk_plan(old(self).offset as int, old(self).size as int)[0] as usize,
                })
                &&& final(self).offset == old(self).offset + chunk_plan(
                    old(self).offset as int,
                    old(self).size as int,
                )[0]
                &&& !final(self).finished
                &&& chunk_plan(old(self).offset as int, old(self).size as int) == seq![
                    chunk_plan(old(self).offset as int, old(self).size as int)[0],
                ] + chunk_plan(final(self).offset as int, final(self).size as int)
            },
            old(self).offset == old(self).size ==> r is Finish && final(self).finished
                && final(self).offset == old(self).offset,
    {
        if self.offset == self.size {
            self.finished = true;
            SendStep::Finish
        } else {
            let remaining = self.size - self.offset;
            let len: usize = if remaining < CHUNK_SIZE as u64 {
                remaining as usize
            } else {
                CHUNK_SIZE
            };
            proof {
                assert(chunk_plan(self.offset as int, self.size as int) =~= seq![len as int]
                    + chunk_plan(self.offset + len as int, self.size as int));
            }
            self.offset = self.offset + len as u64;
            SendStep::Chunk { len }
        }
    }
}

/// How the sender reads the receiver's answer to its offer.
pub enum OfferReplyCheck {
    /// `Accept`: start streaming chunks.
    Proceed,
    /// `Reject`: abort, the peer refused the offer.
    RejectedByPeer,
    /// Any other message: abort, protocol violation.
    Unexpected,
}

/// Classifies the response read after the offer.
pub fn check_offer_reply(resp: &SendResponse) -> (r: OfferReplyCheck)
    ensures
        r == (match resp@ {
            SendResponseV::Accept => OfferReplyCheck::Proceed,
            SendResponseV::Reject => OfferReplyCheck::RejectedByPeer,
            _ => OfferReplyCheck::Unexpected,
        }),
{
    match resp {
        SendResponse::Accept => OfferReplyCheck::Proceed,
        SendResponse::Reject => OfferReplyCheck::RejectedByPeer,
        _ => OfferReplyCheck::Unexpected,
    }
}

/// How the sender reads the receiver's answer after `Finish`.
pub enum DoneReplyCheck {
    /// `Done`: the transfer completed on both sides.
    Completed,
    /// `Error`: the receiver reported this failure.
    PeerError(String),
    /// Any other message: abort, protocol violation.
    Unexpected,
}

/// Classifies the response read after `Finish`.
pub fn check_done_reply(resp: SendResponse) -> (r: DoneReplyCheck)
    ensures
        match resp@ {
            SendResponseV::Done => r is Completed,
            SendResponseV::Error(e) => r matches DoneReplyCheck::PeerError(msg) && msg@ == e,
            _ => r is Unexpected,
        },
{
    match resp {
        SendResponse::Done => DoneReplyCheck::Completed,
        SendResponse::Error(e) => DoneReplyCheck::PeerError(e),
        _ => DoneReplyCheck::Unexpected,
    }
}

} // verus!
