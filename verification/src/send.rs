//! The file transfer wire protocol: message sets and binary codec.
//!
//! A sender opens with `Offer`, then alternates `ChunkHeader` frames with raw
//! data frames, and closes with `Finish`; the receiver answers with
//! `Accept`/`Reject`, and `Done` or `Error` at the end.

use vstd::prelude::*;
use crate::wire::enc_str;
use crate::wire::enc_varint;
use crate::wire::lemma_bytes_prefix_unique;
use crate::wire::lemma_starts_with_cons;
use crate::wire::lemma_starts_with_join;
use crate::wire::lemma_starts_with_self;
use crate::wire::lemma_starts_with_split;
use crate::wire::lemma_varint_prefix_unique;
use crate::wire::read_str;
use crate::wire::read_varint;
use crate::wire::starts_with_at;
use crate::wire::write_str;
use crate::wire::write_varint;

verus! {

/// Identifier this protocol is negotiated under.
pub fn send_alpn() -> (r: &'static str)
    ensures
        r@ == "teleport/send/1"@,
{
    "teleport/send/1"
}

/// Bytes of file data carried per chunk.
pub const CHUNK_SIZE: usize = 1024 * 256;

/// Largest frame a transfer stream accepts: one chunk plus header room.
pub const MAX_MSG_SIZE: usize = CHUNK_SIZE + 1024;

/// Largest file a receiver accepts.
pub const MAX_FILE_SIZE: u64 = 1024 * 1024 * 1024 * 20;

/// The metadata for one offered file.
pub struct Offer {
    pub name: String,
    pub size: u64,
}

/// The mathematical shape of an offer.
pub struct OfferV {
    pub name: Seq<char>,
    pub size: u64,
}

impl View for Offer {
    type V = OfferV;

    open spec fn view(&self) -> OfferV {
        OfferV { name: self.name@, size: self.size }
    }
}

impl Clone for Offer {
    /// Copies the offer, field for field.
    fn clone(&self) -> (r: Self)
        ensures
            r@ == self@,
    {
        Offer { name: self.name.clone(), size: self.size }
    }
}

/// Announces one raw data frame of exactly `size` bytes.
pub struct ChunkHeader {
    pub size: u32,
}

/// A sender-to-receiver message.
pub enum SendRequest {
    Offer(Offer),
    ChunkHeader(ChunkHeader),
    Finish,
}

/// The mathematical shape of a sender-to-receiver message.
pub enum SendRequestV {
    Offer(OfferV),
    ChunkHeader(u32),
    Finish,
}

impl View for SendRequest {
    type V = SendRequestV;

    open spec fn view(&self) -> SendRequestV {
        match self {
            SendRequest::Offer(o) => SendRequestV::Offer(o@),
            SendRequest::ChunkHeader(c) => SendRequestV::ChunkHeader(c.size),
            SendRequest::Finish => SendRequestV::Finish,
        }
    }
}

/// A receiver-to-sender message.
pub enum SendResponse {
    Accept,
    Reject,
    Done,
    Error(String),
}

/// The mathematical shape of a receiver-to-sender message.
pub enum SendResponseV {
    Accept,
    Reject,
    Done,
    Error(Seq<char>),
}

impl View for SendResponse {
    type V = SendResponseV;

    open spec fn view(&self) -> SendResponseV {
        match self {
            SendResponse::Accept => SendResponseV::Accept,
            SendResponse::Reject => SendResponseV::Reject,
            SendResponse::Done => SendResponseV::Done,
            SendResponse::Error(e) => SendResponseV::Error(e@),
        }
    }
}

/// Structural bounds every real request meets.
pub open spec fn wf_send_request(m: SendRequestV) -> bool {
    match m {
        SendRequestV::Offer(o) => vstd::utf8::encode_utf8(o.name).len() <= u64::MAX,
        _ => true,
    }
}

/// Structural bounds every real response meets.
pub open spec fn wf_send_response(m: SendResponseV) -> bool {
    match m {
        SendResponseV::Error(e) => vstd::utf8::encode_utf8(e).len() <= u64::MAX,
        _ => true,
    }
}

/// The byte encoding of a sender-to-receiver message.
pub open spec fn enc_send_request(m: SendRequestV) -> Seq<u8> {
    match m {
        SendRequestV::Offer(o) => seq![0u8] + enc_str(o.name) + enc_varint(o.size as nat),
        SendRequestV::ChunkHeader(size) => seq![1u8] + enc_varint(size as nat),
        SendRequestV::Finish => seq![2u8],
    }
}

/// The byte encoding of a receiver-to-sender message.
pub open spec fn enc_send_response(m: SendResponseV) -> Seq<u8> {
    match m {
        SendResponseV::Accept => seq![0u8],
        SendResponseV::Reject => seq![1u8],
        SendResponseV::Done => seq![2u8],
        SendResponseV::Error(e) => seq![3u8] + enc_str(e),
    }
}

/// Where each part of an encoded `Offer` sits inside a buffer equal to it.
proof fn lemma_offer_parts(bv: Seq<u8>, name: Seq<char>, size: u64)
    requires
        bv == enc_send_request(SendRequestV::Offer(OfferV { name, size })),
    ensures
        bv.len() == 1 + enc_str(name).len() + enc_varint(size as nat).len(),
        bv[0] == 0,
        starts_with_at(bv, 1, enc_str(name)),
        starts_with_at(bv, 1 + enc_str(name).len() as int, enc_varint(size as nat)),
{
    let tail = enc_str(name) + enc_varint(size as nat);
    assert(bv =~= seq![0u8] + tail);
    lemma_starts_with_self(bv);
    lemma_starts_with_cons(bv, 0, 0u8, tail);
    lemma_starts_with_split(bv, 1, enc_str(name), enc_varint(size as nat));
}

proof fn lemma_chunk_parts(bv: Seq<u8>, size: u32)
    requires
        bv == enc_send_request(SendRequestV::ChunkHeader(size)),
    ensures
        bv.len() == 1 + enc_varint(size as nat).len(),
        bv[0] == 1,
        starts_with_at(bv, 1, enc_varint(size as nat)),
{
    let tail = enc_varint(size as nat);
    assert(bv =~= seq![1u8] + tail);
    lemma_starts_with_self(bv);
    lemma_starts_with_cons(bv, 0, 1u8, tail);
}

proof fn lemma_error_parts(bv: Seq<u8>, e: Seq<char>)
    requires
        bv == enc_send_response(SendResponseV::Error(e)),
    ensures
        bv.len() == 1 + enc_str(e).len(),
        bv[0] == 3,
        starts_with_at(bv, 1, enc_str(e)),
{
    let tail = enc_str(e);
    assert(bv =~= seq![3u8] + tail);
    lemma_starts_with_self(bv);
    lemma_starts_with_cons(bv, 0, 3u8, tail);
}

impl SendRequest {
    /// Serializes the message for one frame.
    pub fn encode(&self) -> (r: Vec<u8>)
        ensures
            r@ == enc_send_request(self@),
    {
        let mut out: Vec<u8> = Vec::new();
        match self {
            SendRequest::Offer(o) => {
                out.push(0u8);
                proof {
                    assert(out@ =~= seq![0u8]);
                }
                write_str(&mut out, &o.name);
                write_varint(&mut out, o.size);
                proof {
                    assert(out@ =~= enc_send_request(self@));
                }
            },
            SendRequest::ChunkHeader(c) => {
                out.push(1u8);
                proof {
                    assert(out@ =~= seq![1u8]);
                }
                write_varint(&mut out, c.size as u64);
                proof {
                    assert(out@ =~= enc_send_request(self@));
                }
            },
            SendRequest::Finish => {
                out.push(2u8);
                proof {
                    assert(out@ =~= seq![2u8]);
                }
            },
        }
        out
    }

    /// Parses one frame. Returns the message whose encoding is exactly the
    /// buffer, and `None` when the buffer encodes no message.
    pub fn decode(b: &Vec<u8>) -> (r: Option<SendRequest>)
        ensures
            match r {
                Some(m) => wf_send_request(m@) && b@ == enc_send_request(m@),
                None => forall|v: SendRequestV| wf_send_request(v) ==> b@ != enc_send_request(v),
            },
    {
        if b.len() == 0 {
            proof {
                assert forall|v: SendRequestV| wf_send_request(v) implies b@ != enc_send_request(v)
                    by {
                    if b@ == enc_send_request(v) {
                        match v {
                            SendRequestV::Offer(o) => {
                                lemma_offer_parts(b@, o.name, o.size);
                            },
                            SendRequestV::ChunkHeader(size) => {
                                lemma_chunk_parts(b@, size);
                            },
                            SendRequestV::Finish => {},
                        }
                    }
                }
            }
            return None;
        }
        let tag = b[0];
        if tag == 0 {
            Self::decode_offer(b)
        } else if tag == 1 {
            Self::decode_chunk_header(b)
        } else if tag == 2 && b.len() == 1 {
            proof {
                assert(b@ =~= seq![2u8]);
            }
            Some(SendRequest::Finish)
        } else {
            proof {
                assert forall|v: SendRequestV| wf_send_request(v) implies b@ != enc_send_request(v)
                    by {
                    if b@ == enc_send_request(v) {
                        match v {
                            SendRequestV::Offer(o) => {
                                lemma_offer_parts(b@, o.name, o.size);
                            },
                            SendRequestV::ChunkHeader(size) => {
                                lemma_chunk_parts(b@, size);
                            },
                            SendRequestV::Finish => {},
                        }
                    }
                }
            }
            None
        }
    }

    /// Parses a frame already known to carry the `Offer` tag.
    fn decode_offer(b: &Vec<u8>) -> (r: Option<SendRequest>)
        requires
            b@.len() >= 1,
            b@[0] == 0,
        ensures
            match r {
                Some(m) => wf_send_request(m@) && b@ == enc_send_request(m@),
                None => forall|v: SendRequestV| wf_send_request(v) ==> b@ != enc_send_request(v),
            },
    {
        match read_str(b, 1) {
            None => {
                proof {
                    assert forall|v: SendRequestV| wf_send_request(v) implies b@
                        != enc_send_request(v) by {
                        if b@ == enc_send_request(v) {
                            match v {
                                SendRequestV::Offer(o) => {
                                    lemma_offer_parts(b@, o.name, o.size);
                                },
                                SendRequestV::ChunkHeader(size) => {
                                    lemma_chunk_parts(b@, size);
                                },
                                SendRequestV::Finish => {},
                            }
                        }
                    }
                }
                None
            },
            Some((name, p1)) => {
                proof {
                    // An `Offer` encoded here names the same string, so its
                    // size field starts exactly at `p1`.
                    assert forall|v: SendRequestV| b@ == enc_send_request(v) && v is Offer
                        implies match v {
                        SendRequestV::Offer(o) => starts_with_at(
                            b@,
                            p1 as int,
                            enc_varint(o.size as nat),
                        ) && b@.len() == p1 + enc_varint(o.size as nat).len(),
                        _ => true,
                    } by {
                        match v {
                            SendRequestV::Offer(o) => {
                                lemma_offer_parts(b@, o.name, o.size);
                                lemma_bytes_prefix_unique(
                                    b@,
                                    1,
                                    vstd::utf8::encode_utf8(name@),
                                    vstd::utf8::encode_utf8(o.name),
                                );
                            },
                            _ => {},
                        }
                    }
                }
                match read_varint(b, p1) {
                    None => {
                        proof {
                            assert forall|v: SendRequestV| wf_send_request(v) implies b@
                                != enc_send_request(v) by {
                                if b@ == enc_send_request(v) {
                                    match v {
                                        SendRequestV::Offer(o) => {},
                                        SendRequestV::ChunkHeader(size) => {
                                            lemma_chunk_parts(b@, size);
                                        },
                                        SendRequestV::Finish => {},
                                    }
                                }
                            }
                        }
                        None
                    },
                    Some((size, p2)) => {
                        if p2 == b.len() {
                            proof {
                                assert(b@.subrange(0, 1) =~= seq![0u8]);
                                lemma_starts_with_join(
                                    b@,
                                    1,
                                    enc_str(name@),
                                    enc_varint(size as nat),
                                );
                                lemma_starts_with_join(
                                    b@,
                                    0,
                                    seq![0u8],
                                    enc_str(name@) + enc_varint(size as nat),
                                );
                                let whole = seq![0u8] + (enc_str(name@) + enc_varint(
                                    size as nat,
                                ));
                                assert(b@ =~= whole) by {
                                    assert(b@.subrange(0, b@.len() as int) =~= b@);
                                }
                                assert(enc_send_request(
                                    SendRequestV::Offer(OfferV { name: name@, size }),
                                ) =~= whole);
                            }
                            Some(SendRequest::Offer(Offer { name, size }))
                        } else {
                            proof {
                                assert forall|v: SendRequestV| wf_send_request(v) implies b@
                                    != enc_send_request(v) by {
                                    if b@ == enc_send_request(v) {
                                        match v {
                                            SendRequestV::Offer(o) => {
                                                lemma_varint_prefix_unique(
                                                    b@,
                                                    p1 as int,
                                                    size as nat,
                                                    o.size as nat,
                                                );
                                            },
                                            SendRequestV::ChunkHeader(size2) => {
                                                lemma_chunk_parts(b@, size2);
                                            },
                                            SendRequestV::Finish => {},
                                        }
                                    }
                                }
                            }
                            None
                        }
                    },
                }
            },
        }
    }

    /// Parses a frame already known to carry the `ChunkHeader` tag.
    fn decode_chunk_header(b: &Vec<u8>) -> (r: Option<SendRequest>)
        requires
            b@.len() >= 1,
            b@[0] == 1,
        ensures
            match r {
                Some(m) => wf_send_request(m@) && b@ == enc_send_request(m@),
                None => forall|v: SendRequestV| wf_send_request(v) ==> b@ != enc_send_request(v),
            },
    {
        proof {
            assert forall|v: SendRequestV| b@ == enc_send_request(v) && v is ChunkHeader
                implies match v {
                SendRequestV::ChunkHeader(size) => starts_with_at(b@, 1, enc_varint(size as nat))
                    && b@.len() == 1 + enc_varint(size as nat).len(),
                _ => true,
            } by {
                match v {
                    SendRequestV::ChunkHeader(size) => {
                        lemma_chunk_parts(b@, size);
                    },
                    _ => {},
                }
            }
        }
        let parsed = read_varint(b, 1);
        match parsed {
            Some((size, p1)) => {
                if p1 == b.len() && size <= u32::MAX as u64 {
                    proof {
                        assert(b@.subrange(0, 1) =~= seq![1u8]);
                        lemma_starts_with_join(b@, 0, seq![1u8], enc_varint(size as nat));
                        let whole = seq![1u8] + enc_varint(size as nat);
                        assert(b@ =~= whole) by {
                            assert(b@.subrange(0, b@.len() as int) =~= b@);
                        }
                        assert(enc_send_request(SendRequestV::ChunkHeader(size as u32)) =~= whole);
                    }
                    Some(SendRequest::ChunkHeader(ChunkHeader { size: size as u32 }))
                } else {
                    proof {
                        assert forall|v: SendRequestV| wf_send_request(v) implies b@
                            != enc_send_request(v) by {
                            if b@ == enc_send_request(v) {
                                match v {
                                    SendRequestV::Offer(o) => {
                                        lemma_offer_parts(b@, o.name, o.size);
                                    },
                                    SendRequestV::ChunkHeader(size2) => {
                                        lemma_varint_prefix_unique(
                                            b@,
                                            1,
                                            size as nat,
                                            size2 as nat,
                                        );
                                    },
                                    SendRequestV::Finish => {},
                                }
                            }
                        }
                    }
                    None
                }
            },
            None => {
                proof {
                    assert forall|v: SendRequestV| wf_send_request(v) implies b@
                        != enc_send_request(v) by {
                        if b@ == enc_send_request(v) {
                            match v {
                                SendRequestV::Offer(o) => {
                                    lemma_offer_parts(b@, o.name, o.size);
                                },
                                SendRequestV::ChunkHeader(size) => {},
                                SendRequestV::Finish => {},
                            }
                        }
                    }
                }
                None
            },
        }
    }
}

impl SendResponse {
    /// Serializes the message for one frame.
    pub fn encode(&self) -> (r: Vec<u8>)
        ensures
            r@ == enc_send_response(self@),
    {
        let mut out: Vec<u8> = Vec::new();
        match self {
            SendResponse::Accept => {
                out.push(0u8);
                proof {
                    assert(out@ =~= seq![0u8]);
                }
            },
            SendResponse::Reject => {
                out.push(1u8);
                proof {
                    assert(out@ =~= seq![1u8]);
                }
            },
            SendResponse::Done => {
                out.push(2u8);
                proof {
                    assert(out@ =~= seq![2u8]);
                }
            },
            SendResponse::Error(e) => {
                out.push(3u8);
                proof {
                    assert(out@ =~= seq![3u8]);
                }
                write_str(&mut out, e);
            },
        }
        out
    }

    /// Parses one frame. Returns the message whose encoding is exactly the
    /// buffer, and `None` when the buffer encodes no message.
    pub fn decode(b: &Vec<u8>) -> (r: Option<SendResponse>)
        ensures
            match r {
                Some(m) => wf_send_response(m@) && b@ == enc_send_response(m@),
                None => forall|v: SendResponseV| wf_send_response(v) ==> b@ != enc_send_response(
                    v,
                ),
            },
    {
        if b.len() == 1 {
            let tag = b[0];
            if tag == 0 {
                proof {
                    assert(b@ =~= seq![0u8]);
                }
                return Some(SendResponse::Accept);
            }
            if tag == 1 {
                proof {
                    assert(b@ =~= seq![1u8]);
                }
                return Some(SendResponse::Reject);
            }
            if tag == 2 {
                proof {
                    assert(b@ =~= seq![2u8]);
                }
                return Some(SendResponse::Done);
            }
        }
        if b.len() >= 1 && b[0] == 3 {
            let parsed = read_str(b, 1);
            proof {
                assert forall|v: SendResponseV| wf_send_response(v) && b@ == enc_send_response(v)
                    implies match v {
                    SendResponseV::Error(e2) => starts_with_at(b@, 1, enc_str(e2)) && b@.len() == 1
                        + enc_str(e2).len(),
                    _ => false,
                } by {
                    match v {
                        SendResponseV::Error(e2) => {
                            lemma_error_parts(b@, e2);
                        },
                        _ => {},
                    }
                }
            }
            match parsed {
                None => None,
                Some((e, end)) => {
                    if end == b.len() {
                        proof {
                            assert(b@.subrange(0, 1) =~= seq![3u8]);
                            lemma_starts_with_join(b@, 0, seq![3u8], enc_str(e@));
                            let whole = seq![3u8] + enc_str(e@);
                            assert(b@ =~= whole) by {
                                assert(b@.subrange(0, b@.len() as int) =~= b@);
                            }
                        }
                        Some(SendResponse::Error(e))
                    } else {
                        proof {
                            assert forall|v: SendResponseV| wf_send_response(v) implies b@
                                != enc_send_response(v) by {
                                if b@ == enc_send_response(v) {
                                    match v {
                                        SendResponseV::Error(e2) => {
                                            lemma_bytes_prefix_unique(
                                                b@,
                                                1,
                                                vstd::utf8::encode_utf8(e@),
                                                vstd::utf8::encode_utf8(e2),
                                            );
                                        },
                                        _ => {},
                                    }
                                }
                            }
                        }
                        None
                    }
                },
            }
        } else {
            proof {
                assert forall|v: SendResponseV| wf_send_response(v) implies b@
                    != enc_send_response(v) by {
                    if b@ == enc_send_response(v) {
                        match v {
                            SendResponseV::Error(e2) => {
                                lemma_error_parts(b@, e2);
                            },
                            _ => {},
                        }
                    }
                }
            }
            None
        }
    }
}

/// The request encoding is injective: a decoded frame identifies the message
/// that was sent.
pub proof fn lemma_enc_send_request_injective(v1: SendRequestV, v2: SendRequestV)
    requires
        wf_send_request(v1),
        wf_send_request(v2),
        enc_send_request(v1) == enc_send_request(v2),
    ensures
        v1 == v2,
{
    let bv = enc_send_request(v1);
    match (v1, v2) {
        (SendRequestV::Offer(o1), SendRequestV::Offer(o2)) => {
            lemma_offer_parts(bv, o1.name, o1.size);
            lemma_offer_parts(bv, o2.name, o2.size);
            lemma_bytes_prefix_unique(
                bv,
                1,
                vstd::utf8::encode_utf8(o1.name),
                vstd::utf8::encode_utf8(o2.name),
            );
            vstd::utf8::encode_utf8_decode_utf8(o1.name);
            vstd::utf8::encode_utf8_decode_utf8(o2.name);
            lemma_varint_prefix_unique(
                bv,
                1 + enc_str(o1.name).len() as int,
                o1.size as nat,
                o2.size as nat,
            );
        },
        (SendRequestV::ChunkHeader(s1), SendRequestV::ChunkHeader(s2)) => {
            lemma_chunk_parts(bv, s1);
            lemma_chunk_parts(bv, s2);
            lemma_varint_prefix_unique(bv, 1, s1 as nat, s2 as nat);
        },
        (SendRequestV::Finish, SendRequestV::Finish) => {},
        _ => {
            if v1 is Offer {
                match v1 {
                    SendRequestV::Offer(o1) => lemma_offer_parts(bv, o1.name, o1.size),
                    _ => {},
                }
            }
            if v1 is ChunkHeader {
                match v1 {
                    SendRequestV::ChunkHeader(s1) => lemma_chunk_parts(bv, s1),
                    _ => {},
                }
            }
            if v2 is Offer {
                match v2 {
                    SendRequestV::Offer(o2) => lemma_offer_parts(bv, o2.name, o2.size),
                    _ => {},
                }
            }
            if v2 is ChunkHeader {
                match v2 {
                    SendRequestV::ChunkHeader(s2) => lemma_chunk_parts(bv, s2),
                    _ => {},
                }
            }
        },
    }
}

/// The response encoding is injective.
pub proof fn lemma_enc_send_response_injective(v1: SendResponseV, v2: SendResponseV)
    requires
        wf_send_response(v1),
        wf_send_response(v2),
        enc_send_response(v1) == enc_send_response(v2),
    ensures
        v1 == v2,
{
    let bv = enc_send_response(v1);
    match (v1, v2) {
        (SendResponseV::Error(e1), SendResponseV::Error(e2)) => {
            lemma_error_parts(bv, e1);
            lemma_error_parts(bv, e2);
            lemma_bytes_prefix_unique(
                bv,
                1,
                vstd::utf8::encode_utf8(e1),
                vstd::utf8::encode_utf8(e2),
            );
            vstd::utf8::encode_utf8_decode_utf8(e1);
            vstd::utf8::encode_utf8_decode_utf8(e2);
        },
        _ => {
            if v1 is Error {
                match v1 {
                    SendResponseV::Error(e1) => lemma_error_parts(bv, e1),
                    _ => {},
                }
            }
            if v2 is Error {
                match v2 {
                    SendResponseV::Error(e2) => lemma_error_parts(bv, e2),
                    _ => {},
                }
            }
        },
    }
}

} // verus!
