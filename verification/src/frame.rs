//! Length-delimited framing over a byte stream: each frame is its payload
//! prefixed by the payload's length as four big-endian bytes. A per-stream
//! maximum bounds a single frame in both directions.

use vstd::prelude::*;

verus! {

/// The four big-endian bytes of a 32-bit length.
pub open spec fn u32_be(n: u32) -> Seq<u8> {
    seq![
        (n as int / 0x1000000 % 256) as u8,
        (n as int / 0x10000 % 256) as u8,
        (n as int / 0x100 % 256) as u8,
        (n as int % 256) as u8,
    ]
}

/// The value four big-endian bytes spell.
pub open spec fn u32_of_be(b: Seq<u8>) -> int {
    b[0] * 0x1000000 + b[1] * 0x10000 + b[2] * 0x100 + b[3]
}

/// A frame on the stream: the payload's length, then the payload.
pub open spec fn enc_frame(payload: Seq<u8>) -> Seq<u8> {
    u32_be(payload.len() as u32) + payload
}

/// Reading back the four bytes of a length gives the length.
pub proof fn lemma_u32_be_inverse(n: u32)
    ensures
        u32_of_be(u32_be(n)) == n,
{
    assert(u32_of_be(u32_be(n)) == n) by (nonlinear_arith)
        requires
            0 <= n <= 0xFFFFFFFF,
    ;
}

/// Wraps a payload as one frame: the length prefix, then the bytes.
/// Refused above the stream's frame bound.
pub fn frame_payload(payload: &Vec<u8>, max_len: usize) -> (r: Option<Vec<u8>>)
    requires
        max_len <= u32::MAX,
    ensures
        match r {
            Some(f) => payload@.len() <= max_len && f@ == enc_frame(payload@),
            None => payload@.len() > max_len,
        },
{
    if payload.len() > max_len {
        return None;
    }
    let n: u32 = payload.len() as u32;
    let mut out: Vec<u8> = Vec::new();
    out.push((n / 0x1000000 % 256) as u8);
    out.push((n / 0x10000 % 256) as u8);
    out.push((n / 0x100 % 256) as u8);
    out.push((n % 256) as u8);
    proof {
        assert(out@ =~= u32_be(n));
    }
    let mut i: usize = 0;
    let ghost head = out@;
    while i < payload.len()
        invariant
            i <= payload@.len(),
            out@ =~= head + payload@.subrange(0, i as int),
        decreases payload@.len() - i,
    {
        out.push(payload[i]);
        proof {
            assert(payload@.subrange(0, i + 1) =~= payload@.subrange(0, i as int)
                + seq![payload@[i as int]]);
        }
        i = i + 1;
    }
    proof {
        assert(payload@.subrange(0, payload@.len() as int) =~= payload@);
    }
    Some(out)
}

/// Reads a frame's length prefix. Refused above the stream's frame bound,
/// which bounds what a peer can make us buffer.
pub fn parse_frame_len(header: &Vec<u8>, max_len: usize) -> (r: Option<usize>)
    requires
        header@.len() == 4,
        max_len <= u32::MAX,
    ensures
        match r {
            Some(n) => n == u32_of_be(header@) && n <= max_len,
            None => u32_of_be(header@) > max_len,
        },
{
    let n: u64 = (header[0] as u64) * 0x1000000 + (header[1] as u64) * 0x10000 + (header[2] as u64)
        * 0x100 + (header[3] as u64);
    if n > max_len as u64 {
        None
    } else {
        Some(n as usize)
    }
}

} // verus!
