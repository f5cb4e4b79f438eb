//! The out-of-band pair ticket: one human-transportable string carrying the
//! inviting device's reachable address and its current pairing secret,
//! shown as a QR code or pasted. The ticket is the hex spelling of the two
//! length-prefixed fields; encoding and decoding are proved inverse.

use vstd::prelude::*;
use crate::hex::hex_bytes;
use crate::hex::hex_of;
use crate::hex::lemma_hex_bytes_injective;
use crate::hex::lemma_hex_of_utf8;
use crate::hex::parse_hex;
use crate::hex::to_hex_string;
use crate::wire::enc_bytes;
use crate::wire::enc_str;
use crate::wire::lemma_bytes_prefix_unique;
use crate::wire::lemma_starts_with_join;
use crate::wire::lemma_starts_with_self;
use crate::wire::lemma_starts_with_split;
use crate::wire::read_bytes;
use crate::wire::read_str;
use crate::wire::starts_with_at;
use crate::wire::write_bytes;
use crate::wire::write_str;

verus! {

/// The raw bytes a ticket spells: the address, then the secret.
pub open spec fn enc_ticket(addr: Seq<char>, secret: Seq<u8>) -> Seq<u8> {
    enc_str(addr) + enc_bytes(secret)
}

/// Bounds every real ticket meets.
pub open spec fn wf_ticket(addr: Seq<char>, secret: Seq<u8>) -> bool {
    vstd::utf8::encode_utf8(addr).len() <= u64::MAX && secret.len() <= u64::MAX
}

/// Writes a ticket for this address and secret.
pub fn ticket_encode(addr: &String, secret: &Vec<u8>) -> (r: String)
    ensures
        r@ == hex_of(enc_ticket(addr@, secret@)),
{
    let mut bytes: Vec<u8> = Vec::new();
    write_str(&mut bytes, addr);
    write_bytes(&mut bytes, secret);
    to_hex_string(&bytes)
}

/// Reads a ticket back. Returns the address and secret whose ticket is
/// exactly the string, and `None` when the string is no ticket.
pub fn ticket_decode(t: &String) -> (r: Option<(String, Vec<u8>)>)
    ensures
        match r {
            Some(p) => t@ == hex_of(enc_ticket(p.0@, p.1@)),
            None => forall|a: Seq<char>, s: Seq<u8>| wf_ticket(a, s) ==> t@ != hex_of(
                #[trigger] enc_ticket(a, s),
            ),
        },
{
    proof {
        assert forall|a: Seq<char>, s: Seq<u8>|
            wf_ticket(a, s) && t@ == hex_of(#[trigger] enc_ticket(a, s)) implies vstd::utf8::encode_utf8(
            t@,
        ) == hex_bytes(enc_ticket(a, s)) by {
            lemma_hex_of_utf8(enc_ticket(a, s));
        }
    }
    let ascii = t.as_str().as_bytes_vec();
    let raw = match parse_hex(&ascii) {
        Some(b) => b,
        None => {
            return None;
        },
    };
    proof {
        // Whatever ticket this string spells, its raw bytes are `raw`.
        assert forall|a: Seq<char>, s: Seq<u8>|
            wf_ticket(a, s) && t@ == hex_of(#[trigger] enc_ticket(a, s)) implies raw@ == enc_ticket(
            a,
            s,
        ) && starts_with_at(raw@, 0, enc_str(a)) && starts_with_at(
            raw@,
            enc_str(a).len() as int,
            enc_bytes(s),
        ) by {
            lemma_hex_bytes_injective(raw@, enc_ticket(a, s));
            lemma_starts_with_self(raw@);
            assert(raw@.skip(0) =~= raw@);
            lemma_starts_with_split(raw@, 0, enc_str(a), enc_bytes(s));
        }
    }
    let (addr, p1) = match read_str(&raw, 0) {
        Some(p) => p,
        None => {
            return None;
        },
    };
    proof {
        assert forall|a: Seq<char>, s: Seq<u8>|
            wf_ticket(a, s) && t@ == hex_of(#[trigger] enc_ticket(a, s)) implies a == addr@ && p1
            == enc_str(a).len() by {
            lemma_bytes_prefix_unique(
                raw@,
                0,
                vstd::utf8::encode_utf8(addr@),
                vstd::utf8::encode_utf8(a),
            );
            vstd::utf8::encode_utf8_decode_utf8(a);
            vstd::utf8::encode_utf8_decode_utf8(addr@);
        }
    }
    let (secret, p2) = match read_bytes(&raw, p1) {
        Some(p) => p,
        None => {
            return None;
        },
    };
    if p2 != raw.len() {
        proof {
            assert forall|a: Seq<char>, s: Seq<u8>| wf_ticket(a, s) implies t@ != hex_of(
                #[trigger] enc_ticket(a, s),
            ) by {
                if t@ == hex_of(enc_ticket(a, s)) {
                    lemma_bytes_prefix_unique(raw@, p1 as int, secret@, s);
                }
            }
        }
        return None;
    }
    proof {
        lemma_starts_with_join(raw@, 0, enc_str(addr@), enc_bytes(secret@));
        assert(raw@ =~= enc_ticket(addr@, secret@)) by {
            assert(raw@.subrange(0, raw@.len() as int) =~= raw@);
        }
        lemma_hex_of_utf8(raw@);
        // The string's own characters spell these bytes: UTF-8 encoding is
        // injective, so the string is the ticket's hex form.
        vstd::utf8::encode_utf8_decode_utf8(t@);
        vstd::utf8::encode_utf8_decode_utf8(hex_of(raw@));
        assert(vstd::utf8::encode_utf8(t@) == ascii@);
        assert(t@ == hex_of(enc_ticket(addr@, secret@)));
    }
    Some((addr, secret))
}

} // verus!
