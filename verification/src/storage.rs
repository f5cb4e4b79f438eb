//! The stored configuration document: a line-based, human-readable
//! key-value text holding the identity key, device name, optional download
//! directory, and the peer list.
//!
//! Layout, one entry per line, every line closed by a newline:
//!
//! ```text
//! key = "<64 hex digits>"
//! name = "<escaped>"
//! target_dir = "<escaped>"      (absent when unset)
//! [[peers]]
//! name = "<escaped>"
//! id = "<64 hex digits>"
//! ```
//!
//! String values are quoted; backslash, quote, newline, carriage return and
//! tab are escaped, so a value never breaks the line or quote structure.
//! Rendering and parsing are proved inverse: the parser accepts exactly the
//! rendered documents, and rendering is injective.

use vstd::prelude::*;
use crate::wire::starts_with_at;
use crate::wire::lemma_starts_with_self;
use crate::wire::lemma_starts_with_split;
use crate::identity::bytes_eq;
use crate::config::Config;
use crate::config::ConfigV;
use crate::config::KEY_LEN;
use crate::config::Peer;
use crate::config::PeerV;
use crate::config::peers_view;
use crate::hex::hex_bytes;
use crate::hex::lemma_hex_bytes_injective;
use crate::hex::parse_hex;
use crate::hex::write_hex;
use crate::identity::EndpointId;
use crate::identity::ID_LEN;

verus! {

/// The escape of one byte.
pub open spec fn esc1(x: u8) -> Seq<u8> {
    if x == 0x5C {
        seq![0x5Cu8, 0x5Cu8]
    } else if x == 0x22 {
        seq![0x5Cu8, 0x22u8]
    } else if x == 0x0A {
        seq![0x5Cu8, 0x6Eu8]
    } else if x == 0x0D {
        seq![0x5Cu8, 0x72u8]
    } else if x == 0x09 {
        seq![0x5Cu8, 0x74u8]
    } else {
        seq![x]
    }
}

/// The escaped form of a byte string.
pub open spec fn esc(b: Seq<u8>) -> Seq<u8>
    decreases b.len(),
{
    if b.len() == 0 {
        Seq::empty()
    } else {
        esc1(b[0]) + esc(b.drop_first())
    }
}

pub proof fn lemma_esc_snoc(b: Seq<u8>, x: u8)
    ensures
        esc(b.push(x)) == esc(b) + esc1(x),
    decreases b.len(),
{
    if b.len() == 0 {
        assert(esc(b) =~= Seq::<u8>::empty());
        assert(b.push(x)[0] == x);
        assert(b.push(x).drop_first() =~= Seq::<u8>::empty());
        assert(esc(b.push(x).drop_first()) =~= Seq::<u8>::empty());
        assert(esc(b.push(x)) =~= esc(b) + esc1(x));
    } else {
        assert(b.push(x).drop_first() =~= b.drop_first().push(x));
        lemma_esc_snoc(b.drop_first(), x);
        assert(esc(b.push(x)) =~= esc(b) + esc1(x));
    }
}

/// Escaped text never holds a raw newline, so a value never ends its line.
pub proof fn lemma_esc_clean(b: Seq<u8>)
    ensures
        forall|k: int| 0 <= k < esc(b).len() ==> #[trigger] esc(b)[k] != 0x0A,
    decreases b.len(),
{
    if b.len() > 0 {
        lemma_esc_clean(b.drop_first());
        assert forall|k: int| 0 <= k < esc(b).len() implies #[trigger] esc(b)[k] != 0x0A by {
            let head = esc1(b[0]);
            if k >= head.len() {
                assert(esc(b)[k] == esc(b.drop_first())[k - head.len()]);
            }
        }
    }
}

/// Escaping is injective.
pub proof fn lemma_esc_injective(t1: Seq<u8>, t2: Seq<u8>)
    requires
        esc(t1) == esc(t2),
    ensures
        t1 == t2,
    decreases t1.len(),
{
    if t1.len() == 0 || t2.len() == 0 {
        if t1.len() != t2.len() {
            let t = if t1.len() == 0 {
                t2
            } else {
                t1
            };
            assert(esc(t).len() >= esc1(t[0]).len());
        }
        assert(t1 =~= t2);
    } else {
        let h1 = esc1(t1[0]);
        let h2 = esc1(t2[0]);
        assert(esc(t1)[0] == h1[0] && esc(t2)[0] == h2[0]);
        // Heads agree: either both are escape pairs or both single bytes.
        assert(esc(t1) == h1 + esc(t1.drop_first()));
        assert(esc(t2) == h2 + esc(t2.drop_first()));
        if h1[0] == 0x5C {
            assert(h2.len() == 2) by {
                if h2.len() == 1 {
                    assert(esc(t2)[0] == t2[0] && esc1(t2[0]) =~= seq![t2[0]]);
                }
            }
            assert(esc(t1)[1] == h1[1] && esc(t2)[1] == h2[1]);
            assert(t1[0] == t2[0]);
            assert(esc(t1.drop_first()) =~= esc(t2.drop_first())) by {
                assert(esc(t1.drop_first()).len() == esc(t1).len() - 2);
                assert(esc(t2.drop_first()).len() == esc(t2).len() - 2);
                assert forall|k: int| 0 <= k < esc(t1).len() - 2 implies esc(t1.drop_first())[k]
                    == esc(t2.drop_first())[k] by {
                    assert(esc(t1)[k + 2] == esc(t1.drop_first())[k]);
                    assert(esc(t2)[k + 2] == esc(t2.drop_first())[k]);
                }
            }
        } else {
            assert(h1.len() == 1 && esc(t1)[0] == t1[0]);
            assert(h2.len() == 1) by {
                if h2.len() == 2 {
                    assert(esc(t2)[0] == 0x5C);
                    assert(esc1(t1[0]) =~= seq![t1[0]]);
                }
            }
            assert(t1[0] == t2[0]);
            assert(esc(t1.drop_first()) =~= esc(t2.drop_first())) by {
                assert(esc(t1.drop_first()).len() == esc(t1).len() - 1);
                assert(esc(t2.drop_first()).len() == esc(t2).len() - 1);
                assert forall|k: int| 0 <= k < esc(t1).len() - 1 implies esc(t1.drop_first())[k]
                    == esc(t2.drop_first())[k] by {
                    assert(esc(t1)[k + 1] == esc(t1.drop_first())[k]);
                    assert(esc(t2)[k + 1] == esc(t2.drop_first())[k]);
                }
            }
        }
        lemma_esc_injective(t1.drop_first(), t2.drop_first());
        assert forall|k: int| 0 <= k < t1.len() implies t1[k] == t2[k] by {
            if k > 0 {
                assert(t1.drop_first()[k - 1] == t1[k]);
                assert(t2.drop_first()[k - 1] == t2[k]);
            }
        }
        assert(t1 =~= t2);
    }
}

/// Appends the escaped form of `b` to `out`.
pub fn write_esc(out: &mut Vec<u8>, b: &Vec<u8>)
    ensures
        final(out)@ == old(out)@ + esc(b@),
{
    let ghost base = out@;
    let mut i: usize = 0;
    while i < b.len()
        invariant
            i <= b@.len(),
            out@ =~= base + esc(b@.subrange(0, i as int)),
        decreases b@.len() - i,
    {
        let x = b[i];
        if x == 0x5C {
            out.push(0x5C);
            out.push(0x5C);
        } else if x == 0x22 {
            out.push(0x5C);
            out.push(0x22);
        } else if x == 0x0A {
            out.push(0x5C);
            out.push(0x6E);
        } else if x == 0x0D {
            out.push(0x5C);
            out.push(0x72);
        } else if x == 0x09 {
            out.push(0x5C);
            out.push(0x74);
        } else {
            out.push(x);
        }
        proof {
            assert(b@.subrange(0, i + 1) =~= b@.subrange(0, i as int).push(b@[i as int]));
            lemma_esc_snoc(b@.subrange(0, i as int), b@[i as int]);
            assert(out@ =~= base + esc(b@.subrange(0, i + 1)));
        }
        i = i + 1;
    }
    proof {
        assert(b@.subrange(0, b@.len() as int) =~= b@);
    }
}

/// Parses the rest of the buffer from `i` as escaped text. Accepts exactly
/// the escaped forms, so a raw special byte or a dangling escape is refused.
pub fn unesc_from(seg: &Vec<u8>, i: usize) -> (r: Option<Vec<u8>>)
    requires
        i <= seg@.len(),
    ensures
        match r {
            Some(v) => seg@.skip(i as int) == esc(v@),
            None => forall|t: Seq<u8>| seg@.skip(i as int) != esc(t),
        },
    decreases seg@.len() - i,
{
    if i == seg.len() {
        let r: Vec<u8> = Vec::new();
        proof {
            assert(seg@.skip(i as int) =~= esc(r@));
        }
        return Some(r);
    }
    let b = seg[i];
    proof {
        assert forall|t: Seq<u8>| seg@.skip(i as int) == esc(t) implies t.len() > 0 && esc(
            t,
        ).len() > 0 && esc(t)[0] == b by {
            assert(seg@.skip(i as int).len() == seg@.len() - i);
            assert(seg@.skip(i as int)[0] == seg@[i as int]);
        }
    }
    if b == 0x5C {
        if i + 1 >= seg.len() {
            proof {
                assert forall|t: Seq<u8>| seg@.skip(i as int) != esc(t) by {
                    if seg@.skip(i as int) == esc(t) {
                        assert(esc1(t[0])[0] == esc(t)[0]);
                        assert(esc1(t[0]).len() == 2);
                        assert(esc(t).len() >= 2);
                    }
                }
            }
            return None;
        }
        let c = seg[i + 1];
        let decoded: u8 = if c == 0x5C {
            0x5C
        } else if c == 0x22 {
            0x22
        } else if c == 0x6E {
            0x0A
        } else if c == 0x72 {
            0x0D
        } else if c == 0x74 {
            0x09
        } else {
            proof {
                assert forall|t: Seq<u8>| seg@.skip(i as int) != esc(t) by {
                    if seg@.skip(i as int) == esc(t) {
                        assert(esc1(t[0]).len() == 2 && esc1(t[0])[1] == esc(t)[1]);
                        assert(seg@.skip(i as int)[1] == c);
                    }
                }
            }
            return None;
        };
        match unesc_from(seg, i + 2) {
            None => {
                proof {
                    assert forall|t: Seq<u8>| seg@.skip(i as int) != esc(t) by {
                        if seg@.skip(i as int) == esc(t) {
                            assert(esc1(t[0]).len() == 2);
                            assert(seg@.skip(i + 2) =~= esc(t).skip(2));
                            assert(esc(t).skip(2) =~= esc(t.drop_first()));
                        }
                    }
                }
                None
            },
            Some(v) => {
                let mut out: Vec<u8> = Vec::new();
                out.push(decoded);
                let mut tail = v;
                let ghost tail0 = tail@;
                out.append(&mut tail);
                proof {
                    assert(out@ =~= seq![decoded] + tail0);
                    assert(esc1(decoded).len() == 2 && esc1(decoded)[0] == 0x5C && esc1(
                        decoded,
                    )[1] == c);
                    assert(out@.drop_first() =~= tail0);
                    assert(out@[0] == decoded);
                    assert(esc(out@) =~= esc1(decoded) + esc(tail0));
                    assert(seg@.skip(i as int) =~= seq![b, c] + seg@.skip(i + 2));
                    assert(seg@.skip(i as int) =~= esc(out@));
                }
                Some(out)
            },
        }
    } else if b == 0x22 || b == 0x0A || b == 0x0D || b == 0x09 {
        proof {
            assert forall|t: Seq<u8>| seg@.skip(i as int) != esc(t) by {
                if seg@.skip(i as int) == esc(t) {
                    assert(esc1(t[0])[0] == b);
                }
            }
        }
        None
    } else {
        match unesc_from(seg, i + 1) {
            None => {
                proof {
                    assert forall|t: Seq<u8>| seg@.skip(i as int) != esc(t) by {
                        if seg@.skip(i as int) == esc(t) {
                            assert(esc1(t[0]) =~= seq![t[0]]);
                            assert(t[0] == b);
                            assert(seg@.skip(i + 1) =~= esc(t).skip(1));
                            assert(esc(t).skip(1) =~= esc(t.drop_first()));
                        }
                    }
                }
                None
            },
            Some(v) => {
                let mut out: Vec<u8> = Vec::new();
                out.push(b);
                let mut tail = v;
                let ghost tail0 = tail@;
                out.append(&mut tail);
                proof {
                    assert(out@ =~= seq![b] + tail0);
                    assert(esc1(b) =~= seq![b]);
                    assert(out@.drop_first() =~= tail0);
                    assert(out@[0] == b);
                    assert(esc(out@) =~= esc1(b) + esc(tail0));
                    assert(seg@.skip(i as int) =~= seq![b] + seg@.skip(i + 1));
                    assert(seg@.skip(i as int) =~= esc(out@));
                }
                Some(out)
            },
        }
    }
}

/// Parses a whole buffer as escaped text.
pub fn unesc(seg: &Vec<u8>) -> (r: Option<Vec<u8>>)
    ensures
        match r {
            Some(v) => seg@ == esc(v@),
            None => forall|t: Seq<u8>| seg@ != esc(t),
        },
{
    let r = unesc_from(seg, 0);
    proof {
        assert(seg@.skip(0) =~= seg@);
    }
    r
}

/// A marked concatenation splits in only one way: when the marker occurs in
/// neither left part, the parts coincide.
pub proof fn lemma_split_at_marker(a: Seq<u8>, b: Seq<u8>, c: Seq<u8>, d: Seq<u8>, x: u8)
    requires
        a + seq![x] + b == c + seq![x] + d,
        forall|k: int| 0 <= k < a.len() ==> a[k] != x,
        forall|k: int| 0 <= k < c.len() ==> c[k] != x,
    ensures
        a == c,
        b == d,
{
    let s = a + seq![x] + b;
    if a.len() < c.len() {
        assert(s[a.len() as int] == x);
        assert(s[a.len() as int] == c[a.len() as int]);
        assert(false);
    }
    if c.len() < a.len() {
        assert(s[c.len() as int] == x);
        assert(s[c.len() as int] == a[c.len() as int]);
        assert(false);
    }
    assert(a =~= c) by {
        assert forall|k: int| 0 <= k < a.len() implies a[k] == c[k] by {
            assert(s[k] == a[k] && s[k] == c[k]);
        }
    }
    assert(b =~= d) by {
        let u = a + seq![x];
        let w = c + seq![x];
        assert((u + b).len() == (w + d).len());
        assert forall|k: int| 0 <= k < b.len() implies b[k] == d[k] by {
            assert((u + b)[u.len() + k] == b[k]);
            assert((w + d)[w.len() + k] == d[k]);
        }
    }
}

/// Reads one line at `pos`: the bytes before the next newline, and the
/// position after that newline.
pub fn read_line(b: &Vec<u8>, pos: usize) -> (r: Option<(Vec<u8>, usize)>)
    requires
        pos <= b@.len(),
    ensures
        match r {
            Some(p) => {
                &&& pos <= p.1 <= b@.len()
                &&& p.1 == pos + p.0@.len() + 1
                &&& b@.subrange(pos as int, p.1 - 1) == p.0@
                &&& b@[p.1 - 1] == 0x0A
                &&& forall|k: int| 0 <= k < p.0@.len() ==> p.0@[k] != 0x0A
            },
            None => forall|k: int| pos <= k < b@.len() ==> b@[k] != 0x0A,
        },
{
    let mut line: Vec<u8> = Vec::new();
    let mut i: usize = pos;
    while i < b.len()
        invariant
            pos <= i <= b@.len(),
            line@ =~= b@.subrange(pos as int, i as int),
            forall|k: int| pos <= k < i ==> b@[k] != 0x0A,
        decreases b@.len() - i,
    {
        let x = b[i];
        if x == 0x0A {
            return Some((line, i + 1));
        }
        line.push(x);
        proof {
            assert(b@.subrange(pos as int, i + 1) =~= b@.subrange(pos as int, i as int)
                + seq![b@[i as int]]);
        }
        i = i + 1;
    }
    None
}

/// No newline byte occurs in `s`.
pub open spec fn nl_free(s: Seq<u8>) -> bool {
    forall|k: int| 0 <= k < s.len() ==> s[k] != 0x0A
}

/// The bytes of `key = "`.
pub open spec fn lit_key() -> Seq<u8> {
    seq![0x6Bu8, 0x65u8, 0x79u8, 0x20u8, 0x3Du8, 0x20u8, 0x22u8]
}

/// The bytes of `name = "`.
pub open spec fn lit_name() -> Seq<u8> {
    seq![0x6Eu8, 0x61u8, 0x6Du8, 0x65u8, 0x20u8, 0x3Du8, 0x20u8, 0x22u8]
}

/// The bytes of `target_dir = "`.
pub open spec fn lit_tdir() -> Seq<u8> {
    seq![
        0x74u8,
        0x61u8,
        0x72u8,
        0x67u8,
        0x65u8,
        0x74u8,
        0x5Fu8,
        0x64u8,
        0x69u8,
        0x72u8,
        0x20u8,
        0x3Du8,
        0x20u8,
        0x22u8,
    ]
}

/// The bytes of `id = "`.
pub open spec fn lit_id() -> Seq<u8> {
    seq![0x69u8, 0x64u8, 0x20u8, 0x3Du8, 0x20u8, 0x22u8]
}

/// The bytes of `[[peers]]`.
pub open spec fn lit_peers() -> Seq<u8> {
    seq![0x5Bu8, 0x5Bu8, 0x70u8, 0x65u8, 0x65u8, 0x72u8, 0x73u8, 0x5Du8, 0x5Du8]
}

/// One entry line: prefix, quoted value, closing quote, newline.
pub open spec fn quoted_line(prefix: Seq<u8>, mid: Seq<u8>) -> Seq<u8> {
    prefix + mid + seq![0x22u8, 0x0Au8]
}

/// One peer's block of three lines.
pub open spec fn peer_block(p: PeerV) -> Seq<u8> {
    lit_peers() + seq![0x0Au8] + quoted_line(lit_name(), esc(vstd::utf8::encode_utf8(p.name)))
        + quoted_line(lit_id(), hex_bytes(p.id))
}

/// The peer section: one block per peer, in order.
pub open spec fn peers_doc(ps: Seq<PeerV>) -> Seq<u8>
    decreases ps.len(),
{
    if ps.len() == 0 {
        Seq::empty()
    } else {
        peer_block(ps[0]) + peers_doc(ps.drop_first())
    }
}

/// The optional download directory line.
pub open spec fn tdir_doc(td: Option<Seq<char>>) -> Seq<u8> {
    match td {
        Option::Some(d) => quoted_line(lit_tdir(), esc(vstd::utf8::encode_utf8(d))),
        Option::None => Seq::empty(),
    }
}

/// The whole rendered document.
pub open spec fn render_config(c: ConfigV) -> Seq<u8> {
    quoted_line(lit_key(), hex_bytes(c.key)) + quoted_line(
        lit_name(),
        esc(vstd::utf8::encode_utf8(c.name)),
    ) + tdir_doc(c.target_dir) + peers_doc(c.peers)
}

/// Every record's identifier has its full length.
pub open spec fn ids_full(s: Seq<PeerV>) -> bool {
    forall|i: int| 0 <= i < s.len() ==> (#[trigger] s[i]).id.len() == ID_LEN
}

/// What the document format can carry faithfully: a full-length key and
/// full-length peer identifiers.
pub open spec fn storable(c: ConfigV) -> bool {
    &&& c.key.len() == KEY_LEN
    &&& ids_full(c.peers)
}

pub proof fn lemma_peers_doc_snoc(ps: Seq<PeerV>, p: PeerV)
    ensures
        peers_doc(ps.push(p)) == peers_doc(ps) + peer_block(p),
    decreases ps.len(),
{
    if ps.len() == 0 {
        assert(peers_doc(ps) =~= Seq::<u8>::empty());
        assert(ps.push(p)[0] == p);
        assert(ps.push(p).drop_first() =~= Seq::<PeerV>::empty());
        assert(peers_doc(ps.push(p).drop_first()) =~= Seq::<u8>::empty());
        assert(peers_doc(ps.push(p)) =~= peers_doc(ps) + peer_block(p));
    } else {
        assert(ps.push(p).drop_first() =~= ps.drop_first().push(p));
        lemma_peers_doc_snoc(ps.drop_first(), p);
        assert(peers_doc(ps.push(p)) =~= peers_doc(ps) + peer_block(p));
    }
}

/// Hex text never holds a newline.
pub proof fn lemma_hex_nl_free(t: Seq<u8>)
    ensures
        nl_free(hex_bytes(t)),
    decreases t.len(),
{
    if t.len() > 0 {
        lemma_hex_nl_free(t.drop_first());
        assert forall|k: int| 0 <= k < hex_bytes(t).len() implies hex_bytes(t)[k] != 0x0A by {
            if k >= 2 {
                assert(hex_bytes(t)[k] == hex_bytes(t.drop_first())[k - 2]);
            }
        }
    }
}

/// The literal `key = "` bytes, as a vector.
fn lit_key_vec() -> (r: Vec<u8>)
    ensures
        r@ == lit_key(),
{
    let mut v: Vec<u8> = Vec::new();
    v.push(0x6B);
    v.push(0x65);
    v.push(0x79);
    v.push(0x20);
    v.push(0x3D);
    v.push(0x20);
    v.push(0x22);
    proof {
        assert(v@ =~= lit_key());
    }
    v
}

/// The literal `name = "` bytes, as a vector.
fn lit_name_vec() -> (r: Vec<u8>)
    ensures
        r@ == lit_name(),
{
    let mut v: Vec<u8> = Vec::new();
    v.push(0x6E);
    v.push(0x61);
    v.push(0x6D);
    v.push(0x65);
    v.push(0x20);
    v.push(0x3D);
    v.push(0x20);
    v.push(0x22);
    proof {
        assert(v@ =~= lit_name());
    }
    v
}

/// The literal `target_dir = "` bytes, as a vector.
fn lit_tdir_vec() -> (r: Vec<u8>)
    ensures
        r@ == lit_tdir(),
{
    let mut v: Vec<u8> = Vec::new();
    v.push(0x74);
    v.push(0x61);
    v.push(0x72);
    v.push(0x67);
    v.push(0x65);
    v.push(0x74);
    v.push(0x5F);
    v.push(0x64);
    v.push(0x69);
    v.push(0x72);
    v.push(0x20);
    v.push(0x3D);
    v.push(0x20);
    v.push(0x22);
    proof {
        assert(v@ =~= lit_tdir());
    }
    v
}

/// The literal `id = "` bytes, as a vector.
fn lit_id_vec() -> (r: Vec<u8>)
    ensures
        r@ == lit_id(),
{
    let mut v: Vec<u8> = Vec::new();
    v.push(0x69);
    v.push(0x64);
    v.push(0x20);
    v.push(0x3D);
    v.push(0x20);
    v.push(0x22);
    proof {
        assert(v@ =~= lit_id());
    }
    v
}

/// The literal `[[peers]]` bytes, as a vector.
fn lit_peers_vec() -> (r: Vec<u8>)
    ensures
        r@ == lit_peers(),
{
    let mut v: Vec<u8> = Vec::new();
    v.push(0x5B);
    v.push(0x5B);
    v.push(0x70);
    v.push(0x65);
    v.push(0x65);
    v.push(0x72);
    v.push(0x73);
    v.push(0x5D);
    v.push(0x5D);
    proof {
        assert(v@ =~= lit_peers());
    }
    v
}

/// Appends one quoted entry line.
fn put_quoted_line(out: &mut Vec<u8>, prefix: Vec<u8>, mid: &Vec<u8>)
    ensures
        final(out)@ == old(out)@ + quoted_line(prefix@, mid@),
{
    let mut p = prefix;
    let ghost p0 = p@;
    out.append(&mut p);
    let mut i: usize = 0;
    let ghost base = out@;
    while i < mid.len()
        invariant
            i <= mid@.len(),
            out@ =~= base + mid@.subrange(0, i as int),
        decreases mid@.len() - i,
    {
        out.push(mid[i]);
        proof {
            assert(mid@.subrange(0, i + 1) =~= mid@.subrange(0, i as int) + seq![mid@[i as int]]);
        }
        i = i + 1;
    }
    out.push(0x22);
    out.push(0x0A);
    proof {
        assert(mid@.subrange(0, mid@.len() as int) =~= mid@);
        assert(out@ =~= old(out)@ + quoted_line(p0, mid@));
    }
}

/// Renders the configuration as its stored document.
pub fn render_config_doc(c: &Config) -> (r: Vec<u8>)
    ensures
        r@ == render_config(c@),
{
    let mut out: Vec<u8> = Vec::new();
    // key line
    let mut key_hex: Vec<u8> = Vec::new();
    write_hex(&mut key_hex, &c.key);
    put_quoted_line(&mut out, lit_key_vec(), &key_hex);
    // name line
    let name_bytes = c.name.as_str().as_bytes_vec();
    let mut name_esc: Vec<u8> = Vec::new();
    write_esc(&mut name_esc, &name_bytes);
    put_quoted_line(&mut out, lit_name_vec(), &name_esc);
    // optional download directory line
    match &c.target_dir {
        Some(d) => {
            let dir_bytes = d.as_str().as_bytes_vec();
            let mut dir_esc: Vec<u8> = Vec::new();
            write_esc(&mut dir_esc, &dir_bytes);
            put_quoted_line(&mut out, lit_tdir_vec(), &dir_esc);
        },
        None => {},
    }
    proof {
        assert(out@ =~= quoted_line(lit_key(), hex_bytes(c@.key)) + quoted_line(
            lit_name(),
            esc(vstd::utf8::encode_utf8(c@.name)),
        ) + tdir_doc(c@.target_dir));
    }
    // peer blocks
    let ghost head = out@;
    let mut i: usize = 0;
    while i < c.peers.len()
        invariant
            i <= c.peers@.len(),
            out@ =~= head + peers_doc(peers_view(c.peers@).subrange(0, i as int)),
        decreases c.peers@.len() - i,
    {
        let ghost done = peers_view(c.peers@).subrange(0, i as int);
        let mut header = lit_peers_vec();
        out.append(&mut header);
        out.push(0x0A);
        let peer_name_bytes = c.peers[i].name.as_str().as_bytes_vec();
        let mut peer_name_esc: Vec<u8> = Vec::new();
        write_esc(&mut peer_name_esc, &peer_name_bytes);
        put_quoted_line(&mut out, lit_name_vec(), &peer_name_esc);
        let mut id_hex: Vec<u8> = Vec::new();
        write_hex(&mut id_hex, &c.peers[i].id.bytes);
        put_quoted_line(&mut out, lit_id_vec(), &id_hex);
        proof {
            let p = peers_view(c.peers@)[i as int];
            assert(out@ =~= head + peers_doc(done) + peer_block(p));
            lemma_peers_doc_snoc(done, p);
            assert(peers_view(c.peers@).subrange(0, i + 1) =~= done.push(p));
            assert(out@ =~= head + peers_doc(peers_view(c.peers@).subrange(0, i + 1)));
        }
        i = i + 1;
    }
    proof {
        assert(peers_view(c.peers@).subrange(0, c.peers@.len() as int) =~= peers_view(c.peers@));
        assert(out@ =~= render_config(c@));
    }
    out
}

/// A line the reader returns is the one a marked occurrence at the same
/// position describes: the first newline pins the line's end.
pub proof fn lemma_first_line(bv: Seq<u8>, pos: int, line: Seq<u8>, next: int, pre: Seq<u8>)
    requires
        0 <= pos,
        pos + line.len() + 1 == next <= bv.len(),
        bv.subrange(pos, next - 1) == line,
        bv[next - 1] == 0x0A,
        nl_free(line),
        starts_with_at(bv, pos, pre + seq![0x0Au8]),
        nl_free(pre),
    ensures
        line == pre,
{
    let q = pre + seq![0x0Au8];
    if line.len() < pre.len() {
        assert(bv.subrange(pos, pos + q.len() as int)[line.len() as int] == q[line.len() as int]);
        assert(bv[pos + line.len()] == pre[line.len() as int]);
        assert(false);
    }
    if line.len() > pre.len() {
        assert(bv.subrange(pos, pos + q.len() as int)[pre.len() as int] == q[pre.len() as int]);
        assert(bv[pos + pre.len()] == 0x0A);
        assert(line[pre.len() as int] == bv.subrange(pos, next - 1)[pre.len() as int]);
        assert(false);
    }
    assert(line =~= pre) by {
        assert forall|k: int| 0 <= k < line.len() implies line[k] == pre[k] by {
            assert(line[k] == bv.subrange(pos, next - 1)[k]);
            assert(bv.subrange(pos, pos + q.len() as int)[k] == q[k]);
        }
    }
}

/// A quoted entry line at a position names one value: equal prefixes and the
/// first newline leave a single reading.
pub proof fn lemma_quoted_unique(s: Seq<u8>, pos: int, pre: Seq<u8>, m1: Seq<u8>, m2: Seq<u8>)
    requires
        starts_with_at(s, pos, quoted_line(pre, m1)),
        starts_with_at(s, pos, quoted_line(pre, m2)),
        nl_free(pre),
        nl_free(m1),
        nl_free(m2),
    ensures
        m1 == m2,
{
    let q1 = quoted_line(pre, m1);
    let q2 = quoted_line(pre, m2);
    assert(q1[q1.len() - 1] == 0x0A);
    assert(q2[q2.len() - 1] == 0x0A);
    if m1.len() < m2.len() {
        let idx = pre.len() + m1.len() + 1;
        assert(s.subrange(pos, pos + q1.len() as int)[idx as int] == q1[idx as int]);
        assert(s[pos + idx] == 0x0A);
        assert(s.subrange(pos, pos + q2.len() as int)[idx as int] == q2[idx as int]);
        assert(q2[idx as int] != 0x0A) by {
            if idx < pre.len() + m2.len() {
                assert(q2[idx as int] == m2[idx - pre.len()]);
            } else {
                assert(q2[idx as int] == 0x22);
            }
        }
        assert(false);
    }
    if m2.len() < m1.len() {
        let idx = pre.len() + m2.len() + 1;
        assert(s.subrange(pos, pos + q2.len() as int)[idx as int] == q2[idx as int]);
        assert(s[pos + idx] == 0x0A);
        assert(s.subrange(pos, pos + q1.len() as int)[idx as int] == q1[idx as int]);
        assert(q1[idx as int] != 0x0A) by {
            if idx < pre.len() + m1.len() {
                assert(q1[idx as int] == m1[idx - pre.len()]);
            } else {
                assert(q1[idx as int] == 0x22);
            }
        }
        assert(false);
    }
    assert(m1 =~= m2) by {
        assert forall|k: int| 0 <= k < m1.len() implies m1[k] == m2[k] by {
            assert(s.subrange(pos, pos + q1.len() as int)[pre.len() + k] == q1[pre.len() + k]);
            assert(s.subrange(pos, pos + q2.len() as int)[pre.len() + k] == q2[pre.len() + k]);
            assert(q1[pre.len() + k] == m1[k]);
            assert(q2[pre.len() + k] == m2[k]);
        }
    }
}

/// Whether `prefix` opens `line`.
fn starts_with_vec(line: &Vec<u8>, prefix: &Vec<u8>) -> (r: bool)
    ensures
        r == (line@.len() >= prefix@.len() && line@.subrange(0, prefix@.len() as int) == prefix@),
{
    if line.len() < prefix.len() {
        return false;
    }
    let mut i: usize = 0;
    while i < prefix.len()
        invariant
            i <= prefix@.len(),
            prefix@.len() <= line@.len(),
            forall|k: int| 0 <= k < i ==> line@[k] == prefix@[k],
        decreases prefix@.len() - i,
    {
        if line[i] != prefix[i] {
            proof {
                assert(line@.subrange(0, prefix@.len() as int)[i as int] == line@[i as int]);
            }
            return false;
        }
        i = i + 1;
    }
    proof {
        assert(line@.subrange(0, prefix@.len() as int) =~= prefix@);
    }
    true
}

/// Copies `v[from..to]`.
fn copy_range(v: &Vec<u8>, from: usize, to: usize) -> (r: Vec<u8>)
    requires
        from <= to <= v@.len(),
    ensures
        r@ == v@.subrange(from as int, to as int),
{
    let mut out: Vec<u8> = Vec::new();
    let mut i: usize = from;
    while i < to
        invariant
            from <= i <= to <= v@.len(),
            out@ =~= v@.subrange(from as int, i as int),
        decreases to - i,
    {
        out.push(v[i]);
        proof {
            assert(v@.subrange(from as int, i + 1) =~= v@.subrange(from as int, i as int)
                + seq![v@[i as int]]);
        }
        i = i + 1;
    }
    out
}

/// Parses one quoted entry line at `pos`: the prefix, a value, a quote, a
/// newline. Accepts exactly the lines `quoted_line` renders.
fn parse_quoted_line(b: &Vec<u8>, pos: usize, prefix: &Vec<u8>) -> (r: Option<(Vec<u8>, usize)>)
    requires
        pos <= b@.len(),
        nl_free(prefix@),
    ensures
        match r {
            Some(p) => pos < p.1 <= b@.len() && nl_free(p.0@) && b@.subrange(pos as int, p.1 as int)
                == quoted_line(prefix@, p.0@) && p.1 == pos + quoted_line(prefix@, p.0@).len(),
            None => forall|m: Seq<u8>| nl_free(m) ==> !starts_with_at(
                b@,
                pos as int,
                quoted_line(prefix@, m),
            ),
        },
{
    match read_line(b, pos) {
        None => {
            proof {
                assert forall|m: Seq<u8>| nl_free(m) implies !starts_with_at(
                    b@,
                    pos as int,
                    quoted_line(prefix@, m),
                ) by {
                    let q = quoted_line(prefix@, m);
                    if starts_with_at(b@, pos as int, q) {
                        assert(b@.subrange(pos as int, pos + q.len() as int)[q.len() - 1] == q[
                            q.len() - 1]);
                        assert(q[q.len() - 1] == 0x0A);
                    }
                }
            }
            None
        },
        Some((line, next)) => {
            proof {
                assert forall|m: Seq<u8>|
                    nl_free(m) && starts_with_at(
                        b@,
                        pos as int,
                        quoted_line(prefix@, m),
                    ) implies line@ == prefix@ + m + seq![0x22u8] by {
                    let pre = prefix@ + m + seq![0x22u8];
                    assert(quoted_line(prefix@, m) =~= pre + seq![0x0Au8]);
                    assert(nl_free(pre)) by {
                        assert forall|k: int| 0 <= k < pre.len() implies pre[k] != 0x0A by {
                            if k < prefix@.len() {
                                assert(pre[k] == prefix@[k]);
                            } else if k < prefix@.len() + m.len() {
                                assert(pre[k] == m[k - prefix@.len()]);
                            } else {
                                assert(pre[k] == 0x22);
                            }
                        }
                    }
                    lemma_first_line(b@, pos as int, line@, next as int, pre);
                }
            }
            if line.len() <= prefix.len() {
                return None;
            }
            if !starts_with_vec(&line, prefix) {
                proof {
                    assert forall|m: Seq<u8>| nl_free(m) implies !starts_with_at(
                        b@,
                        pos as int,
                        quoted_line(prefix@, m),
                    ) by {
                        if starts_with_at(b@, pos as int, quoted_line(prefix@, m)) {
                            let pre = prefix@ + m + seq![0x22u8];
                            assert(line@.subrange(0, prefix@.len() as int) =~= prefix@) by {
                                assert forall|k: int| 0 <= k < prefix@.len() implies line@[k]
                                    == prefix@[k] by {
                                    assert(pre[k] == prefix@[k]);
                                }
                            }
                        }
                    }
                }
                return None;
            }
            if line[line.len() - 1] != 0x22 {
                proof {
                    assert forall|m: Seq<u8>| nl_free(m) implies !starts_with_at(
                        b@,
                        pos as int,
                        quoted_line(prefix@, m),
                    ) by {
                        if starts_with_at(b@, pos as int, quoted_line(prefix@, m)) {
                            let pre = prefix@ + m + seq![0x22u8];
                            assert(pre[pre.len() - 1] == 0x22);
                        }
                    }
                }
                return None;
            }
            let mid = copy_range(&line, prefix.len(), line.len() - 1);
            proof {
                assert(line@ =~= prefix@ + mid@ + seq![0x22u8]) by {
                    assert(line@[line@.len() - 1] == 0x22);
                    assert forall|k: int| 0 <= k < line@.len() implies line@[k] == (prefix@ + mid@
                        + seq![0x22u8])[k] by {
                        if k < prefix@.len() {
                            assert(line@.subrange(0, prefix@.len() as int)[k] == line@[k]);
                        } else if k < line@.len() - 1 {
                            assert(mid@[k - prefix@.len()] == line@[k]);
                        }
                    }
                }
                assert(b@.subrange(pos as int, next as int) =~= line@ + seq![0x0Au8]) by {
                    assert forall|k: int| 0 <= k < next - pos implies b@.subrange(
                        pos as int,
                        next as int,
                    )[k] == (line@ + seq![0x0Au8])[k] by {
                        if k < line@.len() {
                            assert(b@.subrange(pos as int, next - 1)[k] == line@[k]);
                        }
                    }
                }
                assert(b@.subrange(pos as int, next as int) =~= quoted_line(prefix@, mid@));
            }
            Some((mid, next))
        },
    }
}

/// Parses one bare literal line at `pos` (the peer block header).
fn parse_lit_line(b: &Vec<u8>, pos: usize, lit: &Vec<u8>) -> (r: Option<usize>)
    requires
        pos <= b@.len(),
        nl_free(lit@),
    ensures
        match r {
            Some(next) => pos < next <= b@.len() && b@.subrange(pos as int, next as int) == lit@
                + seq![0x0Au8] && next == pos + lit@.len() + 1,
            None => !starts_with_at(b@, pos as int, lit@ + seq![0x0Au8]),
        },
{
    match read_line(b, pos) {
        None => {
            proof {
                let q = lit@ + seq![0x0Au8];
                if starts_with_at(b@, pos as int, q) {
                    assert(b@.subrange(pos as int, pos + q.len() as int)[q.len() - 1] == q[q.len()
                        - 1]);
                    assert(q[q.len() - 1] == 0x0A);
                }
            }
            None
        },
        Some((line, next)) => {
            proof {
                if starts_with_at(b@, pos as int, lit@ + seq![0x0Au8]) {
                    lemma_first_line(b@, pos as int, line@, next as int, lit@);
                }
            }
            if bytes_eq(&line, lit) {
                proof {
                    assert(b@.subrange(pos as int, next as int) =~= line@ + seq![0x0Au8]) by {
                        assert forall|k: int| 0 <= k < next - pos implies b@.subrange(
                            pos as int,
                            next as int,
                        )[k] == (line@ + seq![0x0Au8])[k] by {
                            if k < line@.len() {
                                assert(b@.subrange(pos as int, next - 1)[k] == line@[k]);
                            }
                        }
                    }
                }
                Some(next)
            } else {
                None
            }
        },
    }
}

/// A suffix that splits as a concatenation places its parts.
pub proof fn lemma_skip_split(bv: Seq<u8>, pos: int, u: Seq<u8>, w: Seq<u8>)
    requires
        0 <= pos <= bv.len(),
        bv.skip(pos) == u + w,
    ensures
        starts_with_at(bv, pos, u),
        bv.skip(pos + u.len()) == w,
{
    assert(bv.skip(pos).len() == bv.len() - pos);
    assert(bv.subrange(pos, pos + u.len() as int) =~= u) by {
        assert forall|k: int| 0 <= k < u.len() implies bv.subrange(pos, pos + u.len() as int)[k]
            == u[k] by {
            assert(bv.skip(pos)[k] == (u + w)[k]);
        }
    }
    assert(bv.skip(pos + u.len()) =~= w) by {
        assert forall|k: int| 0 <= k < w.len() implies bv.skip(pos + u.len())[k] == w[k] by {
            assert(bv.skip(pos + u.len())[k] == bv[pos + u.len() + k]);
            assert(bv.skip(pos)[u.len() + k] == bv[pos + u.len() + k]);
            assert(bv.skip(pos)[u.len() + k] == (u + w)[u.len() + k]);
        }
    }
}

/// The peer section is empty exactly for an empty peer list.
pub proof fn lemma_peers_doc_len(s: Seq<PeerV>)
    ensures
        s.len() > 0 ==> peers_doc(s).len() >= lit_peers().len() + 1,
        s.len() == 0 ==> peers_doc(s).len() == 0,
{
}

/// The literal prefixes hold no newline.
pub proof fn lemma_lits_nl_free()
    ensures
        nl_free(lit_key()),
        nl_free(lit_name()),
        nl_free(lit_tdir()),
        nl_free(lit_id()),
        nl_free(lit_peers()),
{
}

/// Peer sections are injective: equal sections list equal peers.
proof fn lemma_peers_doc_injective(a: Seq<PeerV>, c: Seq<PeerV>)
    requires
        peers_doc(a) == peers_doc(c),
    ensures
        a == c,
    decreases a.len(),
{
    lemma_lits_nl_free();
    lemma_peers_doc_len(a);
    lemma_peers_doc_len(c);
    if a.len() == 0 || c.len() == 0 {
        assert(a =~= c);
    } else {
        let s = peers_doc(a);
        let ea = esc(vstd::utf8::encode_utf8(a[0].name));
        let ec = esc(vstd::utf8::encode_utf8(c[0].name));
        lemma_esc_clean(vstd::utf8::encode_utf8(a[0].name));
        lemma_esc_clean(vstd::utf8::encode_utf8(c[0].name));
        lemma_hex_nl_free(a[0].id);
        lemma_hex_nl_free(c[0].id);
        let tail_a = quoted_line(lit_name(), ea) + (quoted_line(lit_id(), hex_bytes(a[0].id))
            + peers_doc(a.drop_first()));
        let tail_c = quoted_line(lit_name(), ec) + (quoted_line(lit_id(), hex_bytes(c[0].id))
            + peers_doc(c.drop_first()));
        assert(s.skip(0) =~= s);
        assert(s =~= (lit_peers() + seq![0x0Au8]) + tail_a);
        assert(s =~= (lit_peers() + seq![0x0Au8]) + tail_c);
        lemma_skip_split(s, 0, lit_peers() + seq![0x0Au8], tail_a);
        lemma_skip_split(s, 0, lit_peers() + seq![0x0Au8], tail_c);
        let h = lit_peers().len() + 1;
        lemma_skip_split(
            s,
            h as int,
            quoted_line(lit_name(), ea),
            quoted_line(lit_id(), hex_bytes(a[0].id)) + peers_doc(a.drop_first()),
        );
        lemma_skip_split(
            s,
            h as int,
            quoted_line(lit_name(), ec),
            quoted_line(lit_id(), hex_bytes(c[0].id)) + peers_doc(c.drop_first()),
        );
        lemma_quoted_unique(s, h as int, lit_name(), ea, ec);
        lemma_esc_injective(vstd::utf8::encode_utf8(a[0].name), vstd::utf8::encode_utf8(c[0].name));
        vstd::utf8::encode_utf8_decode_utf8(a[0].name);
        vstd::utf8::encode_utf8_decode_utf8(c[0].name);
        let h2 = h + quoted_line(lit_name(), ea).len();
        lemma_skip_split(
            s,
            h2 as int,
            quoted_line(lit_id(), hex_bytes(a[0].id)),
            peers_doc(a.drop_first()),
        );
        lemma_skip_split(
            s,
            h2 as int,
            quoted_line(lit_id(), hex_bytes(c[0].id)),
            peers_doc(c.drop_first()),
        );
        lemma_quoted_unique(s, h2 as int, lit_id(), hex_bytes(a[0].id), hex_bytes(c[0].id));
        lemma_hex_bytes_injective(a[0].id, c[0].id);
        assert(a[0] == c[0]);
        let h3 = h2 + quoted_line(lit_id(), hex_bytes(a[0].id)).len();
        assert(peers_doc(a.drop_first()) == s.skip(h3 as int));
        assert(peers_doc(c.drop_first()) == s.skip(h3 as int));
        lemma_peers_doc_injective(a.drop_first(), c.drop_first());
        assert forall|k: int| 0 <= k < a.len() implies a[k] == c[k] by {
            if k > 0 {
                assert(a.drop_first()[k - 1] == a[k]);
                assert(c.drop_first()[k - 1] == c[k]);
            }
        }
        assert(a =~= c);
    }
}

/// Rendering is injective on storable configurations: with the parser's
/// soundness and completeness this makes reading a stored document back give
/// exactly the configuration that was written.
pub proof fn lemma_render_injective(v1: ConfigV, v2: ConfigV)
    requires
        storable(v1),
        storable(v2),
        render_config(v1) == render_config(v2),
    ensures
        v1 == v2,
{
    lemma_lits_nl_free();
    let s = render_config(v1);
    lemma_hex_nl_free(v1.key);
    lemma_hex_nl_free(v2.key);
    let e1 = esc(vstd::utf8::encode_utf8(v1.name));
    let e2 = esc(vstd::utf8::encode_utf8(v2.name));
    lemma_esc_clean(vstd::utf8::encode_utf8(v1.name));
    lemma_esc_clean(vstd::utf8::encode_utf8(v2.name));
    let tail1 = quoted_line(lit_name(), e1) + (tdir_doc(v1.target_dir) + peers_doc(v1.peers));
    let tail2 = quoted_line(lit_name(), e2) + (tdir_doc(v2.target_dir) + peers_doc(v2.peers));
    assert(s.skip(0) =~= s);
    assert(s =~= quoted_line(lit_key(), hex_bytes(v1.key)) + tail1);
    assert(s =~= quoted_line(lit_key(), hex_bytes(v2.key)) + tail2);
    lemma_skip_split(s, 0, quoted_line(lit_key(), hex_bytes(v1.key)), tail1);
    lemma_skip_split(s, 0, quoted_line(lit_key(), hex_bytes(v2.key)), tail2);
    lemma_quoted_unique(s, 0, lit_key(), hex_bytes(v1.key), hex_bytes(v2.key));
    lemma_hex_bytes_injective(v1.key, v2.key);
    let p1 = quoted_line(lit_key(), hex_bytes(v1.key)).len();
    lemma_skip_split(
        s,
        p1 as int,
        quoted_line(lit_name(), e1),
        tdir_doc(v1.target_dir) + peers_doc(v1.peers),
    );
    lemma_skip_split(
        s,
        p1 as int,
        quoted_line(lit_name(), e2),
        tdir_doc(v2.target_dir) + peers_doc(v2.peers),
    );
    lemma_quoted_unique(s, p1 as int, lit_name(), e1, e2);
    lemma_esc_injective(vstd::utf8::encode_utf8(v1.name), vstd::utf8::encode_utf8(v2.name));
    vstd::utf8::encode_utf8_decode_utf8(v1.name);
    vstd::utf8::encode_utf8_decode_utf8(v2.name);
    let p2 = p1 + quoted_line(lit_name(), e1).len();
    let rest = s.skip(p2 as int);
    assert(rest == tdir_doc(v1.target_dir) + peers_doc(v1.peers));
    assert(rest == tdir_doc(v2.target_dir) + peers_doc(v2.peers));
    match (v1.target_dir, v2.target_dir) {
        (Option::Some(d1), Option::Some(d2)) => {
            lemma_esc_clean(vstd::utf8::encode_utf8(d1));
            lemma_esc_clean(vstd::utf8::encode_utf8(d2));
            lemma_skip_split(
                s,
                p2 as int,
                quoted_line(lit_tdir(), esc(vstd::utf8::encode_utf8(d1))),
                peers_doc(v1.peers),
            );
            lemma_skip_split(
                s,
                p2 as int,
                quoted_line(lit_tdir(), esc(vstd::utf8::encode_utf8(d2))),
                peers_doc(v2.peers),
            );
            lemma_quoted_unique(
                s,
                p2 as int,
                lit_tdir(),
                esc(vstd::utf8::encode_utf8(d1)),
                esc(vstd::utf8::encode_utf8(d2)),
            );
            lemma_esc_injective(vstd::utf8::encode_utf8(d1), vstd::utf8::encode_utf8(d2));
            vstd::utf8::encode_utf8_decode_utf8(d1);
            vstd::utf8::encode_utf8_decode_utf8(d2);
            let p3 = p2 + quoted_line(lit_tdir(), esc(vstd::utf8::encode_utf8(d1))).len();
            assert(peers_doc(v1.peers) == s.skip(p3 as int));
            assert(peers_doc(v2.peers) == s.skip(p3 as int));
            lemma_peers_doc_injective(v1.peers, v2.peers);
        },
        (Option::None, Option::None) => {
            assert(tdir_doc(v1.target_dir) =~= Seq::<u8>::empty());
            assert(peers_doc(v1.peers) =~= rest);
            assert(peers_doc(v2.peers) =~= rest);
            lemma_peers_doc_injective(v1.peers, v2.peers);
        },
        (Option::Some(d1), Option::None) => {
            // One side opens a directory line, the other a peer block or
            // nothing: the byte at `p2` cannot agree.
            assert(rest =~= peers_doc(v2.peers));
            assert(rest.len() > 0) by {
                assert(rest == quoted_line(lit_tdir(), esc(vstd::utf8::encode_utf8(d1)))
                    + peers_doc(v1.peers));
            }
            lemma_peers_doc_len(v2.peers);
            assert(v2.peers.len() > 0);
            assert(rest[0] == peers_doc(v2.peers)[0]);
            assert(peers_doc(v2.peers)[0] == lit_peers()[0]);
            assert(rest[0] == (quoted_line(lit_tdir(), esc(vstd::utf8::encode_utf8(d1)))
                + peers_doc(v1.peers))[0]);
            assert(false);
        },
        (Option::None, Option::Some(d2)) => {
            assert(rest =~= peers_doc(v1.peers));
            assert(rest.len() > 0) by {
                assert(rest == quoted_line(lit_tdir(), esc(vstd::utf8::encode_utf8(d2)))
                    + peers_doc(v2.peers));
            }
            lemma_peers_doc_len(v1.peers);
            assert(v1.peers.len() > 0);
            assert(rest[0] == peers_doc(v1.peers)[0]);
            assert(peers_doc(v1.peers)[0] == lit_peers()[0]);
            assert(rest[0] == (quoted_line(lit_tdir(), esc(vstd::utf8::encode_utf8(d2)))
                + peers_doc(v2.peers))[0]);
            assert(false);
        },
    }
}

/// Parses one peer block at `pos`: the header line, the name line, the id
/// line. Accepts exactly a rendered block, and pins which block it was.
#[verifier::rlimit(60)]
fn parse_peer_block(b: &Vec<u8>, pos: usize) -> (r: Option<(Peer, usize)>)
    requires
        pos < b@.len(),
    ensures
        match r {
            Some(p) => pos < p.1 <= b@.len() && p.0@.id.len() == ID_LEN && b@.subrange(
                pos as int,
                p.1 as int,
            ) == peer_block(p.0@) && (forall|s: Seq<PeerV>|
                s.len() > 0 && ids_full(s) && b@.skip(pos as int) == peers_doc(s) ==> s[0] == p.0@
                    && b@.skip(p.1 as int) == peers_doc(s.drop_first())),
            None => forall|s: Seq<PeerV>| s.len() > 0 && ids_full(s) ==> b@.skip(pos as int)
                != peers_doc(s),
        },
{
    let ph = lit_peers_vec();
    let np = lit_name_vec();
    let ip = lit_id_vec();
    proof {
        lemma_lits_nl_free();
        // A matching peer section opens with the header line, then the name
        // line, then the id line of its first record.
        assert forall|s: Seq<PeerV>|
            s.len() > 0 && ids_full(s) && b@.skip(pos as int) == peers_doc(s) implies {
            &&& starts_with_at(b@, pos as int, lit_peers() + seq![0x0Au8])
            &&& b@.skip(pos + lit_peers().len() + 1) == quoted_line(
                lit_name(),
                esc(vstd::utf8::encode_utf8(s[0].name)),
            ) + (quoted_line(lit_id(), hex_bytes(s[0].id)) + peers_doc(s.drop_first()))
            &&& nl_free(esc(vstd::utf8::encode_utf8(s[0].name)))
        } by {
            let tail = quoted_line(lit_name(), esc(vstd::utf8::encode_utf8(s[0].name))) + (
            quoted_line(lit_id(), hex_bytes(s[0].id)) + peers_doc(s.drop_first()));
            assert(peers_doc(s) =~= (lit_peers() + seq![0x0Au8]) + tail);
            lemma_skip_split(b@, pos as int, lit_peers() + seq![0x0Au8], tail);
            lemma_esc_clean(vstd::utf8::encode_utf8(s[0].name));
        }
    }
    let q1 = match parse_lit_line(b, pos, &ph) {
        Some(q) => q,
        None => {
            return None;
        },
    };
    proof {
        assert forall|s: Seq<PeerV>|
            s.len() > 0 && ids_full(s) && b@.skip(pos as int) == peers_doc(s) implies {
            &&& starts_with_at(
                b@,
                q1 as int,
                quoted_line(lit_name(), esc(vstd::utf8::encode_utf8(s[0].name))),
            )
            &&& b@.skip(q1 as int) == quoted_line(
                lit_name(),
                esc(vstd::utf8::encode_utf8(s[0].name)),
            ) + (quoted_line(lit_id(), hex_bytes(s[0].id)) + peers_doc(s.drop_first()))
        } by {
            lemma_skip_split(
                b@,
                q1 as int,
                quoted_line(lit_name(), esc(vstd::utf8::encode_utf8(s[0].name))),
                quoted_line(lit_id(), hex_bytes(s[0].id)) + peers_doc(s.drop_first()),
            );
        }
    }
    let pn_line = parse_quoted_line(b, q1, &np);
    let (midn, q2) = match pn_line {
        Some(p) => p,
        None => {
            proof {
                assert forall|s: Seq<PeerV>|
                    s.len() > 0 && ids_full(s) implies b@.skip(pos as int) != peers_doc(s) by {
                    if b@.skip(pos as int) == peers_doc(s) {
                        lemma_esc_clean(vstd::utf8::encode_utf8(s[0].name));
                    }
                }
            }
            return None;
        },
    };
    let ghost midnv = midn@;
    proof {
        assert forall|s: Seq<PeerV>|
            s.len() > 0 && ids_full(s) && b@.skip(pos as int) == peers_doc(s) implies midnv == esc(
            vstd::utf8::encode_utf8(s[0].name),
        ) by {
            lemma_esc_clean(vstd::utf8::encode_utf8(s[0].name));
            assert(starts_with_at(b@, q1 as int, quoted_line(lit_name(), midnv)));
            lemma_quoted_unique(
                b@,
                q1 as int,
                lit_name(),
                midnv,
                esc(vstd::utf8::encode_utf8(s[0].name)),
            );
        }
    }
    let pn_bytes = match unesc(&midn) {
        Some(nb) => nb,
        None => {
            proof {
                assert forall|s: Seq<PeerV>|
                    s.len() > 0 && ids_full(s) implies b@.skip(pos as int) != peers_doc(s) by {
                    if b@.skip(pos as int) == peers_doc(s) {
                        assert(midnv == esc(vstd::utf8::encode_utf8(s[0].name)));
                    }
                }
            }
            return None;
        },
    };
    let ghost pnbv = pn_bytes@;
    let pname = match crate::wire::string_from_utf8(pn_bytes) {
        Some(n) => n,
        None => {
            proof {
                assert forall|s: Seq<PeerV>|
                    s.len() > 0 && ids_full(s) implies b@.skip(pos as int) != peers_doc(s) by {
                    if b@.skip(pos as int) == peers_doc(s) {
                        lemma_esc_injective(pnbv, vstd::utf8::encode_utf8(s[0].name));
                        vstd::utf8::encode_utf8_valid_utf8(s[0].name);
                    }
                }
            }
            return None;
        },
    };
    proof {
        vstd::utf8::decode_utf8_encode_utf8(pnbv);
        assert(vstd::utf8::encode_utf8(pname@) == pnbv);
        assert forall|s: Seq<PeerV>|
            s.len() > 0 && ids_full(s) && b@.skip(pos as int) == peers_doc(s) implies {
            &&& s[0].name == pname@
            &&& starts_with_at(b@, q2 as int, quoted_line(lit_id(), hex_bytes(s[0].id)))
            &&& b@.skip(q2 as int) == quoted_line(lit_id(), hex_bytes(s[0].id)) + peers_doc(
                s.drop_first(),
            )
            &&& nl_free(hex_bytes(s[0].id))
        } by {
            lemma_esc_injective(pnbv, vstd::utf8::encode_utf8(s[0].name));
            vstd::utf8::encode_utf8_decode_utf8(s[0].name);
            lemma_skip_split(
                b@,
                q1 as int,
                quoted_line(lit_name(), esc(vstd::utf8::encode_utf8(s[0].name))),
                quoted_line(lit_id(), hex_bytes(s[0].id)) + peers_doc(s.drop_first()),
            );
            lemma_hex_nl_free(s[0].id);
            lemma_skip_split(
                b@,
                q2 as int,
                quoted_line(lit_id(), hex_bytes(s[0].id)),
                peers_doc(s.drop_first()),
            );
        }
    }
    let id_line = parse_quoted_line(b, q2, &ip);
    let (midi, q3) = match id_line {
        Some(p) => p,
        None => {
            proof {
                assert forall|s: Seq<PeerV>|
                    s.len() > 0 && ids_full(s) implies b@.skip(pos as int) != peers_doc(s) by {
                    if b@.skip(pos as int) == peers_doc(s) {
                        assert(nl_free(hex_bytes(s[0].id)));
                    }
                }
            }
            return None;
        },
    };
    let ghost midiv = midi@;
    proof {
        assert forall|s: Seq<PeerV>|
            s.len() > 0 && ids_full(s) && b@.skip(pos as int) == peers_doc(s) implies midiv
            == hex_bytes(s[0].id) && b@.skip(q3 as int) == peers_doc(s.drop_first()) by {
            assert(starts_with_at(b@, q2 as int, quoted_line(lit_id(), midiv)));
            assert(b@.skip(q2 as int) == quoted_line(lit_id(), hex_bytes(s[0].id)) + peers_doc(
                s.drop_first(),
            ));
            lemma_quoted_unique(b@, q2 as int, lit_id(), midiv, hex_bytes(s[0].id));
            lemma_skip_split(
                b@,
                q2 as int,
                quoted_line(lit_id(), hex_bytes(s[0].id)),
                peers_doc(s.drop_first()),
            );
            assert(q3 == q2 + quoted_line(lit_id(), midiv).len());
        }
    }
    let id_bytes = match parse_hex(&midi) {
        Some(ib) => ib,
        None => {
            proof {
                assert forall|s: Seq<PeerV>|
                    s.len() > 0 && ids_full(s) implies b@.skip(pos as int) != peers_doc(s) by {
                    if b@.skip(pos as int) == peers_doc(s) {
                        assert(midiv == hex_bytes(s[0].id));
                    }
                }
            }
            return None;
        },
    };
    if id_bytes.len() != ID_LEN {
        proof {
            assert forall|s: Seq<PeerV>|
                s.len() > 0 && ids_full(s) implies b@.skip(pos as int) != peers_doc(s) by {
                if b@.skip(pos as int) == peers_doc(s) {
                    lemma_hex_bytes_injective(id_bytes@, s[0].id);
                }
            }
        }
        return None;
    }
    let peer = Peer { name: pname, id: EndpointId::from_bytes(id_bytes) };
    proof {
        assert(b@.subrange(pos as int, q3 as int) =~= peer_block(peer@)) by {
            assert(midnv == esc(vstd::utf8::encode_utf8(peer@.name)));
            assert(midiv == hex_bytes(peer@.id));
            assert forall|k: int| 0 <= k < q3 - pos implies b@.subrange(pos as int, q3 as int)[k]
                == peer_block(peer@)[k] by {
                if k < q1 - pos {
                    assert(b@.subrange(pos as int, q1 as int)[k] == b@[pos + k]);
                } else if k < q2 - pos {
                    assert(b@.subrange(q1 as int, q2 as int)[k - (q1 - pos)] == b@[pos + k]);
                } else {
                    assert(b@.subrange(q2 as int, q3 as int)[k - (q2 - pos)] == b@[pos + k]);
                }
            }
        }
        assert forall|s: Seq<PeerV>|
            s.len() > 0 && ids_full(s) && b@.skip(pos as int) == peers_doc(s) implies s[0] == peer@
            && b@.skip(q3 as int) == peers_doc(s.drop_first()) by {
            lemma_hex_bytes_injective(id_bytes@, s[0].id);
        }
    }
    Some((peer, q3))
}

/// Parses a stored document. Returns the configuration whose rendering is
/// exactly the buffer, and `None` when the buffer renders no storable
/// configuration.
#[verifier::rlimit(80)]
pub fn parse_config_doc(b: &Vec<u8>) -> (r: Option<Config>)
    ensures
        match r {
            Some(c) => storable(c@) && b@ == render_config(c@),
            None => forall|v: ConfigV| storable(v) ==> b@ != render_config(v),
        },
{
    proof {
        lemma_lits_nl_free();
        assert forall|v: ConfigV|
            storable(v) && b@ == render_config(v) implies starts_with_at(
            b@,
            0,
            quoted_line(lit_key(), hex_bytes(v.key)),
        ) && nl_free(hex_bytes(v.key)) by {
            lemma_hex_nl_free(v.key);
            let q = quoted_line(lit_key(), hex_bytes(v.key));
            let rest = quoted_line(lit_name(), esc(vstd::utf8::encode_utf8(v.name))) + tdir_doc(
                v.target_dir,
            ) + peers_doc(v.peers);
            assert(b@ =~= q + rest);
            lemma_starts_with_self(b@);
            lemma_starts_with_split(b@, 0, q, rest);
        }
    }
    let kp = lit_key_vec();
    let key_line = parse_quoted_line(b, 0, &kp);
    let (mid1, p1) = match key_line {
        Some(p) => p,
        None => {
            return None;
        },
    };
    let key = match parse_hex(&mid1) {
        Some(k) => k,
        None => {
            proof {
                assert forall|v: ConfigV| storable(v) implies b@ != render_config(v) by {
                    if b@ == render_config(v) {
                        assert(starts_with_at(b@, 0, quoted_line(lit_key(), mid1@)));
                        lemma_quoted_unique(b@, 0, lit_key(), mid1@, hex_bytes(v.key));
                    }
                }
            }
            return None;
        },
    };
    if key.len() != KEY_LEN {
        proof {
            assert forall|v: ConfigV| storable(v) implies b@ != render_config(v) by {
                if b@ == render_config(v) {
                    assert(starts_with_at(b@, 0, quoted_line(lit_key(), mid1@)));
                    lemma_quoted_unique(b@, 0, lit_key(), mid1@, hex_bytes(v.key));
                    lemma_hex_bytes_injective(key@, v.key);
                }
            }
        }
        return None;
    }
    proof {
        // Any storable rendering of this buffer carries this key, and its
        // name line starts exactly at `p1`.
        assert forall|v: ConfigV|
            storable(v) && b@ == render_config(v) implies v.key == key@ && starts_with_at(
            b@,
            p1 as int,
            quoted_line(lit_name(), esc(vstd::utf8::encode_utf8(v.name))),
        ) && nl_free(esc(vstd::utf8::encode_utf8(v.name))) by {
            assert(starts_with_at(b@, 0, quoted_line(lit_key(), mid1@)));
            lemma_quoted_unique(b@, 0, lit_key(), mid1@, hex_bytes(v.key));
            lemma_hex_bytes_injective(key@, v.key);
            lemma_esc_clean(vstd::utf8::encode_utf8(v.name));
            let q = quoted_line(lit_key(), hex_bytes(v.key));
            let q2 = quoted_line(lit_name(), esc(vstd::utf8::encode_utf8(v.name)));
            let rest = tdir_doc(v.target_dir) + peers_doc(v.peers);
            assert(b@ =~= q + (q2 + rest));
            lemma_starts_with_self(b@);
            lemma_starts_with_split(b@, 0, q, q2 + rest);
            lemma_starts_with_split(b@, q.len() as int, q2, rest);
            assert(q.len() == p1);
        }
    }
    let np = lit_name_vec();
    let name_line = parse_quoted_line(b, p1, &np);
    let (mid2, p2) = match name_line {
        Some(p) => p,
        None => {
            return None;
        },
    };
    let ghost mid2v = mid2@;
    let name_bytes = match unesc(&mid2) {
        Some(nb) => nb,
        None => {
            proof {
                assert forall|v: ConfigV| storable(v) implies b@ != render_config(v) by {
                    if b@ == render_config(v) {
                        assert(starts_with_at(b@, p1 as int, quoted_line(lit_name(), mid2v)));
                        lemma_quoted_unique(
                            b@,
                            p1 as int,
                            lit_name(),
                            mid2v,
                            esc(vstd::utf8::encode_utf8(v.name)),
                        );
                    }
                }
            }
            return None;
        },
    };
    let ghost nbv = name_bytes@;
    let name = match crate::wire::string_from_utf8(name_bytes) {
        Some(n) => n,
        None => {
            proof {
                assert forall|v: ConfigV| storable(v) implies b@ != render_config(v) by {
                    if b@ == render_config(v) {
                        assert(starts_with_at(b@, p1 as int, quoted_line(lit_name(), mid2v)));
                        lemma_quoted_unique(
                            b@,
                            p1 as int,
                            lit_name(),
                            mid2v,
                            esc(vstd::utf8::encode_utf8(v.name)),
                        );
                        lemma_esc_injective(nbv, vstd::utf8::encode_utf8(v.name));
                        vstd::utf8::encode_utf8_valid_utf8(v.name);
                    }
                }
            }
            return None;
        },
    };
    proof {
        // The name decodes what the line escaped, so rendering it escapes
        // back to the same line; any storable rendering agrees up to `p2`.
        vstd::utf8::decode_utf8_encode_utf8(nbv);
        assert(vstd::utf8::encode_utf8(name@) == nbv);
        assert forall|v: ConfigV|
            storable(v) && b@ == render_config(v) implies v.key == key@ && v.name == name@
            && b@.skip(p2 as int) == tdir_doc(v.target_dir) + peers_doc(v.peers) by {
            assert(starts_with_at(b@, p1 as int, quoted_line(lit_name(), mid2v)));
            lemma_quoted_unique(
                b@,
                p1 as int,
                lit_name(),
                mid2v,
                esc(vstd::utf8::encode_utf8(v.name)),
            );
            lemma_esc_injective(nbv, vstd::utf8::encode_utf8(v.name));
            vstd::utf8::encode_utf8_decode_utf8(v.name);
            let q = quoted_line(lit_key(), hex_bytes(v.key));
            let q2 = quoted_line(lit_name(), esc(vstd::utf8::encode_utf8(v.name)));
            let rest = tdir_doc(v.target_dir) + peers_doc(v.peers);
            assert(b@ =~= q + q2 + rest);
            assert(q.len() + q2.len() == p2);
            assert(b@.skip(p2 as int) =~= rest) by {
                assert forall|k: int| 0 <= k < rest.len() implies b@.skip(p2 as int)[k] == rest[k]
                    by {
                    assert(b@.skip(p2 as int)[k] == b@[p2 + k]);
                    assert(b@[p2 + k] == (q + q2 + rest)[q.len() + q2.len() + k]);
                }
            }
        }
    }
    let ghost head2 = b@.subrange(0, p2 as int);
    proof {
        assert(head2 =~= quoted_line(lit_key(), hex_bytes(key@)) + quoted_line(
            lit_name(),
            esc(vstd::utf8::encode_utf8(name@)),
        )) by {
            assert forall|k: int| 0 <= k < p2 implies head2[k] == (quoted_line(
                lit_key(),
                hex_bytes(key@),
            ) + quoted_line(lit_name(), esc(vstd::utf8::encode_utf8(name@))))[k] by {
                if k < p1 {
                    assert(b@.subrange(0, p1 as int)[k] == b@[k]);
                } else {
                    assert(b@.subrange(p1 as int, p2 as int)[k - p1] == b@[k]);
                }
            }
        }
    }
    let mut pos: usize = p2;
    let mut target_dir: Option<String> = None;
    let ghost mut tdv: Option<Seq<char>> = Option::None;
    if pos < b.len() && b[pos] == 0x74 {
        let tp = lit_tdir_vec();
        let tdir_line = parse_quoted_line(b, pos, &tp);
        proof {
            // Here every storable rendering has a directory line: without
            // one, the byte at `pos` would open the peer section.
            assert forall|v: ConfigV|
                storable(v) && b@ == render_config(v) implies v.target_dir is Some by {
                if v.target_dir is None {
                    let s = v.peers;
                    assert(b@.skip(p2 as int) =~= peers_doc(s));
                    assert(b@.skip(p2 as int).len() > 0);
                    lemma_peers_doc_len(s);
                    assert(s.len() > 0);
                    assert(peers_doc(s)[0] == lit_peers()[0]);
                    assert(b@.skip(p2 as int)[0] == b@[p2 as int]);
                }
            }
        }
        let (mid3, p3) = match tdir_line {
            Some(p) => p,
            None => {
                proof {
                    assert forall|v: ConfigV| storable(v) implies b@ != render_config(v) by {
                        if b@ == render_config(v) {
                            assert(v.target_dir is Some);
                            assert(b@.skip(p2 as int) == tdir_doc(v.target_dir) + peers_doc(
                                v.peers,
                            ));
                            let d = v.target_dir->0;
                            lemma_esc_clean(vstd::utf8::encode_utf8(d));
                            lemma_skip_split(
                                b@,
                                p2 as int,
                                quoted_line(lit_tdir(), esc(vstd::utf8::encode_utf8(d))),
                                peers_doc(v.peers),
                            );
                            assert(nl_free(esc(vstd::utf8::encode_utf8(d))));
                            assert(pos == p2);
                            assert(starts_with_at(
                                b@,
                                pos as int,
                                quoted_line(lit_tdir(), esc(vstd::utf8::encode_utf8(d))),
                            ));
                            assert(false);
                        }
                    }
                }
                return None;
            },
        };
        let ghost mid3v = mid3@;
        proof {
            assert forall|v: ConfigV|
                storable(v) && b@ == render_config(v) implies mid3v == esc(
                vstd::utf8::encode_utf8(v.target_dir->0),
            ) by {
                assert(v.target_dir is Some);
                assert(b@.skip(p2 as int) == tdir_doc(v.target_dir) + peers_doc(v.peers));
                let d = v.target_dir->0;
                lemma_esc_clean(vstd::utf8::encode_utf8(d));
                lemma_skip_split(
                    b@,
                    p2 as int,
                    quoted_line(lit_tdir(), esc(vstd::utf8::encode_utf8(d))),
                    peers_doc(v.peers),
                );
                assert(starts_with_at(b@, pos as int, quoted_line(lit_tdir(), mid3v)));
                lemma_quoted_unique(
                    b@,
                    pos as int,
                    lit_tdir(),
                    mid3v,
                    esc(vstd::utf8::encode_utf8(d)),
                );
            }
        }
        let dir_bytes = match unesc(&mid3) {
            Some(db) => db,
            None => {
                proof {
                    assert forall|v: ConfigV| storable(v) implies b@ != render_config(v) by {
                        if b@ == render_config(v) {
                            assert(mid3v == esc(vstd::utf8::encode_utf8(v.target_dir->0)));
                        }
                    }
                }
                return None;
            },
        };
        let ghost dbv = dir_bytes@;
        let dir = match crate::wire::string_from_utf8(dir_bytes) {
            Some(d) => d,
            None => {
                proof {
                    assert forall|v: ConfigV| storable(v) implies b@ != render_config(v) by {
                        if b@ == render_config(v) {
                            lemma_esc_injective(dbv, vstd::utf8::encode_utf8(v.target_dir->0));
                            vstd::utf8::encode_utf8_valid_utf8(v.target_dir->0);
                        }
                    }
                }
                return None;
            },
        };
        proof {
            vstd::utf8::decode_utf8_encode_utf8(dbv);
            tdv = Option::Some(dir@);
        }
        target_dir = Some(dir);
        pos = p3;
    } else {
        proof {
            // No directory line: any storable rendering has none either.
            assert forall|v: ConfigV|
                storable(v) && b@ == render_config(v) implies v.target_dir is None by {
                if v.target_dir is Some {
                    let d = v.target_dir->0;
                    lemma_esc_clean(vstd::utf8::encode_utf8(d));
                    let q3 = quoted_line(lit_tdir(), esc(vstd::utf8::encode_utf8(d)));
                    lemma_skip_split(b@, p2 as int, q3, peers_doc(v.peers));
                    assert(b@.subrange(p2 as int, p2 + q3.len() as int)[0] == q3[0]);
                    assert(b@[p2 as int] == 0x74);
                }
            }
        }
    }
    let ghost head = b@.subrange(0, pos as int);
    proof {
        assert(head =~= head2 + tdir_doc(tdv)) by {
            assert forall|k: int| 0 <= k < pos implies head[k] == (head2 + tdir_doc(tdv))[k] by {
                if k >= p2 {
                    assert(b@.subrange(p2 as int, pos as int)[k - p2] == b@[k]);
                }
            }
        }
        // Every storable rendering leaves exactly a peer section after `pos`.
        assert forall|v: ConfigV|
            storable(v) && b@ == render_config(v) implies exists|s: Seq<PeerV>|
            ids_full(s) && b@.skip(pos as int) == peers_doc(s) by {
            match v.target_dir {
                Option::Some(d) => {
                    lemma_skip_split(
                        b@,
                        p2 as int,
                        quoted_line(lit_tdir(), esc(vstd::utf8::encode_utf8(d))),
                        peers_doc(v.peers),
                    );
                    assert(ids_full(v.peers) && b@.skip(pos as int) == peers_doc(v.peers));
                },
                Option::None => {
                    assert(ids_full(v.peers) && b@.skip(pos as int) == peers_doc(v.peers));
                },
            }
        }
    }
    let mut peers: Vec<Peer> = Vec::new();
    proof {
        assert(peers_doc(peers_view(peers@)) =~= Seq::<u8>::empty());
        assert(b@.subrange(0, pos as int) =~= head + peers_doc(peers_view(peers@)));
    }
    while pos < b.len()
        invariant
            pos <= b@.len(),
            ids_full(peers_view(peers@)),
            b@.subrange(0, pos as int) == head + peers_doc(peers_view(peers@)),
            forall|v: ConfigV| storable(v) && b@ == render_config(v) ==> exists|s: Seq<PeerV>|
                ids_full(s) && b@.skip(pos as int) == peers_doc(s),
        decreases b@.len() - pos,
    {
        let blk = parse_peer_block(b, pos);
        match blk {
            None => {
                proof {
                    assert forall|v: ConfigV| storable(v) implies b@ != render_config(v) by {
                        if b@ == render_config(v) {
                            let s = choose|s: Seq<PeerV>|
                                ids_full(s) && b@.skip(pos as int) == peers_doc(s);
                            assert(b@.skip(pos as int).len() > 0);
                            lemma_peers_doc_len(s);
                            assert(s.len() > 0);
                        }
                    }
                }
                return None;
            },
            Some((peer, q3)) => {
                let ghost parsed_before = peers_view(peers@);
                let ghost new_peer = peer@;
                peers.push(peer);
                proof {
                    assert(peers_view(peers@) =~= parsed_before.push(new_peer)) by {
                        assert forall|k: int|
                            0 <= k < parsed_before.len() + 1 implies peers_view(peers@)[k]
                            == parsed_before.push(new_peer)[k] by {
                            if k < parsed_before.len() {
                                assert(peers_view(peers@)[k] == parsed_before[k]);
                            }
                        }
                    }
                    lemma_peers_doc_snoc(parsed_before, new_peer);
                    assert(b@.subrange(0, pos as int).len() == pos);
                    assert((head + peers_doc(parsed_before)).len() == head.len() + peers_doc(
                        parsed_before,
                    ).len());
                    assert(head.len() + peers_doc(parsed_before).len() == pos);
                    assert(q3 - pos == peer_block(new_peer).len());
                    assert(b@.subrange(0, q3 as int) =~= head + peers_doc(peers_view(peers@))) by {
                        let whole = head + peers_doc(peers_view(peers@));
                        assert(peers_doc(peers_view(peers@)) == peers_doc(parsed_before)
                            + peer_block(new_peer));
                        assert(whole.len() == q3);
                        assert forall|k: int| 0 <= k < q3 implies b@.subrange(0, q3 as int)[k]
                            == whole[k] by {
                            if k < pos {
                                assert(b@.subrange(0, pos as int)[k] == b@[k]);
                                assert((head + peers_doc(parsed_before))[k] == whole[k]) by {
                                    if k >= head.len() {
                                        assert(whole[k] == peers_doc(peers_view(peers@))[k
                                            - head.len()]);
                                        assert(peers_doc(peers_view(peers@))[k - head.len()]
                                            == peers_doc(parsed_before)[k - head.len()]);
                                    }
                                }
                            } else {
                                assert(b@.subrange(pos as int, q3 as int)[k - pos] == b@[k]);
                                assert(whole[k] == peers_doc(peers_view(peers@))[k - head.len()]);
                                assert(peers_doc(peers_view(peers@))[k - head.len()] == peer_block(
                                    new_peer,
                                )[k - pos]);
                            }
                        }
                    }
                    assert forall|v: ConfigV|
                        storable(v) && b@ == render_config(v) implies exists|s2: Seq<PeerV>|
                        ids_full(s2) && b@.skip(q3 as int) == peers_doc(s2) by {
                        let s = choose|s: Seq<PeerV>|
                            ids_full(s) && b@.skip(pos as int) == peers_doc(s);
                        assert(b@.skip(pos as int).len() > 0);
                        lemma_peers_doc_len(s);
                        assert(s.len() > 0);
                        assert(ids_full(s.drop_first())) by {
                            assert forall|i: int|
                                0 <= i < s.drop_first().len() implies (#[trigger] s.drop_first()[
                            i]).id.len() == ID_LEN by {
                                assert(s.drop_first()[i] == s[i + 1]);
                            }
                        }
                        assert(ids_full(s.drop_first()) && b@.skip(q3 as int) == peers_doc(
                            s.drop_first(),
                        ));
                    }
                }
                pos = q3;
            },
        }
    }
    proof {
        assert(b@.subrange(0, b@.len() as int) =~= b@);
    }
    let c = Config { key, name, target_dir, peers };
    proof {
        assert(c@.target_dir == tdv);
        assert(render_config(c@) =~= head + peers_doc(peers_view(peers@))) by {
            assert(head2 =~= quoted_line(lit_key(), hex_bytes(c@.key)) + quoted_line(
                lit_name(),
                esc(vstd::utf8::encode_utf8(c@.name)),
            ));
        }
        assert(b@ == render_config(c@));
    }
    Some(c)
}

} // verus!
