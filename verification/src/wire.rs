//! Low-level wire primitives shared by the three application protocols:
//! little-endian base-128 variable-length integers, length-prefixed byte
//! arrays, and length-prefixed UTF-8 strings.
//!
//! Every encoder is proved to emit exactly its specification sequence, and
//! every reader is proved sound (whatever it accepts is a real encoding) and
//! complete (it accepts every real encoding).

use vstd::prelude::*;

verus! {

/// The variable-length encoding of a natural number: seven value bits per
/// byte, least significant first; the high bit marks a continuation byte.
/// The encoding is minimal (no trailing zero groups), hence injective.
pub open spec fn enc_varint(x: nat) -> Seq<u8>
    decreases x,
{
    if x < 128 {
        seq![x as u8]
    } else {
        seq![(x % 128 + 128) as u8] + enc_varint(x / 128)
    }
}

/// A byte array on the wire: its length as a varint, then the raw bytes.
pub open spec fn enc_bytes(t: Seq<u8>) -> Seq<u8> {
    enc_varint(t.len()) + t
}

/// A string on the wire: its UTF-8 encoding as a length-prefixed byte array.
pub open spec fn enc_str(s: Seq<char>) -> Seq<u8> {
    enc_bytes(vstd::utf8::encode_utf8(s))
}

/// `t` occurs in `s` starting at index `pos`.
pub open spec fn starts_with_at(s: Seq<u8>, pos: int, t: Seq<u8>) -> bool {
    &&& 0 <= pos
    &&& pos + t.len() <= s.len()
    &&& s.subrange(pos, pos + t.len()) == t
}

pub proof fn lemma_enc_varint_first(x: nat)
    ensures
        enc_varint(x).len() >= 1,
        x < 128 ==> enc_varint(x) =~= seq![x as u8],
        x >= 128 ==> enc_varint(x)[0] >= 128 && enc_varint(x)[0] == (x % 128) + 128
            && enc_varint(x) =~= seq![enc_varint(x)[0]] + enc_varint(x / 128),
        x < 128 ==> enc_varint(x)[0] < 128,
{
}

/// If `[a] + t` occurs at `pos`, then `a` is at `pos` and `t` at `pos + 1`.
pub proof fn lemma_starts_with_cons(s: Seq<u8>, pos: int, a: u8, t: Seq<u8>)
    requires
        starts_with_at(s, pos, seq![a] + t),
    ensures
        s[pos] == a,
        starts_with_at(s, pos + 1, t),
{
    let u = seq![a] + t;
    assert(s.subrange(pos, pos + u.len() as int)[0] == a);
    assert(s.subrange(pos + 1, pos + 1 + t.len() as int) =~= t) by {
        assert forall|i: int| 0 <= i < t.len() implies s.subrange(
            pos + 1,
            pos + 1 + t.len() as int,
        )[i] == t[i] by {
            assert(s.subrange(pos, pos + u.len() as int)[i + 1] == u[i + 1]);
        }
    }
}

/// The converse: placing `a` at `pos` and `t` right after it places `[a] + t`.
pub proof fn lemma_starts_with_uncons(s: Seq<u8>, pos: int, a: u8, t: Seq<u8>)
    requires
        0 <= pos < s.len(),
        s[pos] == a,
        starts_with_at(s, pos + 1, t),
    ensures
        starts_with_at(s, pos, seq![a] + t),
{
    let u = seq![a] + t;
    assert(s.subrange(pos, pos + u.len() as int) =~= u) by {
        assert forall|i: int| 0 <= i < u.len() implies s.subrange(pos, pos + u.len() as int)[i]
            == u[i] by {
            if i >= 1 {
                assert(s.subrange(pos + 1, pos + 1 + t.len() as int)[i - 1] == t[i - 1]);
            }
        }
    }
}

/// Minimal varint encodings are prefix-free: two encodings starting at the
/// same position encode the same number.
pub proof fn lemma_varint_prefix_unique(s: Seq<u8>, pos: int, x: nat, y: nat)
    requires
        starts_with_at(s, pos, enc_varint(x)),
        starts_with_at(s, pos, enc_varint(y)),
    ensures
        x == y,
    decreases x,
{
    lemma_enc_varint_first(x);
    lemma_enc_varint_first(y);
    if x < 128 && y < 128 {
        assert(s[pos] == x as u8 && s[pos] == y as u8);
    } else if x < 128 {
        assert(s[pos] == x as u8);
        lemma_starts_with_cons(s, pos, enc_varint(y)[0], enc_varint(y / 128));
    } else if y < 128 {
        assert(s[pos] == y as u8);
        lemma_starts_with_cons(s, pos, enc_varint(x)[0], enc_varint(x / 128));
    } else {
        lemma_starts_with_cons(s, pos, enc_varint(x)[0], enc_varint(x / 128));
        lemma_starts_with_cons(s, pos, enc_varint(y)[0], enc_varint(y / 128));
        assert(x % 128 == y % 128);
        assert(x / 128 < x) by (nonlinear_arith)
            requires x >= 128,
        ;
        lemma_varint_prefix_unique(s, pos + 1, x / 128, y / 128);
        assert(x == 128 * (x / 128) + x % 128) by (nonlinear_arith);
        assert(y == 128 * (y / 128) + y % 128) by (nonlinear_arith);
    }
}

/// Appends the varint encoding of `x` to `out`.
pub fn write_varint(out: &mut Vec<u8>, x: u64)
    ensures
        final(out)@ =~= old(out)@ + enc_varint(x as nat),
{
    let ghost base = out@;
    let mut cur: u64 = x;
    while cur >= 128
        invariant
            base + enc_varint(x as nat) =~= out@ + enc_varint(cur as nat),
        decreases cur,
    {
        let b: u8 = ((cur % 128) + 128) as u8;
        out.push(b);
        proof {
            assert(cur / 128 < cur) by (nonlinear_arith)
                requires cur >= 128,
            ;
            assert(enc_varint(cur as nat) =~= seq![b] + enc_varint((cur / 128) as nat));
        }
        cur = cur / 128;
    }
    out.push(cur as u8);
    proof {
        assert(enc_varint(cur as nat) =~= seq![cur as u8]);
    }
}

/// Reads a varint at `pos`. Returns the value and the index one past it, or
/// `None` when no `u64`-sized minimal varint starts there.
pub fn read_varint(b: &Vec<u8>, pos: usize) -> (r: Option<(u64, usize)>)
    requires
        pos <= b@.len(),
    ensures
        match r {
            Some(p) => pos < p.1 <= b@.len() && starts_with_at(b@, pos as int, enc_varint(p.0 as nat))
                && p.1 - pos == enc_varint(p.0 as nat).len(),
            None => forall|x: u64| !starts_with_at(b@, pos as int, enc_varint(x as nat)),
        },
    decreases b@.len() - pos,
{
    if pos >= b.len() {
        proof {
            assert forall|x: u64| !starts_with_at(b@, pos as int, enc_varint(x as nat)) by {
                lemma_enc_varint_first(x as nat);
            }
        }
        return None;
    }
    let byte = b[pos];
    if byte < 128 {
        proof {
            lemma_enc_varint_first(byte as nat);
            assert(b@.subrange(pos as int, pos + 1) =~= seq![byte]);
        }
        Some((byte as u64, pos + 1))
    } else {
        let low: u64 = (byte - 128) as u64;
        let rec = read_varint(b, pos + 1);
        proof {
            // Any encoding at `pos` must be of a value >= 128 whose upper part
            // is encoded at `pos + 1`.
            assert forall|x: u64| starts_with_at(b@, pos as int, enc_varint(x as nat))
                implies x >= 128 && starts_with_at(b@, pos + 1, enc_varint((x as nat) / 128))
                && (x as nat) % 128 == low by {
                lemma_enc_varint_first(x as nat);
                if x < 128 {
                    lemma_starts_with_cons(b@, pos as int, x as u8, seq![]);
                } else {
                    lemma_starts_with_cons(
                        b@,
                        pos as int,
                        enc_varint(x as nat)[0],
                        enc_varint((x as nat) / 128),
                    );
                }
            }
        }
        match rec {
            None => {
                proof {
                    assert forall|x: u64| !starts_with_at(b@, pos as int, enc_varint(x as nat)) by {
                        if starts_with_at(b@, pos as int, enc_varint(x as nat)) {
                            assert(x / 128 <= x);
                            assert((x as nat) / 128 == (x / 128) as nat);
                            assert(starts_with_at(b@, pos + 1, enc_varint((x / 128) as nat)));
                        }
                    }
                }
                None
            },
            Some((hi, end)) => {
                if hi == 0 || hi > (u64::MAX - low) / 128 {
                    proof {
                        assert forall|x: u64| !starts_with_at(b@, pos as int, enc_varint(x as nat))
                            by {
                            if starts_with_at(b@, pos as int, enc_varint(x as nat)) {
                                assert((x as nat) / 128 == (x / 128) as nat);
                                lemma_varint_prefix_unique(
                                    b@,
                                    pos + 1,
                                    (x / 128) as nat,
                                    hi as nat,
                                );
                                assert(x / 128 == hi);
                                assert(x >= 128 ==> x / 128 >= 1) by (nonlinear_arith);
                                assert(x == 128 * (x / 128) + x % 128) by (nonlinear_arith);
                                assert(hi <= (u64::MAX - low) / 128) by (nonlinear_arith)
                                    requires
                                        128 * (hi as int) + (low as int) <= u64::MAX,
                                        0 <= low < 128,
                                        0 <= hi,
                                ;
                            }
                        }
                    }
                    None
                } else {
                    proof {
                        assert(128 * (hi as int) <= u64::MAX - low) by (nonlinear_arith)
                            requires
                                0 < hi as int <= ((u64::MAX - low) as int) / 128,
                                0 <= low < 128,
                        ;
                    }
                    let x: u64 = 128 * hi + low;
                    proof {
                        assert((x as nat) % 128 == low as nat && (x as nat) / 128 == hi as nat)
                            by (nonlinear_arith)
                            requires
                                x == 128 * hi + low,
                                0 <= low < 128,
                                hi >= 1,
                        ;
                        assert(x >= 128) by (nonlinear_arith)
                            requires
                                x == 128 * hi + low,
                                hi >= 1,
                                low >= 0,
                        ;
                        lemma_enc_varint_first(x as nat);
                        assert(enc_varint(x as nat)[0] == byte);
                        lemma_starts_with_uncons(
                            b@,
                            pos as int,
                            byte,
                            enc_varint((x as nat) / 128),
                        );
                        assert(enc_varint(x as nat) =~= seq![byte] + enc_varint((x as nat) / 128));
                    }
                    Some((x, end))
                }
            },
        }
    }
}

/// Occurrence of a concatenation splits into occurrences of its parts.
pub proof fn lemma_starts_with_split(s: Seq<u8>, pos: int, u: Seq<u8>, v: Seq<u8>)
    requires
        starts_with_at(s, pos, u + v),
    ensures
        starts_with_at(s, pos, u),
        starts_with_at(s, pos + u.len(), v),
{
    let w = u + v;
    assert(s.subrange(pos, pos + u.len() as int) =~= u) by {
        assert forall|i: int| 0 <= i < u.len() implies s.subrange(pos, pos + u.len() as int)[i]
            == u[i] by {
            assert(s.subrange(pos, pos + w.len() as int)[i] == w[i]);
        }
    }
    assert(s.subrange(pos + u.len(), pos + u.len() + v.len() as int) =~= v) by {
        assert forall|i: int| 0 <= i < v.len() implies s.subrange(
            pos + u.len(),
            pos + u.len() + v.len() as int,
        )[i] == v[i] by {
            assert(s.subrange(pos, pos + w.len() as int)[u.len() + i] == w[u.len() + i]);
        }
    }
}

/// Adjacent occurrences of two sequences join into one of their concatenation.
pub proof fn lemma_starts_with_join(s: Seq<u8>, pos: int, u: Seq<u8>, v: Seq<u8>)
    requires
        starts_with_at(s, pos, u),
        starts_with_at(s, pos + u.len(), v),
    ensures
        starts_with_at(s, pos, u + v),
{
    let w = u + v;
    assert(s.subrange(pos, pos + w.len() as int) =~= w) by {
        assert forall|i: int| 0 <= i < w.len() implies s.subrange(pos, pos + w.len() as int)[i]
            == w[i] by {
            if i < u.len() {
                assert(s.subrange(pos, pos + u.len() as int)[i] == u[i]);
            } else {
                assert(s.subrange(pos + u.len(), pos + u.len() + v.len() as int)[i - u.len()]
                    == v[i - u.len()]);
            }
        }
    }
}

/// Length-prefixed byte arrays starting at the same position are equal.
pub proof fn lemma_bytes_prefix_unique(s: Seq<u8>, pos: int, t1: Seq<u8>, t2: Seq<u8>)
    requires
        starts_with_at(s, pos, enc_bytes(t1)),
        starts_with_at(s, pos, enc_bytes(t2)),
    ensures
        t1 == t2,
{
    lemma_starts_with_split(s, pos, enc_varint(t1.len()), t1);
    lemma_starts_with_split(s, pos, enc_varint(t2.len()), t2);
    lemma_varint_prefix_unique(s, pos, t1.len(), t2.len());
    let e = enc_varint(t1.len()).len() as int;
    assert(t1 =~= s.subrange(pos + e, pos + e + t1.len() as int));
    assert(t2 =~= s.subrange(pos + e, pos + e + t2.len() as int));
}

/// Appends the length-prefixed encoding of `data` to `out`.
pub fn write_bytes(out: &mut Vec<u8>, data: &Vec<u8>)
    ensures
        final(out)@ =~= old(out)@ + enc_bytes(data@),
{
    let n: u64 = data.len() as u64;
    write_varint(out, n);
    let ghost mid = out@;
    let mut i: usize = 0;
    while i < data.len()
        invariant
            i <= data@.len(),
            out@ =~= mid + data@.subrange(0, i as int),
        decreases data@.len() - i,
    {
        out.push(data[i]);
        proof {
            assert(data@.subrange(0, i + 1) =~= data@.subrange(0, i as int) + seq![data@[i as int]]);
        }
        i = i + 1;
    }
    proof {
        assert(data@.subrange(0, data@.len() as int) =~= data@);
    }
}

/// Reads a length-prefixed byte array at `pos`.
pub fn read_bytes(b: &Vec<u8>, pos: usize) -> (r: Option<(Vec<u8>, usize)>)
    requires
        pos <= b@.len(),
    ensures
        match r {
            Some(p) => pos < p.1 <= b@.len() && starts_with_at(b@, pos as int, enc_bytes(p.0@))
                && p.1 - pos == enc_bytes(p.0@).len(),
            None => forall|t: Seq<u8>| t.len() <= u64::MAX ==> !starts_with_at(
                b@,
                pos as int,
                enc_bytes(t),
            ),
        },
{
    let head = read_varint(b, pos);
    match head {
        None => {
            proof {
                assert forall|t: Seq<u8>| t.len() <= u64::MAX implies !starts_with_at(
                    b@,
                    pos as int,
                    enc_bytes(t),
                ) by {
                    if starts_with_at(b@, pos as int, enc_bytes(t)) {
                        lemma_starts_with_split(b@, pos as int, enc_varint(t.len()), t);
                        let x: u64 = t.len() as u64;
                        assert(starts_with_at(b@, pos as int, enc_varint(x as nat)));
                    }
                }
            }
            None
        },
        Some((n, mid)) => {
            if n > (b.len() - mid) as u64 {
                proof {
                    assert forall|t: Seq<u8>| t.len() <= u64::MAX implies !starts_with_at(
                        b@,
                        pos as int,
                        enc_bytes(t),
                    ) by {
                        if starts_with_at(b@, pos as int, enc_bytes(t)) {
                            lemma_starts_with_split(b@, pos as int, enc_varint(t.len()), t);
                            lemma_varint_prefix_unique(b@, pos as int, t.len(), n as nat);
                        }
                    }
                }
                None
            } else {
                let count: usize = n as usize;
                let mut v: Vec<u8> = Vec::new();
                let mut i: usize = 0;
                while i < count
                    invariant
                        i <= count,
                        mid + count <= b@.len(),
                        b@.len() <= usize::MAX,
                        v@ =~= b@.subrange(mid as int, mid + i),
                    decreases count - i,
                {
                    v.push(b[mid + i]);
                    proof {
                        assert(b@.subrange(mid as int, mid + i + 1) =~= b@.subrange(
                            mid as int,
                            mid + i,
                        ) + seq![b@[mid + i]]);
                    }
                    i = i + 1;
                }
                proof {
                    lemma_starts_with_join(b@, pos as int, enc_varint(n as nat), v@);
                }
                Some((v, mid + count))
            }
        },
    }
}

/// Every sequence occurs at its own start.
pub proof fn lemma_starts_with_self(s: Seq<u8>)
    ensures
        starts_with_at(s, 0, s),
{
    assert(s.subrange(0, s.len() as int) =~= s);
}

/// Reads exactly `k` raw bytes at `pos`.
pub fn read_fixed(b: &Vec<u8>, pos: usize, k: usize) -> (r: Option<(Vec<u8>, usize)>)
    requires
        pos <= b@.len(),
    ensures
        match r {
            Some(p) => p.0@.len() == k && p.1 == pos + k && starts_with_at(b@, pos as int, p.0@),
            None => pos + k > b@.len(),
        },
{
    if k > b.len() - pos {
        return None;
    }
    let mut v: Vec<u8> = Vec::new();
    let mut i: usize = 0;
    while i < k
        invariant
            i <= k,
            pos + k <= b@.len(),
            b@.len() <= usize::MAX,
            v@ =~= b@.subrange(pos as int, pos + i),
        decreases k - i,
    {
        v.push(b[pos + i]);
        proof {
            assert(b@.subrange(pos as int, pos + i + 1) =~= b@.subrange(pos as int, pos + i)
                + seq![b@[pos + i]]);
        }
        i = i + 1;
    }
    Some((v, pos + k))
}

/// Relies on `String::from_utf8`: succeeds exactly on valid UTF-8 input and
/// decodes those bytes.
#[verifier::external_body]
pub(crate) fn string_from_utf8(b: Vec<u8>) -> (r: Option<String>)
    ensures
        r is Some <==> vstd::utf8::valid_utf8(b@),
        r matches Some(s) ==> s@ == vstd::utf8::decode_utf8(b@),
{
    String::from_utf8(b).ok()
}

/// Appends the length-prefixed UTF-8 encoding of `s` to `out`.
pub fn write_str(out: &mut Vec<u8>, s: &String)
    ensures
        final(out)@ =~= old(out)@ + enc_str(s@),
{
    let bytes = s.as_str().as_bytes_vec();
    write_bytes(out, &bytes);
}

/// Reads a length-prefixed UTF-8 string at `pos`.
pub fn read_str(b: &Vec<u8>, pos: usize) -> (r: Option<(String, usize)>)
    requires
        pos <= b@.len(),
    ensures
        match r {
            Some(p) => pos < p.1 <= b@.len() && starts_with_at(b@, pos as int, enc_str(p.0@))
                && p.1 - pos == enc_str(p.0@).len(),
            None => forall|cs: Seq<char>| vstd::utf8::encode_utf8(cs).len() <= u64::MAX
                ==> !starts_with_at(b@, pos as int, enc_str(cs)),
        },
{
    match read_bytes(b, pos) {
        None => {
            proof {
                assert forall|cs: Seq<char>| vstd::utf8::encode_utf8(cs).len() <= u64::MAX
                    implies !starts_with_at(b@, pos as int, enc_str(cs)) by {
                    assert(enc_str(cs) == enc_bytes(vstd::utf8::encode_utf8(cs)));
                }
            }
            None
        },
        Some((bytes, end)) => {
            let ghost raw = bytes@;
            match string_from_utf8(bytes) {
                None => {
                    proof {
                        assert forall|cs: Seq<char>| vstd::utf8::encode_utf8(cs).len() <= u64::MAX
                            implies !starts_with_at(b@, pos as int, enc_str(cs)) by {
                            if starts_with_at(b@, pos as int, enc_str(cs)) {
                                lemma_bytes_prefix_unique(
                                    b@,
                                    pos as int,
                                    vstd::utf8::encode_utf8(cs),
                                    raw,
                                );
                                vstd::utf8::encode_utf8_valid_utf8(cs);
                            }
                        }
                    }
                    None
                },
                Some(st) => {
                    proof {
                        vstd::utf8::decode_utf8_encode_utf8(raw);
                        assert(enc_str(st@) == enc_bytes(raw));
                    }
                    Some((st, end))
                },
            }
        },
    }
}

/// Equal strings have equal wire encodings, and conversely.
pub proof fn lemma_enc_str_injective(s1: Seq<char>, s2: Seq<char>)
    requires
        enc_str(s1) == enc_str(s2),
    ensures
        s1 == s2,
{
    let b1 = vstd::utf8::encode_utf8(s1);
    let b2 = vstd::utf8::encode_utf8(s2);
    assert(starts_with_at(enc_str(s1), 0, enc_bytes(b1))) by {
        assert(enc_str(s1).subrange(0, enc_bytes(b1).len() as int) =~= enc_bytes(b1));
    }
    assert(starts_with_at(enc_str(s1), 0, enc_bytes(b2))) by {
        assert(enc_str(s1).subrange(0, enc_bytes(b2).len() as int) =~= enc_bytes(b2));
    }
    lemma_bytes_prefix_unique(enc_str(s1), 0, b1, b2);
    vstd::utf8::encode_utf8_decode_utf8(s1);
    vstd::utf8::encode_utf8_decode_utf8(s2);
}

} // verus!
