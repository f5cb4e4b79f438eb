//! Lowercase hexadecimal, at two levels: as characters (for display names and
//! file names) and as ASCII bytes (for the stored configuration document).

use vstd::prelude::*;

verus! {

/// The lowercase hex character for a value below 16.
pub open spec fn hex_digit(n: int) -> char {
    if n == 0 {
        '0'
    } else if n == 1 {
        '1'
    } else if n == 2 {
        '2'
    } else if n == 3 {
        '3'
    } else if n == 4 {
        '4'
    } else if n == 5 {
        '5'
    } else if n == 6 {
        '6'
    } else if n == 7 {
        '7'
    } else if n == 8 {
        '8'
    } else if n == 9 {
        '9'
    } else if n == 10 {
        'a'
    } else if n == 11 {
        'b'
    } else if n == 12 {
        'c'
    } else if n == 13 {
        'd'
    } else if n == 14 {
        'e'
    } else {
        'f'
    }
}

/// The hex spelling of a byte string, two characters per byte.
pub open spec fn hex_of(b: Seq<u8>) -> Seq<char>
    decreases b.len(),
{
    if b.len() == 0 {
        Seq::empty()
    } else {
        seq![hex_digit(b[0] as int / 16), hex_digit(b[0] as int % 16)] + hex_of(b.drop_first())
    }
}

pub proof fn lemma_hex_of_len(b: Seq<u8>)
    ensures
        hex_of(b).len() == 2 * b.len(),
    decreases b.len(),
{
    if b.len() > 0 {
        lemma_hex_of_len(b.drop_first());
    }
}

pub proof fn lemma_hex_of_snoc(b: Seq<u8>, x: u8)
    ensures
        hex_of(b.push(x)) == hex_of(b) + seq![hex_digit(x as int / 16), hex_digit(x as int % 16)],
    decreases b.len(),
{
    if b.len() == 0 {
        assert(hex_of(b) =~= Seq::<char>::empty());
        assert(b.push(x)[0] == x);
        assert(b.push(x).drop_first() =~= Seq::<u8>::empty());
        assert(hex_of(b.push(x).drop_first()) =~= Seq::<char>::empty());
        assert(hex_of(b.push(x)) =~= hex_of(b) + seq![
            hex_digit(x as int / 16),
            hex_digit(x as int % 16),
        ]);
    } else {
        assert(b.push(x).drop_first() =~= b.drop_first().push(x));
        lemma_hex_of_snoc(b.drop_first(), x);
        assert(hex_of(b.push(x)) =~= hex_of(b) + seq![
            hex_digit(x as int / 16),
            hex_digit(x as int % 16),
        ]);
    }
}

/// The one-character string for a hex digit.
fn hex_digit_str(d: u8) -> (r: &'static str)
    requires
        d < 16,
    ensures
        r@ == seq![hex_digit(d as int)],
{
    if d == 0 {
        proof {
            reveal_strlit("0");
            assert("0"@ =~= seq![hex_digit(0)]);
        }
        "0"
    } else if d == 1 {
        proof {
            reveal_strlit("1");
            assert("1"@ =~= seq![hex_digit(1)]);
        }
        "1"
    } else if d == 2 {
        proof {
            reveal_strlit("2");
            assert("2"@ =~= seq![hex_digit(2)]);
        }
        "2"
    } else if d == 3 {
        proof {
            reveal_strlit("3");
            assert("3"@ =~= seq![hex_digit(3)]);
        }
        "3"
    } else if d == 4 {
        proof {
            reveal_strlit("4");
            assert("4"@ =~= seq![hex_digit(4)]);
        }
        "4"
    } else if d == 5 {
        proof {
            reveal_strlit("5");
            assert("5"@ =~= seq![hex_digit(5)]);
        }
        "5"
    } else if d == 6 {
        proof {
            reveal_strlit("6");
            assert("6"@ =~= seq![hex_digit(6)]);
        }
        "6"
    } else if d == 7 {
        proof {
            reveal_strlit("7");
            assert("7"@ =~= seq![hex_digit(7)]);
        }
        "7"
    } else if d == 8 {
        proof {
            reveal_strlit("8");
            assert("8"@ =~= seq![hex_digit(8)]);
        }
        "8"
    } else if d == 9 {
        proof {
            reveal_strlit("9");
            assert("9"@ =~= seq![hex_digit(9)]);
        }
        "9"
    } else if d == 10 {
        proof {
            reveal_strlit("a");
            assert("a"@ =~= seq![hex_digit(10)]);
        }
        "a"
    } else if d == 11 {
        proof {
            reveal_strlit("b");
            assert("b"@ =~= seq![hex_digit(11)]);
        }
        "b"
    } else if d == 12 {
        proof {
            reveal_strlit("c");
            assert("c"@ =~= seq![hex_digit(12)]);
        }
        "c"
    } else if d == 13 {
        proof {
            reveal_strlit("d");
            assert("d"@ =~= seq![hex_digit(13)]);
        }
        "d"
    } else if d == 14 {
        proof {
            reveal_strlit("e");
            assert("e"@ =~= seq![hex_digit(14)]);
        }
        "e"
    } else {
        proof {
            reveal_strlit("f");
            assert("f"@ =~= seq![hex_digit(15)]);
        }
        "f"
    }
}

/// The hex spelling of a byte string, as a string.
pub fn to_hex_string(b: &Vec<u8>) -> (r: String)
    ensures
        r@ == hex_of(b@),
        r@.len() == 2 * b@.len(),
{
    let mut s = String::new();
    let mut i: usize = 0;
    while i < b.len()
        invariant
            i <= b@.len(),
            s@ =~= hex_of(b@.subrange(0, i as int)),
        decreases b@.len() - i,
    {
        let byte = b[i];
        s.append(hex_digit_str(byte / 16));
        s.append(hex_digit_str(byte % 16));
        proof {
            assert(b@.subrange(0, i + 1) =~= b@.subrange(0, i as int).push(b@[i as int]));
            lemma_hex_of_snoc(b@.subrange(0, i as int), b@[i as int]);
        }
        i = i + 1;
    }
    proof {
        assert(b@.subrange(0, b@.len() as int) =~= b@);
        lemma_hex_of_len(b@);
    }
    s
}

/// The lowercase ASCII hex byte for a value below 16.
pub open spec fn hex_digit8(n: int) -> u8 {
    if n < 10 {
        (48 + n) as u8
    } else {
        (87 + n) as u8
    }
}

/// The hex spelling of a byte string, as ASCII bytes.
pub open spec fn hex_bytes(b: Seq<u8>) -> Seq<u8>
    decreases b.len(),
{
    if b.len() == 0 {
        Seq::empty()
    } else {
        seq![hex_digit8(b[0] as int / 16), hex_digit8(b[0] as int % 16)] + hex_bytes(b.drop_first())
    }
}

pub proof fn lemma_hex_bytes_len(b: Seq<u8>)
    ensures
        hex_bytes(b).len() == 2 * b.len(),
    decreases b.len(),
{
    if b.len() > 0 {
        lemma_hex_bytes_len(b.drop_first());
    }
}

/// Each byte's two digits sit at positions `2i` and `2i + 1`.
pub proof fn lemma_hex_bytes_index(b: Seq<u8>, i: int)
    requires
        0 <= i < b.len(),
    ensures
        hex_bytes(b).len() == 2 * b.len(),
        hex_bytes(b)[2 * i] == hex_digit8(b[i] as int / 16),
        hex_bytes(b)[2 * i + 1] == hex_digit8(b[i] as int % 16),
    decreases b.len(),
{
    lemma_hex_bytes_len(b);
    if i > 0 {
        lemma_hex_bytes_index(b.drop_first(), i - 1);
    }
}

pub proof fn lemma_hex_bytes_snoc(b: Seq<u8>, x: u8)
    ensures
        hex_bytes(b.push(x)) == hex_bytes(b) + seq![
            hex_digit8(x as int / 16),
            hex_digit8(x as int % 16),
        ],
    decreases b.len(),
{
    if b.len() == 0 {
        assert(hex_bytes(b) =~= Seq::<u8>::empty());
        assert(b.push(x)[0] == x);
        assert(b.push(x).drop_first() =~= Seq::<u8>::empty());
        assert(hex_bytes(b.push(x).drop_first()) =~= Seq::<u8>::empty());
        assert(hex_bytes(b.push(x)) =~= hex_bytes(b) + seq![
            hex_digit8(x as int / 16),
            hex_digit8(x as int % 16),
        ]);
    } else {
        assert(b.push(x).drop_first() =~= b.drop_first().push(x));
        lemma_hex_bytes_snoc(b.drop_first(), x);
        assert(hex_bytes(b.push(x)) =~= hex_bytes(b) + seq![
            hex_digit8(x as int / 16),
            hex_digit8(x as int % 16),
        ]);
    }
}

/// Appends the ASCII hex spelling of `b` to `out`.
pub fn write_hex(out: &mut Vec<u8>, b: &Vec<u8>)
    ensures
        final(out)@ == old(out)@ + hex_bytes(b@),
{
    let ghost base = out@;
    let mut i: usize = 0;
    while i < b.len()
        invariant
            i <= b@.len(),
            out@ =~= base + hex_bytes(b@.subrange(0, i as int)),
        decreases b@.len() - i,
    {
        let byte = b[i];
        let hi: u8 = byte / 16;
        let lo: u8 = byte % 16;
        out.push(if hi < 10 {
            48 + hi
        } else {
            87 + hi
        });
        out.push(if lo < 10 {
            48 + lo
        } else {
            87 + lo
        });
        proof {
            assert(b@.subrange(0, i + 1) =~= b@.subrange(0, i as int).push(b@[i as int]));
            lemma_hex_bytes_snoc(b@.subrange(0, i as int), b@[i as int]);
            assert(out@ =~= base + hex_bytes(b@.subrange(0, i + 1)));
        }
        i = i + 1;
    }
    proof {
        assert(b@.subrange(0, b@.len() as int) =~= b@);
    }
}

/// The value of one ASCII hex digit byte, when it is one.
fn hex_val(byte: u8) -> (r: Option<u8>)
    ensures
        match r {
            Some(v) => v < 16 && byte == hex_digit8(v as int),
            None => forall|v: int| 0 <= v < 16 ==> byte != hex_digit8(v),
        },
{
    if 48 <= byte && byte <= 57 {
        Some(byte - 48)
    } else if 97 <= byte && byte <= 102 {
        Some(byte - 87)
    } else {
        None
    }
}

/// Parses a whole buffer as ASCII hex. Returns the bytes it spells, and
/// `None` when the buffer is not the hex spelling of any byte string.
pub fn parse_hex(seg: &Vec<u8>) -> (r: Option<Vec<u8>>)
    ensures
        match r {
            Some(v) => seg@ == hex_bytes(v@),
            None => forall|t: Seq<u8>| seg@ != hex_bytes(t),
        },
{
    if seg.len() % 2 == 1 {
        proof {
            assert forall|t: Seq<u8>| seg@ != hex_bytes(t) by {
                lemma_hex_bytes_len(t);
            }
        }
        return None;
    }
    let mut out: Vec<u8> = Vec::new();
    let mut i: usize = 0;
    while i < seg.len()
        invariant
            i % 2 == 0,
            i <= seg@.len(),
            seg@.len() % 2 == 0,
            seg@.len() <= usize::MAX,
            out@.len() == i / 2,
            seg@.subrange(0, i as int) =~= hex_bytes(out@),
        decreases seg@.len() - i,
    {
        let hi = hex_val(seg[i]);
        let lo = hex_val(seg[i + 1]);
        match (hi, lo) {
            (Some(h), Some(l)) => {
                let v: u8 = h * 16 + l;
                let ghost prev = out@;
                out.push(v);
                proof {
                    assert(v as int / 16 == h as int && v as int % 16 == l as int)
                        by (nonlinear_arith)
                        requires
                            v == h * 16 + l,
                            h < 16,
                            l < 16,
                    ;
                    lemma_hex_bytes_snoc(prev, v);
                    assert(seg@.subrange(0, i + 2) =~= seg@.subrange(0, i as int) + seq![
                        seg@[i as int],
                        seg@[i + 1],
                    ]);
                    assert(seg@.subrange(0, i + 2) =~= hex_bytes(out@));
                }
                i = i + 2;
            },
            _ => {
                proof {
                    assert forall|t: Seq<u8>| seg@ != hex_bytes(t) by {
                        if seg@ == hex_bytes(t) {
                            lemma_hex_bytes_len(t);
                            assert(i as int / 2 < t.len() && 2 * (i as int / 2) == i as int)
                                by (nonlinear_arith)
                                requires
                                    (i as int) < 2 * t.len(),
                                    i as int % 2 == 0,
                                    0 <= i as int,
                            ;
                            lemma_hex_bytes_index(t, i as int / 2);
                        }
                    }
                }
                return None;
            },
        }
    }
    proof {
        assert(seg@.subrange(0, seg@.len() as int) =~= seg@);
    }
    Some(out)
}

/// An ASCII character encodes in UTF-8 as its own single byte.
pub proof fn lemma_ascii_char_utf8(c: char)
    requires
        (c as u32) < 0x80,
    ensures
        vstd::utf8::encode_utf8(seq![c]) == seq![c as u8],
{
    let v = c as u32;
    assert((v & 0x7F) == v) by (bit_vector)
        requires
            v < 0x80,
    ;
    assert(seq![c].drop_first() =~= Seq::<char>::empty());
    assert(vstd::utf8::encode_utf8(seq![c].drop_first()) =~= Seq::<u8>::empty());
    assert(vstd::utf8::encode_utf8(seq![c]) =~= vstd::utf8::encode_scalar(v));
    assert(vstd::utf8::encode_scalar(v) =~= seq![c as u8]);
}

/// The two spellings agree: the UTF-8 bytes of the hex characters are the
/// ASCII hex bytes.
pub proof fn lemma_hex_of_utf8(b: Seq<u8>)
    ensures
        vstd::utf8::encode_utf8(hex_of(b)) == hex_bytes(b),
    decreases b.len(),
{
    if b.len() == 0 {
        assert(hex_of(b) =~= Seq::<char>::empty());
        assert(vstd::utf8::encode_utf8(hex_of(b)) =~= hex_bytes(b));
    } else {
        let hi = b[0] as int / 16;
        let lo = b[0] as int % 16;
        let d1 = hex_digit(hi);
        let d2 = hex_digit(lo);
        assert(d1 as u32 == hex_digit8(hi) && (d1 as u32) < 0x80);
        assert(d2 as u32 == hex_digit8(lo) && (d2 as u32) < 0x80);
        lemma_ascii_char_utf8(d1);
        lemma_ascii_char_utf8(d2);
        lemma_hex_of_utf8(b.drop_first());
        let chars = hex_of(b);
        assert(chars =~= seq![d1] + (seq![d2] + hex_of(b.drop_first())));
        lemma_utf8_concat_cons(d1, seq![d2] + hex_of(b.drop_first()));
        lemma_utf8_concat_cons(d2, hex_of(b.drop_first()));
        assert(vstd::utf8::encode_utf8(chars) =~= hex_bytes(b));
    }
}

/// UTF-8 encoding of a sequence starting with one character splits off that
/// character's bytes.
pub proof fn lemma_utf8_concat_cons(c: char, rest: Seq<char>)
    ensures
        vstd::utf8::encode_utf8(seq![c] + rest) == vstd::utf8::encode_utf8(seq![c])
            + vstd::utf8::encode_utf8(rest),
{
    let whole = seq![c] + rest;
    assert(whole[0] == c);
    assert(whole.drop_first() =~= rest);
    assert(seq![c].drop_first() =~= Seq::<char>::empty());
    assert(vstd::utf8::encode_utf8(seq![c].drop_first()) =~= Seq::<u8>::empty());
    assert(vstd::utf8::encode_utf8(seq![c]) =~= vstd::utf8::encode_scalar(c as u32));
    assert(vstd::utf8::encode_utf8(whole) =~= vstd::utf8::encode_utf8(seq![c])
        + vstd::utf8::encode_utf8(rest));
}

/// Hex spelling is injective: equal spellings come from equal bytes.
pub proof fn lemma_hex_bytes_injective(t1: Seq<u8>, t2: Seq<u8>)
    requires
        hex_bytes(t1) == hex_bytes(t2),
    ensures
        t1 == t2,
{
    lemma_hex_bytes_len(t1);
    lemma_hex_bytes_len(t2);
    assert forall|i: int| 0 <= i < t1.len() implies t1[i] == t2[i] by {
        lemma_hex_bytes_index(t1, i);
        lemma_hex_bytes_index(t2, i);
        assert(hex_digit8(t1[i] as int / 16) == hex_digit8(t2[i] as int / 16));
        assert(hex_digit8(t1[i] as int % 16) == hex_digit8(t2[i] as int % 16));
        assert(t1[i] as int / 16 == t2[i] as int / 16 && t1[i] as int % 16 == t2[i] as int % 16);
        assert(t1[i] == t2[i]) by (nonlinear_arith)
            requires
                t1[i] as int / 16 == t2[i] as int / 16,
                t1[i] as int % 16 == t2[i] as int % 16,
        ;
    }
    assert(t1 =~= t2);
}

} // verus!
