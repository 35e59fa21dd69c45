//! URL-safe base64 without padding, the transport encoding of token segments.
//!
//! Encoding and decoding are verified against the spec-level definitions
//! `spec_b64` and `spec_b64_decode`; decoding accepts exactly the canonical
//! encodings (no padding, zero trailing bits), so the two are mutual inverses.

use vstd::prelude::*;

verus! {

/// The alphabet: values 0..26 map to 'A'..'Z', 26..52 to 'a'..'z',
/// 52..62 to '0'..'9', 62 to '-', 63 to '_'.
pub open spec fn b64_char(v: u8) -> u8 {
    if v < 26 {
        (65 + v) as u8
    } else if v < 52 {
        (71 + v) as u8
    } else if v < 62 {
        (v - 4) as u8
    } else if v == 62 {
        45
    } else {
        95
    }
}

/// Inverse of the alphabet: `None` for a byte outside it.
pub open spec fn b64_val(c: u8) -> Option<u8> {
    if 65 <= c && c <= 90 {
        Some((c - 65) as u8)
    } else if 97 <= c && c <= 122 {
        Some((c - 71) as u8)
    } else if 48 <= c && c <= 57 {
        Some((c + 4) as u8)
    } else if c == 45 {
        Some(62u8)
    } else if c == 95 {
        Some(63u8)
    } else {
        None
    }
}

pub open spec fn enc3(a: u8, b: u8, c: u8) -> Seq<u8> {
    seq![
        b64_char(a >> 2),
        b64_char(((a & 3) << 4) | (b >> 4)),
        b64_char(((b & 15) << 2) | (c >> 6)),
        b64_char(c & 63),
    ]
}

pub open spec fn enc2(a: u8, b: u8) -> Seq<u8> {
    seq![b64_char(a >> 2), b64_char(((a & 3) << 4) | (b >> 4)), b64_char((b & 15) << 2)]
}

pub open spec fn enc1(a: u8) -> Seq<u8> {
    seq![b64_char(a >> 2), b64_char((a & 3) << 4)]
}

/// Canonical encoding of a byte sequence: full three-byte groups become four
/// characters, a two-byte tail three, a one-byte tail two.
pub open spec fn spec_b64(s: Seq<u8>) -> Seq<u8>
    decreases s.len(),
{
    if s.len() >= 3 {
        enc3(s[0], s[1], s[2]) + spec_b64(s.skip(3))
    } else if s.len() == 2 {
        enc2(s[0], s[1])
    } else if s.len() == 1 {
        enc1(s[0])
    } else {
        Seq::empty()
    }
}

pub open spec fn dec4(c0: u8, c1: u8, c2: u8, c3: u8) -> Option<Seq<u8>> {
    match (b64_val(c0), b64_val(c1), b64_val(c2), b64_val(c3)) {
        (Some(v0), Some(v1), Some(v2), Some(v3)) => Some(
            seq![
                ((v0 << 2) | (v1 >> 4)) as u8,
                (((v1 & 15) << 4) | (v2 >> 2)) as u8,
                (((v2 & 3) << 6) | v3) as u8,
            ],
        ),
        _ => None,
    }
}

pub open spec fn dec3(c0: u8, c1: u8, c2: u8) -> Option<Seq<u8>> {
    match (b64_val(c0), b64_val(c1), b64_val(c2)) {
        (Some(v0), Some(v1), Some(v2)) => if v2 & 3 == 0 {
            Some(seq![((v0 << 2) | (v1 >> 4)) as u8, (((v1 & 15) << 4) | (v2 >> 2)) as u8])
        } else {
            None
        },
        _ => None,
    }
}

pub open spec fn dec2(c0: u8, c1: u8) -> Option<Seq<u8>> {
    match (b64_val(c0), b64_val(c1)) {
        (Some(v0), Some(v1)) => if v1 & 15 == 0 {
            Some(seq![((v0 << 2) | (v1 >> 4)) as u8])
        } else {
            None
        },
        _ => None,
    }
}

/// Strict decoding: succeeds exactly on the canonical encodings.
pub open spec fn spec_b64_decode(s: Seq<u8>) -> Option<Seq<u8>>
    decreases s.len(),
{
    if s.len() == 0 {
        Some(Seq::empty())
    } else if s.len() == 1 {
        None
    } else if s.len() == 2 {
        dec2(s[0], s[1])
    } else if s.len() == 3 {
        dec3(s[0], s[1], s[2])
    } else {
        match (dec4(s[0], s[1], s[2], s[3]), spec_b64_decode(s.skip(4))) {
            (Some(h), Some(t)) => Some(h + t),
            _ => None,
        }
    }
}

fn b64_char_x(v: u8) -> (r: u8)
    ensures
        r == b64_char(v),
{
    if v < 26 {
        65 + v
    } else if v < 52 {
        71 + v
    } else if v < 62 {
        v - 4
    } else if v == 62 {
        45
    } else {
        95
    }
}

fn b64_val_x(c: u8) -> (r: Option<u8>)
    ensures
        r == b64_val(c),
{
    if 65 <= c && c <= 90 {
        Some(c - 65)
    } else if 97 <= c && c <= 122 {
        Some(c - 71)
    } else if 48 <= c && c <= 57 {
        Some(c + 4)
    } else if c == 45 {
        Some(62u8)
    } else if c == 95 {
        Some(63u8)
    } else {
        None
    }
}

/// Encodes `s` in URL-safe, unpadded base64.
pub fn b64_encode(s: &[u8]) -> (r: Vec<u8>)
    ensures
        r@ == spec_b64(s@),
    decreases s@.len(),
{
    let mut out: Vec<u8> = Vec::new();
    if s.len() >= 3 {
        out.push(b64_char_x(s[0] >> 2));
        out.push(b64_char_x(((s[0] & 3) << 4) | (s[1] >> 4)));
        out.push(b64_char_x(((s[1] & 15) << 2) | (s[2] >> 6)));
        out.push(b64_char_x(s[2] & 63));
        let mut rest = b64_encode(vstd::slice::slice_subrange(s, 3, s.len()));
        assert(out@ =~= enc3(s@[0], s@[1], s@[2]));
        out.append(&mut rest);
        assert(s@.subrange(3, s@.len() as int) =~= s@.skip(3));
    } else if s.len() == 2 {
        out.push(b64_char_x(s[0] >> 2));
        out.push(b64_char_x(((s[0] & 3) << 4) | (s[1] >> 4)));
        out.push(b64_char_x((s[1] & 15) << 2));
        assert(out@ =~= enc2(s@[0], s@[1]));
    } else if s.len() == 1 {
        out.push(b64_char_x(s[0] >> 2));
        out.push(b64_char_x((s[0] & 3) << 4));
        assert(out@ =~= enc1(s@[0]));
    } else {
        assert(out@ =~= Seq::<u8>::empty());
    }
    out
}

/// Decodes URL-safe, unpadded base64; returns `None` on any input that is not
/// a canonical encoding.
pub fn b64_decode(s: &[u8]) -> (r: Option<Vec<u8>>)
    ensures
        r is Some <==> spec_b64_decode(s@) is Some,
        r matches Some(v) ==> spec_b64_decode(s@) == Some(v@),
    decreases s@.len(),
{
    if s.len() == 0 {
        let out: Vec<u8> = Vec::new();
        assert(out@ =~= Seq::<u8>::empty());
        Some(out)
    } else if s.len() == 1 {
        None
    } else if s.len() == 2 {
        match (b64_val_x(s[0]), b64_val_x(s[1])) {
            (Some(v0), Some(v1)) => {
                if v1 & 15 == 0 {
                    let mut out: Vec<u8> = Vec::new();
                    out.push((v0 << 2) | (v1 >> 4));
                    assert(out@ =~= seq![((v0 << 2) | (v1 >> 4)) as u8]);
                    Some(out)
                } else {
                    None
                }
            },
            _ => None,
        }
    } else if s.len() == 3 {
        match (b64_val_x(s[0]), b64_val_x(s[1]), b64_val_x(s[2])) {
            (Some(v0), Some(v1), Some(v2)) => {
                if v2 & 3 == 0 {
                    let mut out: Vec<u8> = Vec::new();
                    out.push((v0 << 2) | (v1 >> 4));
                    out.push(((v1 & 15) << 4) | (v2 >> 2));
                    assert(out@ =~= seq![
                        ((v0 << 2) | (v1 >> 4)) as u8,
                        (((v1 & 15) << 4) | (v2 >> 2)) as u8,
                    ]);
                    Some(out)
                } else {
                    None
                }
            },
            _ => None,
        }
    } else {
        match (b64_val_x(s[0]), b64_val_x(s[1]), b64_val_x(s[2]), b64_val_x(s[3])) {
            (Some(v0), Some(v1), Some(v2), Some(v3)) => {
                match b64_decode(vstd::slice::slice_subrange(s, 4, s.len())) {
                    Some(mut tail) => {
                        let mut out: Vec<u8> = Vec::new();
                        out.push((v0 << 2) | (v1 >> 4));
                        out.push(((v1 & 15) << 4) | (v2 >> 2));
                        out.push(((v2 & 3) << 6) | v3);
                        assert(out@ =~= dec4(s@[0], s@[1], s@[2], s@[3])->Some_0);
                        out.append(&mut tail);
                        proof {
                            assert(s@.subrange(4, s@.len() as int) =~= s@.skip(4));
                        }
                        Some(out)
                    },
                    None => {
                        proof {
                            assert(s@.subrange(4, s@.len() as int) =~= s@.skip(4));
                        }
                        None
                    },
                }
            },
            _ => None,
        }
    }
}

/// No byte of an encoding is an ASCII dot, so a dot can safely separate
/// encoded segments.
pub open spec fn dot_free(s: Seq<u8>) -> bool {
    forall|i: int| 0 <= i < s.len() ==> s[i] != 46
}

pub proof fn lemma_b64_char_not_dot(v: u8)
    ensures
        b64_char(v) != 46,
{
}

/// Every byte of an encoding is an alphabet byte.
pub proof fn lemma_b64_alphabet(s: Seq<u8>)
    ensures
        forall|i: int| 0 <= i < spec_b64(s).len() ==> b64_val(#[trigger] spec_b64(s)[i]) is Some,
    decreases s.len(),
{
    if s.len() >= 3 {
        lemma_b64_alphabet(s.skip(3));
        assert forall|i: int| 0 <= i < spec_b64(s).len() implies b64_val(
            spec_b64(s)[i],
        ) is Some by {
            if i >= 4 {
                assert(spec_b64(s)[i] == spec_b64(s.skip(3))[i - 4]);
            }
        }
    }
}

pub proof fn lemma_b64_dot_free(s: Seq<u8>)
    ensures
        dot_free(spec_b64(s)),
    decreases s.len(),
{
    if s.len() >= 3 {
        lemma_b64_dot_free(s.skip(3));
        assert forall|i: int| 0 <= i < spec_b64(s).len() implies spec_b64(s)[i] != 46 by {
            if i >= 4 {
                assert(spec_b64(s)[i] == spec_b64(s.skip(3))[i - 4]);
            }
        }
    }
}

proof fn lemma_char_val_roundtrip(v: u8)
    requires
        v < 64,
    ensures
        b64_val(b64_char(v)) == Some(v),
{
}

proof fn lemma_val_char_roundtrip(c: u8)
    requires
        b64_val(c) is Some,
    ensures
        b64_char(b64_val(c)->Some_0) == c,
{
}

proof fn lemma_enc3_dec4(a: u8, b: u8, c: u8)
    ensures
        dec4(enc3(a, b, c)[0], enc3(a, b, c)[1], enc3(a, b, c)[2], enc3(a, b, c)[3]) == Some(
            seq![a, b, c],
        ),
{
    let v0 = a >> 2;
    let v1 = ((a & 3) << 4) | (b >> 4);
    let v2 = ((b & 15) << 2) | (c >> 6);
    let v3 = c & 63;
    assert((a >> 2) < 64 && (((a & 3) << 4) | (b >> 4)) < 64 && (((b & 15) << 2) | (c >> 6)) < 64
        && (c & 63) < 64) by (bit_vector);
    lemma_char_val_roundtrip(v0);
    lemma_char_val_roundtrip(v1);
    lemma_char_val_roundtrip(v2);
    lemma_char_val_roundtrip(v3);
    assert((((a >> 2) << 2) | ((((a & 3) << 4) | (b >> 4)) >> 4)) == a) by (bit_vector);
    assert(((((((a & 3) << 4) | (b >> 4)) & 15) << 4) | ((((b & 15) << 2) | (c >> 6)) >> 2)) == b)
        by (bit_vector);
    assert((((((b & 15) << 2) | (c >> 6)) & 3) << 6 | (c & 63)) == c) by (bit_vector);
    assert(dec4(b64_char(v0), b64_char(v1), b64_char(v2), b64_char(v3))->Some_0 =~= seq![a, b, c]);
}

proof fn lemma_enc2_dec3(a: u8, b: u8)
    ensures
        dec3(enc2(a, b)[0], enc2(a, b)[1], enc2(a, b)[2]) == Some(seq![a, b]),
{
    let v0 = a >> 2;
    let v1 = ((a & 3) << 4) | (b >> 4);
    let v2 = (b & 15) << 2;
    assert((a >> 2) < 64 && (((a & 3) << 4) | (b >> 4)) < 64 && ((b & 15) << 2) < 64 && (((b & 15)
        << 2) & 3) == 0) by (bit_vector);
    lemma_char_val_roundtrip(v0);
    lemma_char_val_roundtrip(v1);
    lemma_char_val_roundtrip(v2);
    assert((((a >> 2) << 2) | ((((a & 3) << 4) | (b >> 4)) >> 4)) == a) by (bit_vector);
    assert(((((((a & 3) << 4) | (b >> 4)) & 15) << 4) | (((b & 15) << 2) >> 2)) == b)
        by (bit_vector);
    assert(dec3(b64_char(v0), b64_char(v1), b64_char(v2))->Some_0 =~= seq![a, b]);
}

proof fn lemma_enc1_dec2(a: u8)
    ensures
        dec2(enc1(a)[0], enc1(a)[1]) == Some(seq![a]),
{
    let v0 = a >> 2;
    let v1 = (a & 3) << 4;
    assert((a >> 2) < 64 && ((a & 3) << 4) < 64 && ((((a & 3) << 4)) & 15) == 0) by (bit_vector);
    lemma_char_val_roundtrip(v0);
    lemma_char_val_roundtrip(v1);
    assert((((a >> 2) << 2) | (((a & 3) << 4) >> 4)) == a) by (bit_vector);
    assert(dec2(b64_char(v0), b64_char(v1))->Some_0 =~= seq![a]);
}

/// Decoding inverts encoding.
pub proof fn lemma_b64_decode_encode(s: Seq<u8>)
    ensures
        spec_b64_decode(spec_b64(s)) == Some(s),
    decreases s.len(),
{
    if s.len() == 0 {
        assert(spec_b64(s) =~= Seq::<u8>::empty());
        assert(spec_b64_decode(spec_b64(s))->Some_0 =~= s);
    } else if s.len() == 1 {
        lemma_enc1_dec2(s[0]);
        assert(seq![s[0]] =~= s);
    } else if s.len() == 2 {
        lemma_enc2_dec3(s[0], s[1]);
        assert(seq![s[0], s[1]] =~= s);
    } else {
        lemma_enc3_dec4(s[0], s[1], s[2]);
        lemma_b64_decode_encode(s.skip(3));
        let e = spec_b64(s);
        assert(e == enc3(s[0], s[1], s[2]) + spec_b64(s.skip(3)));
        assert(e.len() >= 4);
        assert(e[0] == enc3(s[0], s[1], s[2])[0]);
        assert(e[1] == enc3(s[0], s[1], s[2])[1]);
        assert(e[2] == enc3(s[0], s[1], s[2])[2]);
        assert(e[3] == enc3(s[0], s[1], s[2])[3]);
        assert(e.skip(4) =~= spec_b64(s.skip(3)));
        assert(dec4(e[0], e[1], e[2], e[3]) == Some(seq![s[0], s[1], s[2]]));
        assert(spec_b64_decode(e)->Some_0 =~= s);
    }
}

/// Decoding succeeds only on canonical encodings: whatever decodes,
/// re-encodes to the very same text.
pub proof fn lemma_b64_canonical(s: Seq<u8>)
    requires
        spec_b64_decode(s) is Some,
    ensures
        spec_b64(spec_b64_decode(s)->Some_0) == s,
    decreases s.len(),
{
    if s.len() == 0 {
        assert(spec_b64(spec_b64_decode(s)->Some_0) =~= s);
    } else if s.len() == 2 {
        let v0 = b64_val(s[0])->Some_0;
        let v1 = b64_val(s[1])->Some_0;
        lemma_val_char_roundtrip(s[0]);
        lemma_val_char_roundtrip(s[1]);
        let b0 = ((v0 << 2) | (v1 >> 4)) as u8;
        assert(v0 < 64 && v1 < 64);
        assert(v1 & 15 == 0);
        assert(((((v0 << 2) | (v1 >> 4)) >> 2) == v0 && ((((v0 << 2) | (v1 >> 4)) & 3) << 4)
            == v1)) by (bit_vector)
            requires
                v0 < 64 && v1 < 64 && v1 & 15 == 0,
        ;
        assert(spec_b64(seq![b0]) =~= s);
    } else if s.len() == 3 {
        let v0 = b64_val(s[0])->Some_0;
        let v1 = b64_val(s[1])->Some_0;
        let v2 = b64_val(s[2])->Some_0;
        lemma_val_char_roundtrip(s[0]);
        lemma_val_char_roundtrip(s[1]);
        lemma_val_char_roundtrip(s[2]);
        let b0 = ((v0 << 2) | (v1 >> 4)) as u8;
        let b1 = (((v1 & 15) << 4) | (v2 >> 2)) as u8;
        assert(((((v0 << 2) | (v1 >> 4)) >> 2) == v0
            && (((((v0 << 2) | (v1 >> 4)) & 3) << 4) | ((((v1 & 15) << 4) | (v2 >> 2)) >> 4)) == v1
            && ((((((v1 & 15) << 4) | (v2 >> 2)) & 15)) << 2) == v2)) by (bit_vector)
            requires
                v0 < 64 && v1 < 64 && v2 < 64 && v2 & 3 == 0,
        ;
        assert(spec_b64(seq![b0, b1]) =~= s);
    } else {
        let v0 = b64_val(s[0])->Some_0;
        let v1 = b64_val(s[1])->Some_0;
        let v2 = b64_val(s[2])->Some_0;
        let v3 = b64_val(s[3])->Some_0;
        lemma_val_char_roundtrip(s[0]);
        lemma_val_char_roundtrip(s[1]);
        lemma_val_char_roundtrip(s[2]);
        lemma_val_char_roundtrip(s[3]);
        lemma_b64_canonical(s.skip(4));
        let b0 = ((v0 << 2) | (v1 >> 4)) as u8;
        let b1 = (((v1 & 15) << 4) | (v2 >> 2)) as u8;
        let b2 = (((v2 & 3) << 6) | v3) as u8;
        assert(((((v0 << 2) | (v1 >> 4)) >> 2) == v0
            && (((((v0 << 2) | (v1 >> 4)) & 3) << 4) | ((((v1 & 15) << 4) | (v2 >> 2)) >> 4)) == v1
            && ((((((v1 & 15) << 4) | (v2 >> 2)) & 15) << 2) | ((((v2 & 3) << 6) | v3) >> 6)) == v2
            && ((((v2 & 3) << 6) | v3) & 63) == v3)) by (bit_vector)
            requires
                v0 < 64 && v1 < 64 && v2 < 64 && v3 < 64,
        ;
        let h = dec4(s[0], s[1], s[2], s[3])->Some_0;
        let t = spec_b64_decode(s.skip(4))->Some_0;
        assert(h == seq![b0, b1, b2]);
        let w = h + t;
        assert(w.len() >= 3);
        assert(w[0] == b0 && w[1] == b1 && w[2] == b2);
        assert(w.skip(3) =~= t);
        assert(enc3(b0, b1, b2) =~= seq![s[0], s[1], s[2], s[3]]);
        assert(spec_b64(w) =~= s);
    }
}

} // verus!
