//! Issuing and verifying signed bearer tokens.
//!
//! A token is three dot-joined segments: the encoded header, the encoded
//! claims, and the encoded MAC over the first two. Verification splits the
//! token, recomputes the MAC under the current key, compares it in constant
//! time against the decoded third segment, then decodes the claims and checks
//! the expiry. `spec_verify` states the whole of that, and every lemma about
//! tokens is proved against it.

use crate::b64::{
    b64_decode, b64_encode, lemma_b64_canonical, lemma_b64_decode_encode, lemma_b64_dot_free,
    spec_b64, spec_b64_decode,
};
use crate::claims::{encode_claims, lemma_claims_round_trip, parse_claims, spec_claims_json,
    spec_parse_claims};
use crate::constant_time_eq;
use crate::crypto::{hmac_sha256, hmac_sha256_of};
use crate::split::{
    lemma_split_has_sep, lemma_split_prefix, lemma_split_single, sep_free, spec_split, split3,
};
use vstd::prelude::*;

verus! {

/// `{"alg":"HS256","typ":"JWT"}` — the fixed header object.
pub open spec fn header_json() -> Seq<u8> {
    seq![
        123u8, 34, 97, 108, 103, 34, 58, 34, 72, 83, 50, 53, 54, 34, 44, 34, 116, 121, 112, 34,
        58, 34, 74, 87, 84, 34, 125,
    ]
}

/// The dot-joined encoded header and encoded claims: what the MAC signs.
pub open spec fn spec_signing_input(email: Seq<u8>, exp: u64) -> Seq<u8> {
    spec_b64(header_json()) + seq![46u8] + spec_b64(spec_claims_json(email, exp))
}

/// The full token for an identity and an expiry under a key.
pub open spec fn spec_token(key: Seq<u8>, email: Seq<u8>, exp: u64) -> Seq<u8> {
    spec_signing_input(email, exp) + seq![46u8] + spec_b64(
        hmac_sha256_of(key, spec_signing_input(email, exp)),
    )
}

/// What verification returns on any token text at time `now`: the identity in
/// the claims when the token has exactly three segments, the third decodes to
/// the MAC of the first two under `key`, the second decodes to a well-formed
/// claims object, and the expiry has not passed; otherwise nothing.
pub open spec fn spec_verify(key: Seq<u8>, token: Seq<u8>, now: u64) -> Option<Seq<u8>> {
    let parts = spec_split(token, 46);
    if parts.len() != 3 {
        None
    } else {
        let si = parts[0] + seq![46u8] + parts[1];
        match spec_b64_decode(parts[2]) {
            None => None,
            Some(sig) => if sig != hmac_sha256_of(key, si) {
                None
            } else {
                match spec_b64_decode(parts[1]) {
                    None => None,
                    Some(cb) => match spec_parse_claims(cb) {
                        None => None,
                        Some(p) => if now > p.1 {
                            None
                        } else {
                            Some(p.0)
                        },
                    },
                }
            },
        }
    }
}

fn header_json_x() -> (r: Vec<u8>)
    ensures
        r@ == header_json(),
{
    let mut out: Vec<u8> = Vec::new();
    out.push(123);
    out.push(34);
    out.push(97);
    out.push(108);
    out.push(103);
    out.push(34);
    out.push(58);
    out.push(34);
    out.push(72);
    out.push(83);
    out.push(50);
    out.push(53);
    out.push(54);
    out.push(34);
    out.push(44);
    out.push(34);
    out.push(116);
    out.push(121);
    out.push(112);
    out.push(34);
    out.push(58);
    out.push(34);
    out.push(74);
    out.push(87);
    out.push(84);
    out.push(34);
    out.push(125);
    assert(out@ =~= header_json());
    out
}

/// Appends every byte of `src` to `dst`.
pub fn push_all(dst: &mut Vec<u8>, src: &[u8])
    ensures
        final(dst)@ == old(dst)@ + src@,
{
    let mut i: usize = 0;
    assert(old(dst)@ + src@.take(0) =~= old(dst)@);
    while i < src.len()
        invariant
            0 <= i <= src@.len(),
            dst@ == old(dst)@ + src@.take(i as int),
        decreases src@.len() - i,
    {
        dst.push(src[i]);
        assert(old(dst)@ + src@.take(i + 1) =~= (old(dst)@ + src@.take(i as int)).push(
            src@[i as int],
        ));
        i = i + 1;
    }
    assert(src@.take(src@.len() as int) =~= src@);
}

/// Signs and verifies tokens with the process-wide secret key, which it owns
/// for its whole lifetime.
pub struct TokenSigner {
    key: Vec<u8>,
}

impl TokenSigner {
    pub closed spec fn spec_key(&self) -> Seq<u8> {
        self.key@
    }

    pub fn new(key: Vec<u8>) -> (r: Self)
        ensures
            r.spec_key() == key@,
    {
        TokenSigner { key }
    }

    /// The keyed MAC over a message: deterministic in key and message, and
    /// always exactly 32 bytes.
    pub fn sign(&self, message: &[u8]) -> (r: Vec<u8>)
        ensures
            r@ == hmac_sha256_of(self.spec_key(), message@),
            r@.len() == 32,
    {
        hmac_sha256(self.key.as_slice(), message)
    }

    /// Issues a token for `email` expiring sixty seconds after `now`.
    pub fn issue(&self, email: &[u8], now: u64) -> (r: Vec<u8>)
        requires
            now <= u64::MAX - 60,
        ensures
            r@ == spec_token(self.spec_key(), email@, (now + 60) as u64),
    {
        let exp = now + 60;
        let hdr = header_json_x();
        let mut si = b64_encode(hdr.as_slice());
        si.push(46);
        let cl = encode_claims(email, exp);
        let c64 = b64_encode(cl.as_slice());
        push_all(&mut si, c64.as_slice());
        assert(si@ =~= spec_signing_input(email@, exp));
        let mac = hmac_sha256(self.key.as_slice(), si.as_slice());
        let s64 = b64_encode(mac.as_slice());
        let mut token = si;
        token.push(46);
        push_all(&mut token, s64.as_slice());
        assert(token@ =~= spec_token(self.spec_key(), email@, exp));
        token
    }

    /// Verifies a token at time `now` and returns its identity, or nothing.
    pub fn verify(&self, token: &[u8], now: u64) -> (r: Option<Vec<u8>>)
        ensures
            r is Some <==> spec_verify(self.spec_key(), token@, now) is Some,
            r matches Some(email) ==> spec_verify(self.spec_key(), token@, now) == Some(email@),
    {
        match split3(token, 46) {
            None => None,
            Some((p0, p1, p2)) => {
                let ghost parts = spec_split(token@, 46);
                assert(parts == seq![p0@, p1@, p2@]);
                let mut si = p0;
                si.push(46);
                push_all(&mut si, p1.as_slice());
                assert(si@ =~= parts[0] + seq![46u8] + parts[1]);
                let mac = hmac_sha256(self.key.as_slice(), si.as_slice());
                match b64_decode(p2.as_slice()) {
                    None => None,
                    Some(sig) => {
                        if !constant_time_eq(sig.as_slice(), mac.as_slice()) {
                            return None;
                        }
                        match b64_decode(p1.as_slice()) {
                            None => None,
                            Some(cb) => {
                                match parse_claims(cb.as_slice()) {
                                    None => None,
                                    Some((email, exp)) => {
                                        if now > exp {
                                            None
                                        } else {
                                            Some(email)
                                        }
                                    },
                                }
                            },
                        }
                    },
                }
            },
        }
    }
}

/// A token is never empty, and every byte of it is either a base64 alphabet
/// byte or the dot between segments.
pub proof fn lemma_token_bytes(key: Seq<u8>, email: Seq<u8>, exp: u64)
    ensures
        spec_token(key, email, exp).len() > 0,
        forall|i: int|
            0 <= i < spec_token(key, email, exp).len() ==> (crate::b64::b64_val(
                #[trigger] spec_token(key, email, exp)[i],
            ) is Some || spec_token(key, email, exp)[i] == 46),
{
    let h = spec_b64(header_json());
    let c = spec_b64(spec_claims_json(email, exp));
    let si = spec_signing_input(email, exp);
    let sg = spec_b64(hmac_sha256_of(key, si));
    let t = spec_token(key, email, exp);
    crate::b64::lemma_b64_alphabet(header_json());
    crate::b64::lemma_b64_alphabet(spec_claims_json(email, exp));
    crate::b64::lemma_b64_alphabet(hmac_sha256_of(key, si));
    assert(t =~= h + seq![46u8] + c + seq![46u8] + sg);
    assert forall|i: int| 0 <= i < t.len() implies (crate::b64::b64_val(t[i]) is Some || t[i]
        == 46) by {
        if i < h.len() {
            assert(t[i] == h[i]);
        } else if i == h.len() {
            assert(t[i] == 46);
        } else if i < h.len() + 1 + c.len() {
            assert(t[i] == c[i - h.len() - 1]);
        } else if i == h.len() + 1 + c.len() {
            assert(t[i] == 46);
        } else {
            assert(t[i] == sg[i - h.len() - c.len() - 2]);
        }
    }
}

/// An issued token speaks for exactly its identity: it verifies to that
/// identity at any time up to its expiry, and fails once the expiry passed.
pub proof fn lemma_issue_verify(key: Seq<u8>, email: Seq<u8>, exp: u64, now: u64)
    ensures
        spec_verify(key, spec_token(key, email, exp), now) == if now <= exp {
            Some(email)
        } else {
            None::<Seq<u8>>
        },
{
    let h = spec_b64(header_json());
    let c = spec_b64(spec_claims_json(email, exp));
    let si = spec_signing_input(email, exp);
    let mac = hmac_sha256_of(key, si);
    let sg = spec_b64(mac);
    let t = spec_token(key, email, exp);
    lemma_b64_dot_free(header_json());
    lemma_b64_dot_free(spec_claims_json(email, exp));
    lemma_b64_dot_free(mac);
    assert(sep_free(h, 46));
    assert(sep_free(c, 46));
    assert(sep_free(sg, 46));
    assert(t =~= h + seq![46u8] + (c + seq![46u8] + sg));
    lemma_split_prefix(h, c + seq![46u8] + sg, 46);
    lemma_split_prefix(c, sg, 46);
    lemma_split_single(sg, 46);
    let parts = spec_split(t, 46);
    assert(parts =~= seq![h, c, sg]);
    assert(parts[0] + seq![46u8] + parts[1] =~= si);
    lemma_b64_decode_encode(mac);
    assert(spec_b64_decode(parts[2]) == Some(mac));
    lemma_b64_decode_encode(spec_claims_json(email, exp));
    assert(spec_b64_decode(parts[1]) == Some(spec_claims_json(email, exp)));
    lemma_claims_round_trip(email, exp);
}

/// Any change to the signature segment of an issued token defeats
/// verification: only the one canonical encoding of the true MAC passes.
pub proof fn lemma_verify_tampered_sig(key: Seq<u8>, email: Seq<u8>, exp: u64, s2: Seq<u8>, now: u64)
    requires
        s2 != spec_b64(hmac_sha256_of(key, spec_signing_input(email, exp))),
    ensures
        spec_verify(key, spec_signing_input(email, exp) + seq![46u8] + s2, now) is None,
{
    let h = spec_b64(header_json());
    let c = spec_b64(spec_claims_json(email, exp));
    let si = spec_signing_input(email, exp);
    let mac = hmac_sha256_of(key, si);
    let t = si + seq![46u8] + s2;
    lemma_b64_dot_free(header_json());
    lemma_b64_dot_free(spec_claims_json(email, exp));
    assert(sep_free(h, 46));
    assert(sep_free(c, 46));
    assert(t =~= h + seq![46u8] + (c + seq![46u8] + s2));
    lemma_split_prefix(h, c + seq![46u8] + s2, 46);
    lemma_split_prefix(c, s2, 46);
    let parts = spec_split(t, 46);
    if sep_free(s2, 46) {
        lemma_split_single(s2, 46);
        assert(parts =~= seq![h, c, s2]);
        assert(parts[0] + seq![46u8] + parts[1] =~= si);
        match spec_b64_decode(s2) {
            None => {
            },
            Some(m) => {
                lemma_b64_canonical(s2);
                assert(spec_b64(m) == s2);
                assert(m != mac);
            },
        }
    } else {
        lemma_split_has_sep(s2, 46);
        assert(parts.len() >= 4);
    }
}

/// A claims segment other than the signed one defeats verification, unless
/// the two signing inputs collide under the MAC (which for a sound MAC is
/// computationally out of reach).
pub proof fn lemma_verify_tampered_claims(
    key: Seq<u8>,
    email: Seq<u8>,
    exp: u64,
    c2: Seq<u8>,
    now: u64,
)
    requires
        sep_free(c2, 46),
        hmac_sha256_of(key, spec_b64(header_json()) + seq![46u8] + c2) != hmac_sha256_of(
            key,
            spec_signing_input(email, exp),
        ),
    ensures
        spec_verify(
            key,
            spec_b64(header_json()) + seq![46u8] + c2 + seq![46u8] + spec_b64(
                hmac_sha256_of(key, spec_signing_input(email, exp)),
            ),
            now,
        ) is None,
{
    let h = spec_b64(header_json());
    let mac = hmac_sha256_of(key, spec_signing_input(email, exp));
    let sg = spec_b64(mac);
    let t = h + seq![46u8] + c2 + seq![46u8] + sg;
    lemma_b64_dot_free(header_json());
    lemma_b64_dot_free(mac);
    assert(sep_free(h, 46));
    assert(sep_free(sg, 46));
    assert(t =~= h + seq![46u8] + (c2 + seq![46u8] + sg));
    lemma_split_prefix(h, c2 + seq![46u8] + sg, 46);
    lemma_split_prefix(c2, sg, 46);
    lemma_split_single(sg, 46);
    let parts = spec_split(t, 46);
    assert(parts =~= seq![h, c2, sg]);
    lemma_b64_decode_encode(mac);
    assert(spec_b64_decode(parts[2]) == Some(mac));
    assert(parts[0] + seq![46u8] + parts[1] =~= h + seq![46u8] + c2);
}

/// A token signed under one key never verifies under another, unless the two
/// keys give the same MAC for that very signing input.
pub proof fn lemma_verify_wrong_key(
    key1: Seq<u8>,
    key2: Seq<u8>,
    email: Seq<u8>,
    exp: u64,
    now: u64,
)
    requires
        hmac_sha256_of(key2, spec_signing_input(email, exp)) != hmac_sha256_of(
            key1,
            spec_signing_input(email, exp),
        ),
    ensures
        spec_verify(key2, spec_token(key1, email, exp), now) is None,
{
    let h = spec_b64(header_json());
    let c = spec_b64(spec_claims_json(email, exp));
    let si = spec_signing_input(email, exp);
    let mac1 = hmac_sha256_of(key1, si);
    let sg = spec_b64(mac1);
    let t = spec_token(key1, email, exp);
    lemma_b64_dot_free(header_json());
    lemma_b64_dot_free(spec_claims_json(email, exp));
    lemma_b64_dot_free(mac1);
    assert(sep_free(h, 46));
    assert(sep_free(c, 46));
    assert(sep_free(sg, 46));
    assert(t =~= h + seq![46u8] + (c + seq![46u8] + sg));
    lemma_split_prefix(h, c + seq![46u8] + sg, 46);
    lemma_split_prefix(c, sg, 46);
    lemma_split_single(sg, 46);
    let parts = spec_split(t, 46);
    assert(parts =~= seq![h, c, sg]);
    assert(parts[0] + seq![46u8] + parts[1] =~= si);
    lemma_b64_decode_encode(mac1);
    assert(spec_b64_decode(parts[2]) == Some(mac1));
}

} // verus!
