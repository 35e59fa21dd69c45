use base64::engine::general_purpose::URL_SAFE_NO_PAD;
use base64::Engine;
use hmac::Mac;
use token_auth::token::TokenSigner;

const NOW: u64 = 1_700_000_000;

/// The issued token must match, byte for byte, the reference construction
/// out of serde-style JSON literals, the base64 crate, and the hmac crate.
#[test]
fn issued_token_matches_reference_construction() {
    let key: &[u8] = b"my-very-secret-key-change-me";
    let signer = TokenSigner::new(key.to_vec());
    let token = signer.issue(b"a@x.com", NOW);

    let h64 = URL_SAFE_NO_PAD.encode(b"{\"alg\":\"HS256\",\"typ\":\"JWT\"}");
    let claims = format!("{{\"email\":\"a@x.com\",\"exp\":{}}}", NOW + 60);
    let c64 = URL_SAFE_NO_PAD.encode(claims.as_bytes());
    let signing_input = format!("{}.{}", h64, c64);
    let mut mac = hmac::Hmac::<sha2::Sha256>::new_from_slice(key).unwrap();
    mac.update(signing_input.as_bytes());
    let s64 = URL_SAFE_NO_PAD.encode(mac.finalize().into_bytes());
    let expected = format!("{}.{}", signing_input, s64);

    assert_eq!(token, expected.into_bytes());
}

#[test]
fn token_verifies_until_expiry_and_not_after() {
    let signer = TokenSigner::new(b"k".to_vec());
    let token = signer.issue(b"a@x.com", NOW);
    assert_eq!(signer.verify(&token, NOW), Some(b"a@x.com".to_vec()));
    assert_eq!(signer.verify(&token, NOW + 60), Some(b"a@x.com".to_vec()));
    assert_eq!(signer.verify(&token, NOW + 61), None);
}

#[test]
fn wrong_segment_count_fails() {
    let signer = TokenSigner::new(b"k".to_vec());
    let token = signer.issue(b"a@x.com", NOW);
    let mut four = token.clone();
    four.push(b'.');
    assert_eq!(signer.verify(&four, NOW), None);
    let dot = token.iter().position(|b| *b == b'.').unwrap();
    let two = &token[dot + 1..];
    assert_eq!(signer.verify(two, NOW), None);
    assert_eq!(signer.verify(b"", NOW), None);
}

/// Flipping any single bit of the signature segment defeats verification.
#[test]
fn any_bit_flip_in_signature_segment_fails() {
    let signer = TokenSigner::new(b"k".to_vec());
    let token = signer.issue(b"a@x.com", NOW);
    let last_dot = token.iter().rposition(|b| *b == b'.').unwrap();
    for i in last_dot + 1..token.len() {
        for bit in 0..8 {
            let mut t = token.clone();
            t[i] ^= 1u8 << bit;
            assert_eq!(signer.verify(&t, NOW), None);
        }
    }
}

/// Flipping any single bit of the claims segment, with the signature left
/// stale, defeats verification.
#[test]
fn any_bit_flip_in_claims_segment_fails() {
    let signer = TokenSigner::new(b"k".to_vec());
    let token = signer.issue(b"a@x.com", NOW);
    let first_dot = token.iter().position(|b| *b == b'.').unwrap();
    let last_dot = token.iter().rposition(|b| *b == b'.').unwrap();
    for i in first_dot + 1..last_dot {
        for bit in 0..8 {
            let mut t = token.clone();
            t[i] ^= 1u8 << bit;
            assert_eq!(signer.verify(&t, NOW), None);
        }
    }
}

/// The header is covered by the MAC too: tampering it defeats verification.
#[test]
fn any_bit_flip_in_header_segment_fails() {
    let signer = TokenSigner::new(b"k".to_vec());
    let token = signer.issue(b"a@x.com", NOW);
    let first_dot = token.iter().position(|b| *b == b'.').unwrap();
    for i in 0..first_dot {
        for bit in 0..8 {
            let mut t = token.clone();
            t[i] ^= 1u8 << bit;
            assert_eq!(signer.verify(&t, NOW), None);
        }
    }
}

#[test]
fn sign_matches_hmac_crate() {
    let signer = TokenSigner::new(b"some key".to_vec());
    let got = signer.sign(b"some message");
    assert_eq!(got.len(), 32);
    let mut mac = hmac::Hmac::<sha2::Sha256>::new_from_slice(b"some key").unwrap();
    mac.update(b"some message");
    assert_eq!(got, mac.finalize().into_bytes().to_vec());
}
