use base64::engine::general_purpose::URL_SAFE_NO_PAD;
use base64::Engine;
use sha2::Digest;
use token_auth::auth::parse_bearer;
use token_auth::b64::{b64_decode, b64_encode};
use token_auth::claims::{encode_claims, parse_claims, parse_u64};
use token_auth::constant_time_eq;
use token_auth::crypto::hash_password;
use token_auth::split::split3;
use token_auth::store::{CreateResult, CredentialStore, RemoveResult};

#[test]
fn hash_password_matches_sha2_hex() {
    for secret in [b"p1".as_slice(), b"".as_slice(), b"a longer secret \xff\x00".as_slice()] {
        let got = hash_password(secret);
        let expected = format!("{:x}", sha2::Sha256::digest(secret)).into_bytes();
        assert_eq!(got, expected);
    }
}

#[test]
fn hash_password_is_64_lowercase_hex_digits() {
    for secret in [b"p1".as_slice(), b"".as_slice(), b"\x00\xff".as_slice()] {
        let digest = hash_password(secret);
        assert_eq!(digest.len(), 64);
        assert!(digest
            .iter()
            .all(|b| b.is_ascii_digit() || (b'a'..=b'f').contains(b)));
    }
}

#[test]
fn hash_password_is_deterministic_and_spreads() {
    assert_eq!(hash_password(b"p1"), hash_password(b"p1"));
    assert_ne!(hash_password(b"p1"), hash_password(b"p2"));
    // what gets stored is never the plaintext
    assert_ne!(hash_password(b"p1"), b"p1".to_vec());
}

#[test]
fn parse_bearer_accepts_exactly_two_words() {
    assert_eq!(parse_bearer(b"Bearer tok"), Some(b"tok".to_vec()));
    assert_eq!(parse_bearer(b"  Bearer\t tok \r\n"), Some(b"tok".to_vec()));
    assert_eq!(parse_bearer(b"Bearer"), None);
    assert_eq!(parse_bearer(b"Bearer a b"), None);
    assert_eq!(parse_bearer(b"bearer tok"), None);
    assert_eq!(parse_bearer(b""), None);
}

#[test]
fn constant_time_eq_basic() {
    assert!(constant_time_eq(b"", b""));
    assert!(constant_time_eq(b"abc", b"abc"));
    assert!(!constant_time_eq(b"abc", b"abd"));
    assert!(!constant_time_eq(b"abc", b"ab"));
    assert!(!constant_time_eq(b"\x00", b"\x01"));
}

#[test]
fn b64_encode_matches_base64_crate() {
    let cases: Vec<Vec<u8>> = vec![
        b"".to_vec(),
        b"f".to_vec(),
        b"fo".to_vec(),
        b"foo".to_vec(),
        b"foob".to_vec(),
        b"fooba".to_vec(),
        b"foobar".to_vec(),
        vec![0u8, 255, 1, 254, 63, 62, 128],
        (0u8..=255).collect(),
    ];
    for c in cases {
        let got = b64_encode(&c);
        let expected = URL_SAFE_NO_PAD.encode(&c).into_bytes();
        assert_eq!(got, expected);
        assert_eq!(b64_decode(&got), Some(c));
    }
}

#[test]
fn b64_decode_agrees_with_base64_crate_on_rejects() {
    for bad in [
        b"A".as_slice(),
        b"AC".as_slice(),     // non-zero trailing bits
        b"AAAB".as_slice(),   // fine shape, decodes
        b"ab?c".as_slice(),
        b"a.bc".as_slice(),
        b"QUJD=".as_slice(),  // padding is not accepted
    ] {
        let mine = b64_decode(bad);
        let theirs = URL_SAFE_NO_PAD.decode(bad).ok();
        assert_eq!(mine, theirs);
    }
}

#[test]
fn parse_u64_accepts_exactly_canonical_decimals() {
    assert_eq!(parse_u64(b"0"), Some(0));
    assert_eq!(parse_u64(b"42"), Some(42));
    assert_eq!(parse_u64(b"18446744073709551615"), Some(u64::MAX));
    assert_eq!(parse_u64(b"18446744073709551616"), None);
    assert_eq!(parse_u64(b"99999999999999999999999"), None);
    assert_eq!(parse_u64(b""), None);
    assert_eq!(parse_u64(b"042"), None);
    assert_eq!(parse_u64(b"00"), None);
    assert_eq!(parse_u64(b"12a"), None);
    assert_eq!(parse_u64(b"-1"), None);
}

#[test]
fn claims_encode_exact_bytes_and_round_trip() {
    let c = encode_claims(b"a@x.com", 77);
    assert_eq!(c, b"{\"email\":\"a@x.com\",\"exp\":77}".to_vec());
    assert_eq!(parse_claims(&c), Some((b"a@x.com".to_vec(), 77)));

    let esc = encode_claims(b"a\"b\\c", 5);
    assert_eq!(esc, b"{\"email\":\"a\\\"b\\\\c\",\"exp\":5}".to_vec());
    assert_eq!(parse_claims(&esc), Some((b"a\"b\\c".to_vec(), 5)));
}

#[test]
fn claims_parse_rejects_malformed_objects() {
    for bad in [
        b"".as_slice(),
        b"{}".as_slice(),
        b"{\"email\":\"a\"}".as_slice(),
        b"{\"email\":\"a\",\"exp\":}".as_slice(),
        b"{\"email\":\"a\",\"exp\":01}".as_slice(),
        b"{\"email\":\"a\",\"exp\":1} ".as_slice(),
        b"{\"email\":\"a\",\"exp\":1,\"x\":2}".as_slice(),
        b"{\"Email\":\"a\",\"exp\":1}".as_slice(),
        b"{\"email\":\"a".as_slice(),
    ] {
        assert_eq!(parse_claims(bad), None, "accepted: {:?}", bad);
    }
}

#[test]
fn split3_needs_exactly_two_separators() {
    assert_eq!(
        split3(b"a.b.c", b'.'),
        Some((b"a".to_vec(), b"b".to_vec(), b"c".to_vec()))
    );
    assert_eq!(split3(b"..", b'.'), Some((vec![], vec![], vec![])));
    assert_eq!(split3(b"a.b", b'.'), None);
    assert_eq!(split3(b"abc", b'.'), None);
    assert_eq!(split3(b"a.b.c.d", b'.'), None);
    assert_eq!(split3(b"", b'.'), None);
}

#[test]
fn store_create_lookup_remove() {
    let mut store = CredentialStore::new();
    assert_eq!(store.lookup(b"a"), None);
    assert_eq!(store.create(b"a", b"1"), CreateResult::Created);
    assert_eq!(store.create(b"a", b"2"), CreateResult::Conflict);
    assert_eq!(store.lookup(b"a"), Some(b"1".to_vec()));
    assert_eq!(store.create(b"b", b"3"), CreateResult::Created);
    assert_eq!(store.lookup(b"b"), Some(b"3".to_vec()));
    assert_eq!(store.remove(b"a"), RemoveResult::Removed);
    assert_eq!(store.lookup(b"a"), None);
    assert_eq!(store.remove(b"a"), RemoveResult::NotFound);
    assert_eq!(store.lookup(b"b"), Some(b"3".to_vec()));
}
