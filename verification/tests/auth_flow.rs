use token_auth::auth::{Auth, AuthError};
use token_auth::token::TokenSigner;

const NOW: u64 = 1_700_000_000;

fn bearer(token: &[u8]) -> Vec<u8> {
    let mut v = b"Bearer ".to_vec();
    v.extend_from_slice(token);
    v
}

#[test]
fn register_then_login_both_verify() {
    let mut auth = Auth::new(b"test-key".to_vec());
    let t1 = auth.register(b"a@x.com", b"p1", NOW).unwrap();
    let t2 = auth.login(b"a@x.com", b"p1", NOW + 1).unwrap();
    let signer = TokenSigner::new(b"test-key".to_vec());
    assert_eq!(signer.verify(&t1, NOW), Some(b"a@x.com".to_vec()));
    assert_eq!(signer.verify(&t2, NOW + 1), Some(b"a@x.com".to_vec()));
}

#[test]
fn login_with_wrong_secret_fails() {
    let mut auth = Auth::new(b"test-key".to_vec());
    auth.register(b"a@x.com", b"p1", NOW).unwrap();
    let r = auth.login(b"a@x.com", b"p2", NOW);
    assert!(matches!(r, Err(AuthError::InvalidCredentials)));
}

#[test]
fn login_with_unknown_identity_fails() {
    let auth = Auth::new(b"test-key".to_vec());
    let r = auth.login(b"nobody@x.com", b"p1", NOW);
    assert!(matches!(r, Err(AuthError::InvalidCredentials)));
}

#[test]
fn register_twice_conflicts() {
    let mut auth = Auth::new(b"test-key".to_vec());
    assert!(auth.register(b"a@x.com", b"p1", NOW).is_ok());
    let r = auth.register(b"a@x.com", b"p2", NOW);
    assert!(matches!(r, Err(AuthError::AlreadyExists)));
    // the first registration still stands
    assert!(auth.login(b"a@x.com", b"p1", NOW).is_ok());
    assert!(matches!(
        auth.login(b"a@x.com", b"p2", NOW),
        Err(AuthError::InvalidCredentials)
    ));
}

#[test]
fn delete_with_valid_token_removes_credential() {
    let mut auth = Auth::new(b"test-key".to_vec());
    auth.register(b"a@x.com", b"p1", NOW).unwrap();
    let t2 = auth.login(b"a@x.com", b"p1", NOW + 1).unwrap();
    assert_eq!(auth.delete(&bearer(&t2), NOW + 2), Ok(()));
    let r = auth.login(b"a@x.com", b"p1", NOW + 3);
    assert!(matches!(r, Err(AuthError::InvalidCredentials)));
}

#[test]
fn delete_twice_reports_user_not_found() {
    let mut auth = Auth::new(b"test-key".to_vec());
    auth.register(b"a@x.com", b"p1", NOW).unwrap();
    let t = auth.login(b"a@x.com", b"p1", NOW).unwrap();
    assert_eq!(auth.delete(&bearer(&t), NOW + 1), Ok(()));
    let r = auth.delete(&bearer(&t), NOW + 2);
    assert!(matches!(r, Err(AuthError::UserNotFound)));
}

#[test]
fn delete_with_expired_token_is_unauthorized() {
    let mut auth = Auth::new(b"test-key".to_vec());
    let t = auth.register(b"a@x.com", b"p1", NOW).unwrap();
    // expiry is NOW + 60; one second past it the token no longer verifies
    let r = auth.delete(&bearer(&t), NOW + 61);
    assert!(matches!(r, Err(AuthError::Unauthorized)));
    // the credential is untouched
    assert!(auth.login(b"a@x.com", b"p1", NOW).is_ok());
}

#[test]
fn delete_with_token_signed_under_other_key_is_unauthorized() {
    let mut auth = Auth::new(b"test-key".to_vec());
    auth.register(b"a@x.com", b"p1", NOW).unwrap();
    let other = TokenSigner::new(b"another-key".to_vec());
    let forged = other.issue(b"a@x.com", NOW);
    let r = auth.delete(&bearer(&forged), NOW + 1);
    assert!(matches!(r, Err(AuthError::Unauthorized)));
    assert!(auth.login(b"a@x.com", b"p1", NOW).is_ok());
}

#[test]
fn delete_with_malformed_presentation_is_unauthorized() {
    let mut auth = Auth::new(b"test-key".to_vec());
    let t = auth.register(b"a@x.com", b"p1", NOW).unwrap();
    for bad in [
        b"".to_vec(),
        b"Bearer".to_vec(),
        b"Bear hug".to_vec(),
        b"bearer lowercase".to_vec(),
        {
            let mut v = bearer(&t);
            v.extend_from_slice(b" extra");
            v
        },
    ] {
        let r = auth.delete(&bad, NOW + 1);
        assert!(matches!(r, Err(AuthError::Unauthorized)));
    }
    assert!(auth.login(b"a@x.com", b"p1", NOW).is_ok());
}

#[test]
fn bearer_presentation_tolerates_extra_whitespace() {
    let mut auth = Auth::new(b"test-key".to_vec());
    auth.register(b"a@x.com", b"p1", NOW).unwrap();
    let t = auth.login(b"a@x.com", b"p1", NOW).unwrap();
    let mut h = b"  Bearer \t ".to_vec();
    h.extend_from_slice(&t);
    h.extend_from_slice(b"  ");
    assert_eq!(auth.delete(&h, NOW + 1), Ok(()));
}

#[test]
fn identity_with_quote_and_backslash_round_trips() {
    let mut auth = Auth::new(b"test-key".to_vec());
    let email: &[u8] = b"a\"b\\c@x.com";
    let t = auth.register(email, b"p1", NOW).unwrap();
    let signer = TokenSigner::new(b"test-key".to_vec());
    assert_eq!(signer.verify(&t, NOW), Some(email.to_vec()));
    assert_eq!(auth.delete(&bearer(&t), NOW + 1), Ok(()));
}

#[test]
fn end_to_end_example() {
    let mut auth = Auth::new(b"test-key".to_vec());
    let t1 = auth.register(b"a@x.com", b"p1", NOW).unwrap();
    let parts: Vec<&[u8]> = t1.split(|b| *b == b'.').collect();
    assert_eq!(parts.len(), 3);
    let claims = base64::Engine::decode(
        &base64::engine::general_purpose::URL_SAFE_NO_PAD,
        parts[1],
    )
    .unwrap();
    let expected = format!("{{\"email\":\"a@x.com\",\"exp\":{}}}", NOW + 60).into_bytes();
    assert_eq!(claims, expected);

    let t2 = auth.login(b"a@x.com", b"p1", NOW + 5).unwrap();
    let parts2: Vec<&[u8]> = t2.split(|b| *b == b'.').collect();
    let claims2 = base64::Engine::decode(
        &base64::engine::general_purpose::URL_SAFE_NO_PAD,
        parts2[1],
    )
    .unwrap();
    let expected2 = format!("{{\"email\":\"a@x.com\",\"exp\":{}}}", NOW + 65).into_bytes();
    assert_eq!(claims2, expected2);

    assert_eq!(auth.delete(&bearer(&t2), NOW + 6), Ok(()));
    assert!(matches!(
        auth.login(b"a@x.com", b"p1", NOW + 7),
        Err(AuthError::InvalidCredentials)
    ));
}
