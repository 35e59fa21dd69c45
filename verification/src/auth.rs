//! Register, login, and delete: the rules over the store and the signer.
//!
//! Each operation validates its input, drives the credential store and the
//! token signer, and returns a typed outcome; the contracts say exactly which
//! outcome comes on which input and state.

use crate::constant_time_eq;
use crate::crypto::{hash_password, sha256_hex_of};
use crate::store::{CreateResult, CredentialStore, RemoveResult};
use crate::token::{lemma_issue_verify, lemma_token_bytes, spec_token, spec_verify, TokenSigner};
use vstd::prelude::*;

verus! {

#[derive(Clone, Copy, PartialEq, Eq, Structural, Debug)]
pub enum AuthError {
    AlreadyExists,
    InvalidCredentials,
    Unauthorized,
    UserNotFound,
}

pub open spec fn is_ws(b: u8) -> bool {
    b == 32 || (9 <= b && b <= 13)
}

/// The maximal whitespace-separated words of `s`, in order.
pub open spec fn ws_tokens(s: Seq<u8>) -> Seq<Seq<u8>>
    decreases s.len(),
{
    if s.len() == 0 {
        Seq::empty()
    } else if is_ws(s[0]) {
        ws_tokens(s.skip(1))
    } else {
        let rest = ws_tokens(s.skip(1));
        if s.len() >= 2 && !is_ws(s[1]) {
            seq![seq![s[0]] + rest[0]] + rest.skip(1)
        } else {
            seq![seq![s[0]]] + rest
        }
    }
}

/// `Bearer`
pub open spec fn bearer_lit() -> Seq<u8> {
    seq![66u8, 101, 97, 114, 101, 114]
}

/// The token of a well-formed bearer presentation: exactly the two words
/// `Bearer` and the token.
pub open spec fn spec_bearer(h: Seq<u8>) -> Option<Seq<u8>> {
    let t = ws_tokens(h);
    if t.len() == 2 && t[0] == bearer_lit() {
        Some(t[1])
    } else {
        None
    }
}

fn ws_tokens_x(s: &[u8]) -> (r: Vec<Vec<u8>>)
    ensures
        r@.len() == ws_tokens(s@).len(),
        forall|i: int| 0 <= i < r@.len() ==> r@[i]@ == ws_tokens(s@)[i],
    decreases s@.len(),
{
    if s.len() == 0 {
        Vec::new()
    } else {
        let b = s[0];
        let tail = vstd::slice::slice_subrange(s, 1, s.len());
        assert(tail@ =~= s@.skip(1));
        let mut rest = ws_tokens_x(tail);
        if b == 32 || (9 <= b && b <= 13) {
            rest
        } else {
            let ghost spec_rest = ws_tokens(s@.skip(1));
            if s.len() >= 2 && !(s[1] == 32 || (9 <= s[1] && s[1] <= 13)) {
                proof {
                    assert(s@.skip(1)[0] == s@[1]);
                    assert(!is_ws(s@.skip(1)[0]));
                    assert(spec_rest.len() >= 1);
                }
                let mut first = rest.remove(0);
                first.insert(0, b);
                let ghost first_view = first@;
                rest.insert(0, first);
                proof {
                    assert(first_view =~= seq![s@[0]] + spec_rest[0]);
                }
                proof {
                    let w = ws_tokens(s@);
                    assert(w == seq![seq![s@[0]] + spec_rest[0]] + spec_rest.skip(1));
                    assert(rest@.len() == w.len());
                    assert forall|i: int| 0 <= i < rest@.len() implies rest@[i]@ == w[i] by {
                        if i == 0 {
                            assert(rest@[0]@ == first_view);
                        } else {
                            assert(w[i] == spec_rest[i]);
                        }
                    }
                }
                rest
            } else {
                let mut first: Vec<u8> = Vec::new();
                first.push(b);
                let ghost first_view = first@;
                rest.insert(0, first);
                proof {
                    let w = ws_tokens(s@);
                    assert(w == seq![seq![s@[0]]] + spec_rest);
                    assert(first_view =~= seq![s@[0]]);
                    assert(rest@.len() == w.len());
                    assert forall|i: int| 0 <= i < rest@.len() implies rest@[i]@ == w[i] by {
                        if i == 0 {
                            assert(rest@[0]@ == first_view);
                        } else {
                            assert(w[i] == spec_rest[i - 1]);
                        }
                    }
                }
                rest
            }
        }
    }
}

fn bearer_lit_x() -> (r: Vec<u8>)
    ensures
        r@ == bearer_lit(),
{
    let mut out: Vec<u8> = Vec::new();
    out.push(66);
    out.push(101);
    out.push(97);
    out.push(114);
    out.push(101);
    out.push(114);
    assert(out@ =~= bearer_lit());
    out
}

/// Extracts the token from a `Bearer <token>` presentation, or rejects it.
pub fn parse_bearer(h: &[u8]) -> (r: Option<Vec<u8>>)
    ensures
        r is Some <==> spec_bearer(h@) is Some,
        r matches Some(t) ==> spec_bearer(h@) == Some(t@),
{
    let mut toks = ws_tokens_x(h);
    if toks.len() != 2 {
        return None;
    }
    let lit = bearer_lit_x();
    if !constant_time_eq(toks[0].as_slice(), lit.as_slice()) {
        assert(ws_tokens(h@)[0] != bearer_lit());
        return None;
    }
    let t = toks.remove(1);
    Some(t)
}

/// The login rule: the identity is present and its stored digest is the
/// digest of the offered secret.
pub open spec fn login_matches(
    users: Map<Seq<u8>, Seq<u8>>,
    email: Seq<u8>,
    secret: Seq<u8>,
) -> bool {
    users.contains_key(email) && users[email] == sha256_hex_of(secret)
}

/// The authentication service: one credential store and one signer, driven
/// by register, login, and delete.
pub struct Auth {
    store: CredentialStore,
    signer: TokenSigner,
}

impl Auth {
    pub closed spec fn users(&self) -> Map<Seq<u8>, Seq<u8>> {
        self.store@
    }

    pub closed spec fn key(&self) -> Seq<u8> {
        self.signer.spec_key()
    }

    pub closed spec fn wf(&self) -> bool {
        self.store.wf()
    }

    pub fn new(key: Vec<u8>) -> (r: Self)
        ensures
            r.users() == Map::<Seq<u8>, Seq<u8>>::empty(),
            r.key() == key@,
            r.wf(),
    {
        Auth { store: CredentialStore::new(), signer: TokenSigner::new(key) }
    }

    /// Registers an identity: stores the digest of the secret and issues a
    /// token, or reports that the identity already exists.
    pub fn register(&mut self, email: &[u8], secret: &[u8], now: u64) -> (r: Result<
        Vec<u8>,
        AuthError,
    >)
        requires
            old(self).wf(),
            now <= u64::MAX - 60,
        ensures
            final(self).wf(),
            final(self).key() == old(self).key(),
            old(self).users().contains_key(email@) ==> (r == Err::<Vec<u8>, AuthError>(
                AuthError::AlreadyExists,
            ) && final(self).users() == old(self).users()),
            !old(self).users().contains_key(email@) ==> ((r matches Ok(t) && t@ == spec_token(
                old(self).key(),
                email@,
                (now + 60) as u64,
            )) && final(self).users() == old(self).users().insert(
                email@,
                sha256_hex_of(secret@),
            )),
    {
        let digest = hash_password(secret);
        match self.store.create(email, digest.as_slice()) {
            CreateResult::Conflict => Err(AuthError::AlreadyExists),
            CreateResult::Created => Ok(self.signer.issue(email, now)),
        }
    }

    /// Logs an identity in: issues a token when the secret's digest matches
    /// the stored one, and fails with the one same error on an unknown
    /// identity or a wrong secret.
    pub fn login(&self, email: &[u8], secret: &[u8], now: u64) -> (r: Result<Vec<u8>, AuthError>)
        requires
            self.wf(),
            now <= u64::MAX - 60,
        ensures
            login_matches(self.users(), email@, secret@) ==> (r matches Ok(t) && t@ == spec_token(
                self.key(),
                email@,
                (now + 60) as u64,
            )),
            !login_matches(self.users(), email@, secret@) ==> r == Err::<Vec<u8>, AuthError>(
                AuthError::InvalidCredentials,
            ),
    {
        match self.store.lookup(email) {
            None => Err(AuthError::InvalidCredentials),
            Some(stored) => {
                let digest = hash_password(secret);
                if constant_time_eq(digest.as_slice(), stored.as_slice()) {
                    Ok(self.signer.issue(email, now))
                } else {
                    Err(AuthError::InvalidCredentials)
                }
            },
        }
    }

    /// Deletes the credential a bearer token speaks for: the presentation
    /// must parse, the token must verify at `now`, and the identity must
    /// still be present.
    pub fn delete(&mut self, authorization: &[u8], now: u64) -> (r: Result<(), AuthError>)
        requires
            old(self).wf(),
        ensures
            final(self).wf(),
            final(self).key() == old(self).key(),
            (match spec_bearer(authorization@) {
                None => r == Err::<(), AuthError>(AuthError::Unauthorized) && final(self).users()
                    == old(self).users(),
                Some(t) => match spec_verify(old(self).key(), t, now) {
                    None => r == Err::<(), AuthError>(AuthError::Unauthorized)
                        && final(self).users() == old(self).users(),
                    Some(email) => if old(self).users().contains_key(email) {
                        r == Ok::<(), AuthError>(())
                            && final(self).users() == old(self).users().remove(email)
                    } else {
                        r == Err::<(), AuthError>(AuthError::UserNotFound) && final(self).users()
                            == old(self).users()
                    },
                },
            }),
    {
        match parse_bearer(authorization) {
            None => Err(AuthError::Unauthorized),
            Some(token) => {
                match self.signer.verify(token.as_slice(), now) {
                    None => Err(AuthError::Unauthorized),
                    Some(email) => {
                        match self.store.remove(email.as_slice()) {
                            RemoveResult::Removed => Ok(()),
                            RemoveResult::NotFound => Err(AuthError::UserNotFound),
                        }
                    },
                }
            },
        }
    }
}

/// Registering and then immediately logging in with the same secret both
/// succeed, and a token issued for the registered identity verifies to that
/// identity at any time up to its expiry.
pub proof fn lemma_register_login_round_trip(
    users: Map<Seq<u8>, Seq<u8>>,
    key: Seq<u8>,
    email: Seq<u8>,
    secret: Seq<u8>,
    exp: u64,
    now: u64,
)
    requires
        !users.contains_key(email),
        now <= exp,
    ensures
        login_matches(users.insert(email, sha256_hex_of(secret)), email, secret),
        spec_verify(key, spec_token(key, email, exp), now) == Some(email),
{
    lemma_issue_verify(key, email, exp, now);
}

/// A login with a secret whose digest differs from the stored one fails;
/// two secrets share a digest only on a SHA-256 collision.
pub proof fn lemma_login_wrong_secret(
    users: Map<Seq<u8>, Seq<u8>>,
    email: Seq<u8>,
    s1: Seq<u8>,
    s2: Seq<u8>,
)
    requires
        users.contains_key(email),
        users[email] == sha256_hex_of(s1),
        sha256_hex_of(s2) != sha256_hex_of(s1),
    ensures
        !login_matches(users, email, s2),
{
}

/// Once an identity is present — whatever digest it was stored with, and
/// whichever of several racing registrations put it there — every further
/// registration of it conflicts.
pub proof fn lemma_register_conflict(users: Map<Seq<u8>, Seq<u8>>, email: Seq<u8>, digest: Seq<u8>)
    ensures
        users.insert(email, digest).contains_key(email),
{
}

pub open spec fn ws_free(s: Seq<u8>) -> bool {
    forall|i: int| 0 <= i < s.len() ==> !is_ws(s[i])
}

proof fn lemma_ws_tokens_word(s: Seq<u8>)
    requires
        ws_free(s),
        s.len() > 0,
    ensures
        ws_tokens(s) == seq![s],
    decreases s.len(),
{
    assert(!is_ws(s[0]));
    if s.len() == 1 {
        assert(s.skip(1) =~= Seq::<u8>::empty());
        assert(ws_tokens(s) == seq![seq![s[0]]] + ws_tokens(s.skip(1)));
        assert(ws_tokens(s) =~~= seq![s]);
    } else {
        assert(ws_free(s.skip(1)));
        lemma_ws_tokens_word(s.skip(1));
        assert(s.skip(1)[0] == s[1]);
        assert(!is_ws(s[1]));
        let rest = ws_tokens(s.skip(1));
        assert(rest == seq![s.skip(1)]);
        assert(seq![s[0]] + rest[0] =~= s);
        assert(rest.skip(1) =~= Seq::<Seq<u8>>::empty());
        assert(ws_tokens(s) =~~= seq![s]);
    }
}

proof fn lemma_ws_tokens_prefix(a: Seq<u8>, rest: Seq<u8>)
    requires
        ws_free(a),
        a.len() > 0,
    ensures
        ws_tokens(a + seq![32u8] + rest) == seq![a] + ws_tokens(rest),
    decreases a.len(),
{
    let s = a + seq![32u8] + rest;
    assert(s[0] == a[0]);
    assert(!is_ws(s[0]));
    if a.len() == 1 {
        assert(s[1] == 32 && is_ws(s[1]));
        assert(s.skip(1) =~= seq![32u8] + rest);
        assert((seq![32u8] + rest).skip(1) =~= rest);
        assert(ws_tokens(s.skip(1)) == ws_tokens(rest));
        assert(seq![s[0]] =~= a);
        assert(ws_tokens(s) =~~= seq![a] + ws_tokens(rest));
    } else {
        assert(ws_free(a.skip(1)));
        lemma_ws_tokens_prefix(a.skip(1), rest);
        assert(s[1] == a[1]);
        assert(!is_ws(s[1]));
        assert(s.skip(1) =~= a.skip(1) + seq![32u8] + rest);
        let r1 = ws_tokens(s.skip(1));
        assert(r1 == seq![a.skip(1)] + ws_tokens(rest));
        assert(r1[0] == a.skip(1));
        assert(seq![s[0]] + r1[0] =~= a);
        assert(r1.skip(1) =~= ws_tokens(rest));
        assert(ws_tokens(s) =~~= seq![a] + ws_tokens(rest));
    }
}

/// A `Bearer` presentation of any issued token hands `delete` exactly that
/// token: tokens hold no whitespace, so the header parses into the two words
/// `Bearer` and the token.
pub proof fn lemma_bearer_of_token(key: Seq<u8>, email: Seq<u8>, exp: u64)
    ensures
        spec_bearer(bearer_lit() + seq![32u8] + spec_token(key, email, exp)) == Some(
            spec_token(key, email, exp),
        ),
{
    let t = spec_token(key, email, exp);
    lemma_token_bytes(key, email, exp);
    assert(ws_free(t)) by {
        assert forall|i: int| 0 <= i < t.len() implies !is_ws(t[i]) by {
            assert(crate::b64::b64_val(t[i]) is Some || t[i] == 46);
        }
    }
    assert(ws_free(bearer_lit()));
    lemma_ws_tokens_prefix(bearer_lit(), t);
    lemma_ws_tokens_word(t);
    let w = ws_tokens(bearer_lit() + seq![32u8] + t);
    assert(w == seq![bearer_lit()] + seq![t]);
    assert(w.len() == 2 && w[0] == bearer_lit() && w[1] == t);
}

/// After a deletion the credential is gone: no secret logs that identity in.
pub proof fn lemma_delete_then_login(users: Map<Seq<u8>, Seq<u8>>, email: Seq<u8>, secret: Seq<u8>)
    ensures
        !login_matches(users.remove(email), email, secret),
{
}

/// A valid, unexpired token for a freshly registered identity verifies to
/// it, the identity is present for the deletion to remove, and once removed
/// no login for it can match.
pub proof fn lemma_delete_round_trip(
    users: Map<Seq<u8>, Seq<u8>>,
    key: Seq<u8>,
    email: Seq<u8>,
    secret: Seq<u8>,
    exp: u64,
    now: u64,
)
    requires
        now <= exp,
    ensures
        spec_verify(key, spec_token(key, email, exp), now) == Some(email),
        users.insert(email, sha256_hex_of(secret)).contains_key(email),
        !login_matches(users.insert(email, sha256_hex_of(secret)).remove(email), email, secret),
{
    lemma_issue_verify(key, email, exp, now);
}

} // verus!
