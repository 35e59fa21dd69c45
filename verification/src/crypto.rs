//! The two cryptographic primitives the token scheme rests on, behind trusted
//! wrappers: a SHA-256 digest rendered as lower-case hex, and HMAC-SHA-256.
//! Both are deterministic functions of their byte inputs, so each result is
//! given a name that the rest of the library reasons with.

use hmac::Mac;
use sha2::Digest;
use vstd::prelude::*;

verus! {

/// The lower-case hex rendering of the SHA-256 digest of `data`.
pub uninterp spec fn sha256_hex_of(data: Seq<u8>) -> Seq<u8>;

/// The HMAC-SHA-256 of `data` under `key`.
pub uninterp spec fn hmac_sha256_of(key: Seq<u8>, data: Seq<u8>) -> Seq<u8>;

/// True of a byte that renders one lower-case hex digit: `0`–`9` or `a`–`f`.
pub open spec fn is_hex_digit(b: u8) -> bool {
    (48 <= b && b <= 57) || (97 <= b && b <= 102)
}

/// Relies on sha2's SHA-256: a 32-byte digest determined by the input alone,
/// rendered here as 64 lower-case hex digits, two per digest byte.
#[verifier::external_body]
fn sha256_hex(data: &[u8]) -> (r: Vec<u8>)
    ensures
        r@ == sha256_hex_of(data@),
        r@.len() == 64,
        forall|i: int| 0 <= i < r@.len() ==> is_hex_digit(#[trigger] r@[i]),
{
    let digest = sha2::Sha256::digest(data);
    format!("{:x}", digest).into_bytes()
}

/// Relies on hmac's HMAC-SHA-256: a 32-byte keyed digest determined by the
/// key and the message alone; a key of any length is accepted.
#[verifier::external_body]
pub(crate) fn hmac_sha256(key: &[u8], data: &[u8]) -> (r: Vec<u8>)
    ensures
        r@ == hmac_sha256_of(key@, data@),
        r@.len() == 32,
{
    let mut mac = <hmac::Hmac<sha2::Sha256> as Mac>::new_from_slice(key)
        .expect("HMAC accepts any key length");
    mac.update(data);
    mac.finalize().into_bytes().to_vec()
}

/// One-way transform of a plaintext secret into its storable digest:
/// deterministic, total, 64 lower-case hex digits — never a plaintext.
pub fn hash_password(secret: &[u8]) -> (r: Vec<u8>)
    ensures
        r@ == sha256_hex_of(secret@),
        r@.len() == 64,
        forall|i: int| 0 <= i < r@.len() ==> is_hex_digit(#[trigger] r@[i]),
{
    sha256_hex(secret)
}

} // verus!
