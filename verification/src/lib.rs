//! Self-contained signed bearer tokens and the credential store they
//! authorize against.
//!
//! The library issues tokens of three dot-joined, URL-safe base64 segments —
//! header, claims, HMAC-SHA-256 signature — verifies them statelessly by
//! recomputing the signature and checking the expiry, and keeps one exclusive
//! identity-to-digest map driven by register, login, and delete. The
//! surrounding process supplies the clock and the transport; everything here
//! is synchronous, and every operation states its outcome exactly.

pub mod auth;
pub mod b64;
pub mod claims;
pub mod crypto;
pub mod split;
pub mod store;
pub mod token;

use vstd::prelude::*;

verus! {

/// Compares two byte slices for equality without an early exit on the first
/// mismatching byte, so that the running time does not reveal the position of
/// a difference. The length check happens separately, before the loop.
pub fn constant_time_eq(a: &[u8], b: &[u8]) -> (r: bool)
    ensures
        r == (a@ == b@),
{
    if a.len() != b.len() {
        assert(a@ != b@);
        return false;
    }
    let mut result: u8 = 0;
    let mut i: usize = 0;
    assert(a@.subrange(0, 0) =~= b@.subrange(0, 0));
    while i < a.len()
        invariant
            a@.len() == b@.len(),
            0 <= i <= a@.len(),
            result == 0 <==> a@.subrange(0, i as int) == b@.subrange(0, i as int),
        decreases a@.len() - i,
    {
        let x = a[i];
        let y = b[i];
        proof {
            assert(((x ^ y) == 0) == (x == y)) by (bit_vector);
            assert(((result | (x ^ y)) == 0) == (result == 0 && (x ^ y) == 0)) by (bit_vector);
            if result == 0 && x == y {
                assert(a@.subrange(0, i + 1) =~= a@.subrange(0, i as int).push(x));
                assert(b@.subrange(0, i + 1) =~= b@.subrange(0, i as int).push(y));
            }
            if a@.subrange(0, i + 1) == b@.subrange(0, i + 1) {
                assert(a@.subrange(0, i as int) =~= a@.subrange(0, i + 1).subrange(0, i as int));
                assert(b@.subrange(0, i as int) =~= b@.subrange(0, i + 1).subrange(0, i as int));
                assert(a@[i as int] == a@.subrange(0, i + 1)[i as int]);
                assert(b@[i as int] == b@.subrange(0, i + 1)[i as int]);
            }
        }
        result = result | (x ^ y);
        i = i + 1;
    }
    proof {
        if a@.subrange(0, a@.len() as int) == b@.subrange(0, b@.len() as int) {
            assert(a@ =~= a@.subrange(0, a@.len() as int));
            assert(b@ =~= b@.subrange(0, b@.len() as int));
        } else {
            assert(a@ != b@);
        }
    }
    result == 0
}

} // verus!
