//! Canonical encoding and decoding of the claims segment.
//!
//! A claims object carries the identity and the expiry and is written as
//! `{"email":"<identity>","exp":<seconds>}`, with `"` and `\` in the identity
//! escaped by a backslash. Decoding accepts exactly this shape and is the
//! verified inverse of encoding.

use vstd::prelude::*;

verus! {

pub open spec fn is_digit(b: u8) -> bool {
    48 <= b && b <= 57
}

pub open spec fn all_digits(s: Seq<u8>) -> bool {
    forall|i: int| 0 <= i < s.len() ==> is_digit(s[i])
}

/// Value of a digit string, most significant digit first.
pub open spec fn dec_val(s: Seq<u8>) -> int
    decreases s.len(),
{
    if s.len() == 0 {
        0
    } else {
        dec_val(s.drop_last()) * 10 + (s.last() - 48)
    }
}

/// Decimal digits of `n`, without a leading zero.
pub open spec fn spec_dec(n: nat) -> Seq<u8>
    decreases n,
{
    if n < 10 {
        seq![(48 + n) as u8]
    } else {
        spec_dec(n / 10).push((48 + n % 10) as u8)
    }
}

pub proof fn lemma_spec_dec_digits(n: nat)
    ensures
        all_digits(spec_dec(n)),
        spec_dec(n).len() >= 1,
        n >= 10 ==> spec_dec(n).len() > 1,
        spec_dec(n).len() > 1 ==> spec_dec(n)[0] != 48,
    decreases n,
{
    if n >= 10 {
        lemma_spec_dec_digits(n / 10);
        assert(n / 10 >= 1);
        let d = spec_dec(n / 10);
        let s = spec_dec(n);
        assert(s == d.push((48 + n % 10) as u8));
        assert(s[0] == d[0]);
        if n / 10 < 10 {
            assert(d == seq![(48 + n / 10) as u8]);
            assert(d[0] == (48 + n / 10) as u8);
            assert(d[0] != 48);
        }
        assert forall|i: int| 0 <= i < s.len() implies is_digit(s[i]) by {
            if i < d.len() {
                assert(s[i] == d[i]);
            } else {
                assert(s[i] == (48 + n % 10) as u8);
            }
        }
    }
}

pub proof fn lemma_dec_val_inverse(n: nat)
    ensures
        dec_val(spec_dec(n)) == n,
    decreases n,
{
    if n < 10 {
        let s = spec_dec(n);
        assert(s == seq![(48 + n) as u8]);
        assert(s.drop_last() =~= Seq::<u8>::empty());
        assert(dec_val(Seq::<u8>::empty()) == 0);
        assert(s.last() == (48 + n) as u8);
        assert(dec_val(s) == dec_val(s.drop_last()) * 10 + (s.last() - 48));
    } else {
        lemma_dec_val_inverse(n / 10);
        let s = spec_dec(n);
        assert(s.drop_last() =~= spec_dec(n / 10));
        assert(s.last() == (48 + n % 10) as u8);
        vstd::arithmetic::div_mod::lemma_fundamental_div_mod(n as int, 10);
        assert(dec_val(s) == dec_val(s.drop_last()) * 10 + (s.last() - 48));
    }
}

proof fn lemma_dec_val_nonneg(s: Seq<u8>)
    requires
        all_digits(s),
    ensures
        dec_val(s) >= 0,
    decreases s.len(),
{
    if s.len() > 0 {
        assert(all_digits(s.drop_last()));
        lemma_dec_val_nonneg(s.drop_last());
    }
}

/// A longer digit string never has a smaller value.
proof fn lemma_dec_val_mono(s: Seq<u8>, k: int)
    requires
        all_digits(s),
        0 <= k <= s.len(),
    ensures
        dec_val(s.take(k)) <= dec_val(s),
    decreases s.len(),
{
    if k < s.len() {
        let d = s.drop_last();
        assert(all_digits(d));
        assert(s.take(k) =~= d.take(k));
        lemma_dec_val_mono(d, k);
        lemma_dec_val_nonneg(d);
    } else {
        assert(s.take(k) =~= s);
    }
}

/// Parses a canonical decimal `u64`: digits only, no leading zero, in range.
pub open spec fn spec_parse_u64(s: Seq<u8>) -> Option<u64> {
    if s.len() == 0 || !all_digits(s) || (s.len() > 1 && s[0] == 48) || dec_val(s) > u64::MAX {
        None
    } else {
        Some(dec_val(s) as u64)
    }
}

pub proof fn lemma_parse_dec_inverse(n: u64)
    ensures
        spec_parse_u64(spec_dec(n as nat)) == Some(n),
{
    lemma_spec_dec_digits(n as nat);
    lemma_dec_val_inverse(n as nat);
}

/// Appends the decimal digits of `n`.
pub fn push_dec(n: u64, out: &mut Vec<u8>)
    ensures
        final(out)@ == old(out)@ + spec_dec(n as nat),
    decreases n,
{
    if n < 10 {
        out.push(48 + n as u8);
        assert(out@ =~= old(out)@ + spec_dec(n as nat));
    } else {
        push_dec(n / 10, out);
        out.push(48 + (n % 10) as u8);
        assert(out@ =~= old(out)@ + spec_dec(n as nat));
    }
}

/// Parses a canonical decimal `u64`, rejecting anything else.
pub fn parse_u64(s: &[u8]) -> (r: Option<u64>)
    ensures
        r == spec_parse_u64(s@),
{
    if s.len() == 0 {
        return None;
    }
    if s.len() > 1 && s[0] == 48 {
        return None;
    }
    let mut acc: u64 = 0;
    let mut i: usize = 0;
    assert(s@.take(0) =~= Seq::<u8>::empty());
    while i < s.len()
        invariant
            0 <= i <= s@.len(),
            all_digits(s@.take(i as int)),
            acc == dec_val(s@.take(i as int)),
            dec_val(s@.take(i as int)) <= u64::MAX,
        decreases s@.len() - i,
    {
        let b = s[i];
        if b < 48 || b > 57 {
            assert(!is_digit(s@[i as int]));
            return None;
        }
        let d = b - 48;
        proof {
            assert(s@.take(i + 1).drop_last() =~= s@.take(i as int));
            assert(s@.take(i + 1).last() == b);
            assert(all_digits(s@.take(i + 1)));
        }
        if acc > (u64::MAX - d as u64) / 10 {
            proof {
                assert(acc * 10 + d > u64::MAX) by {
                    let q = (u64::MAX - d as u64) / 10;
                    assert(u64::MAX - d < (q + 1) * 10);
                    assert(acc >= q + 1);
                    assert(acc * 10 >= (q + 1) * 10) by (nonlinear_arith)
                        requires
                            acc >= q + 1,
                    ;
                }
                assert(dec_val(s@.take(i + 1)) > u64::MAX);
                if all_digits(s@) {
                    lemma_dec_val_mono(s@, i + 1);
                    assert(dec_val(s@) > u64::MAX);
                }
            }
            return None;
        }
        acc = acc * 10 + d as u64;
        i = i + 1;
    }
    assert(s@.take(s@.len() as int) =~= s@);
    Some(acc)
}

/// Escapes one byte for a JSON string: `"` and `\` take a backslash.
pub open spec fn esc1(b: u8) -> Seq<u8> {
    if b == 34 || b == 92 {
        seq![92u8, b]
    } else {
        seq![b]
    }
}

pub open spec fn spec_esc(s: Seq<u8>) -> Seq<u8>
    decreases s.len(),
{
    if s.len() == 0 {
        Seq::empty()
    } else {
        esc1(s[0]) + spec_esc(s.skip(1))
    }
}

/// Appends the escaped form of `s`.
pub fn push_esc(s: &[u8], out: &mut Vec<u8>)
    ensures
        final(out)@ == old(out)@ + spec_esc(s@),
    decreases s@.len(),
{
    if s.len() == 0 {
        assert(out@ =~= old(out)@ + spec_esc(s@));
    } else {
        let b = s[0];
        if b == 34 || b == 92 {
            out.push(92);
            out.push(b);
        } else {
            out.push(b);
        }
        push_esc(vstd::slice::slice_subrange(s, 1, s.len()), out);
        assert(s@.subrange(1, s@.len() as int) =~= s@.skip(1));
        assert(out@ =~= old(out)@ + spec_esc(s@));
    }
}

/// Scans an escaped JSON string up to its closing quote; returns the
/// unescaped content and what follows the quote.
pub open spec fn spec_scan_str(s: Seq<u8>) -> Option<(Seq<u8>, Seq<u8>)>
    decreases s.len(),
{
    if s.len() == 0 {
        None
    } else if s[0] == 34 {
        Some((Seq::empty(), s.skip(1)))
    } else if s[0] == 92 {
        if s.len() >= 2 && (s[1] == 34 || s[1] == 92) {
            match spec_scan_str(s.skip(2)) {
                Some(p) => Some((seq![s[1]] + p.0, p.1)),
                None => None,
            }
        } else {
            None
        }
    } else {
        match spec_scan_str(s.skip(1)) {
            Some(p) => Some((seq![s[0]] + p.0, p.1)),
            None => None,
        }
    }
}

/// Scanning undoes escaping.
pub proof fn lemma_scan_esc(email: Seq<u8>, tail: Seq<u8>)
    ensures
        spec_scan_str(spec_esc(email) + seq![34u8] + tail) == Some((email, tail)),
    decreases email.len(),
{
    let s = spec_esc(email) + seq![34u8] + tail;
    if email.len() == 0 {
        assert(spec_esc(email) =~= Seq::<u8>::empty());
        assert(s[0] == 34);
        assert(s.skip(1) =~= tail);
        assert(spec_scan_str(s)->Some_0.0 =~= email);
    } else {
        let b = email[0];
        lemma_scan_esc(email.skip(1), tail);
        let s1 = spec_esc(email.skip(1)) + seq![34u8] + tail;
        if b == 34 || b == 92 {
            assert(s[0] == 92 && s[1] == b);
            assert(s.len() >= 2);
            assert(s.skip(2) =~= s1);
            assert(seq![b] + email.skip(1) =~= email);
        } else {
            assert(s[0] == b);
            assert(s.skip(1) =~= s1);
            assert(seq![b] + email.skip(1) =~= email);
        }
    }
}

/// Scans up to the closing quote; `Some((content, j))` means the quote closes
/// at `j - 1` and the rest of the input starts at `j`.
pub fn scan_str(s: &[u8]) -> (r: Option<(Vec<u8>, usize)>)
    ensures
        r is Some <==> spec_scan_str(s@) is Some,
        r matches Some(p) ==> (p.1 <= s@.len() && spec_scan_str(s@) == Some(
            (p.0@, s@.skip(p.1 as int)),
        )),
{
    let mut out: Vec<u8> = Vec::new();
    let mut i: usize = 0;
    assert(s@.skip(0) =~= s@);
    assert(out@ =~= Seq::<u8>::empty());
    loop
        invariant
            0 <= i <= s@.len(),
            (spec_scan_str(s@) is Some <==> spec_scan_str(s@.skip(i as int)) is Some),
            (forall|e: Seq<u8>, rest: Seq<u8>|
                spec_scan_str(s@.skip(i as int)) == Some((e, rest)) ==> spec_scan_str(s@) == Some(
                    (out@ + e, rest),
                )),
        decreases s@.len() - i,
    {
        if i >= s.len() {
            assert(s@.skip(i as int) =~= Seq::<u8>::empty());
            return None;
        }
        let b = s[i];
        let ghost pre = s@.skip(i as int);
        assert(pre[0] == b);
        if b == 34 {
            proof {
                assert(pre.skip(1) =~= s@.skip(i + 1));
                assert(spec_scan_str(pre) == Some((Seq::<u8>::empty(), s@.skip(i + 1))));
                assert(out@ + Seq::<u8>::empty() =~= out@);
            }
            return Some((out, i + 1));
        } else if b == 92 {
            if i + 1 < s.len() && (s[i + 1] == 34 || s[i + 1] == 92) {
                let c = s[i + 1];
                let ghost out0 = out@;
                out.push(c);
                proof {
                    assert(pre.len() >= 2 && pre[1] == c);
                    assert(pre.skip(2) =~= s@.skip(i + 2));
                    assert(spec_scan_str(pre) is Some <==> spec_scan_str(s@.skip(i + 2)) is Some);
                    assert forall|e: Seq<u8>, rest: Seq<u8>|
                        spec_scan_str(s@.skip(i + 2)) == Some((e, rest)) implies spec_scan_str(s@)
                        == Some((out@ + e, rest)) by {
                        assert(spec_scan_str(pre) == Some((seq![c] + e, rest)));
                        assert(spec_scan_str(s@) == Some((out0 + (seq![c] + e), rest)));
                        assert(out0 + (seq![c] + e) =~= out@ + e);
                    }
                }
                i = i + 2;
            } else {
                proof {
                    if pre.len() >= 2 {
                        assert(pre[1] == s@[i + 1]);
                    }
                    assert(spec_scan_str(pre) is None);
                }
                return None;
            }
        } else {
            let ghost out0 = out@;
            out.push(b);
            proof {
                assert(pre.skip(1) =~= s@.skip(i + 1));
                assert(spec_scan_str(pre) is Some <==> spec_scan_str(s@.skip(i + 1)) is Some);
                assert forall|e: Seq<u8>, rest: Seq<u8>|
                    spec_scan_str(s@.skip(i + 1)) == Some((e, rest)) implies spec_scan_str(s@)
                    == Some((out@ + e, rest)) by {
                    assert(spec_scan_str(pre) == Some((seq![b] + e, rest)));
                    assert(spec_scan_str(s@) == Some((out0 + (seq![b] + e), rest)));
                    assert(out0 + (seq![b] + e) =~= out@ + e);
                }
            }
            i = i + 1;
        }
    }
}

/// `{"email":"` — how every claims object begins.
pub open spec fn claims_prefix() -> Seq<u8> {
    seq![123u8, 34, 101, 109, 97, 105, 108, 34, 58, 34]
}

/// `,"exp":` — between the closing quote of the identity and the expiry.
pub open spec fn claims_mid() -> Seq<u8> {
    seq![44u8, 34, 101, 120, 112, 34, 58]
}

/// The canonical claims object for an identity and an expiry.
pub open spec fn spec_claims_json(email: Seq<u8>, exp: u64) -> Seq<u8> {
    claims_prefix() + spec_esc(email) + seq![34u8] + claims_mid() + spec_dec(exp as nat) + seq![
        125u8,
    ]
}

fn claims_prefix_x() -> (r: Vec<u8>)
    ensures
        r@ == claims_prefix(),
{
    let mut out: Vec<u8> = Vec::new();
    out.push(123);
    out.push(34);
    out.push(101);
    out.push(109);
    out.push(97);
    out.push(105);
    out.push(108);
    out.push(34);
    out.push(58);
    out.push(34);
    assert(out@ =~= claims_prefix());
    out
}

fn claims_mid_x() -> (r: Vec<u8>)
    ensures
        r@ == claims_mid(),
{
    let mut out: Vec<u8> = Vec::new();
    out.push(44);
    out.push(34);
    out.push(101);
    out.push(120);
    out.push(112);
    out.push(34);
    out.push(58);
    assert(out@ =~= claims_mid());
    out
}

/// True when `s` begins with `p`.
pub fn starts_with(s: &[u8], p: &[u8]) -> (r: bool)
    ensures
        r == (s@.len() >= p@.len() && s@.take(p@.len() as int) == p@),
{
    if s.len() < p.len() {
        return false;
    }
    let mut i: usize = 0;
    while i < p.len()
        invariant
            0 <= i <= p@.len() <= s@.len(),
            forall|j: int| 0 <= j < i ==> s@[j] == p@[j],
        decreases p@.len() - i,
    {
        if s[i] != p[i] {
            assert(s@.take(p@.len() as int)[i as int] != p@[i as int]);
            return false;
        }
        i = i + 1;
    }
    assert(s@.take(p@.len() as int) =~= p@);
    true
}

/// Builds the canonical claims object.
pub fn encode_claims(email: &[u8], exp: u64) -> (r: Vec<u8>)
    ensures
        r@ == spec_claims_json(email@, exp),
{
    let mut out = claims_prefix_x();
    push_esc(email, &mut out);
    out.push(34);
    let mut mid = claims_mid_x();
    out.append(&mut mid);
    assert(out@ =~= claims_prefix() + spec_esc(email@) + seq![34u8] + claims_mid());
    push_dec(exp, &mut out);
    out.push(125);
    assert(out@ =~= spec_claims_json(email@, exp));
    out
}

/// Strict decoding of a claims object: exactly the canonical shape, or `None`.
pub open spec fn spec_parse_claims(s: Seq<u8>) -> Option<(Seq<u8>, u64)> {
    if s.len() < 10 || s.take(10) != claims_prefix() {
        None
    } else {
        match spec_scan_str(s.skip(10)) {
            None => None,
            Some(p) => {
                let rest = p.1;
                if rest.len() < 7 || rest.take(7) != claims_mid() {
                    None
                } else {
                    let num = rest.skip(7);
                    if num.len() < 2 || num.last() != 125 {
                        None
                    } else {
                        match spec_parse_u64(num.drop_last()) {
                            None => None,
                            Some(x) => Some((p.0, x)),
                        }
                    }
                }
            },
        }
    }
}

/// Decodes a claims object, accepting exactly what `encode_claims` produces.
pub fn parse_claims(s: &[u8]) -> (r: Option<(Vec<u8>, u64)>)
    ensures
        r is Some <==> spec_parse_claims(s@) is Some,
        r matches Some(p) ==> spec_parse_claims(s@) == Some((p.0@, p.1)),
{
    let prefix = claims_prefix_x();
    if !starts_with(s, prefix.as_slice()) {
        return None;
    }
    assert(s@.take(10) == claims_prefix());
    let body = vstd::slice::slice_subrange(s, 10, s.len());
    assert(body@ =~= s@.skip(10));
    match scan_str(body) {
        None => None,
        Some((email, j)) => {
            let rest = vstd::slice::slice_subrange(body, j, body.len());
            assert(rest@ =~= body@.skip(j as int));
            let mid = claims_mid_x();
            if !starts_with(rest, mid.as_slice()) {
                return None;
            }
            let num = vstd::slice::slice_subrange(rest, 7, rest.len());
            assert(num@ =~= rest@.skip(7));
            if num.len() < 2 {
                return None;
            }
            if num[num.len() - 1] != 125 {
                assert(num@.last() != 125);
                return None;
            }
            let digits = vstd::slice::slice_subrange(num, 0, num.len() - 1);
            assert(digits@ =~= num@.drop_last());
            match parse_u64(digits) {
                None => None,
                Some(x) => Some((email, x)),
            }
        },
    }
}

/// Decoding inverts encoding of the claims object.
pub proof fn lemma_claims_round_trip(email: Seq<u8>, exp: u64)
    ensures
        spec_parse_claims(spec_claims_json(email, exp)) == Some((email, exp)),
{
    let s = spec_claims_json(email, exp);
    let tail = claims_mid() + spec_dec(exp as nat) + seq![125u8];
    lemma_spec_dec_digits(exp as nat);
    assert(s.len() >= 10);
    assert(s.take(10) =~= claims_prefix());
    assert(s.skip(10) =~= spec_esc(email) + seq![34u8] + tail);
    lemma_scan_esc(email, tail);
    assert(spec_scan_str(s.skip(10)) == Some((email, tail)));
    assert(tail.take(7) =~= claims_mid());
    let num = tail.skip(7);
    assert(num =~= spec_dec(exp as nat) + seq![125u8]);
    assert(num.len() >= 2);
    assert(num.last() == 125);
    assert(num.drop_last() =~= spec_dec(exp as nat));
    lemma_parse_dec_inverse(exp);
}

} // verus!
