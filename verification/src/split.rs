//! Splitting a byte string on a separator, as the token format needs it:
//! every occurrence separates, empty segments included.

use vstd::prelude::*;

verus! {

pub open spec fn sep_free(s: Seq<u8>, sep: u8) -> bool {
    forall|i: int| 0 <= i < s.len() ==> s[i] != sep
}

/// The segments of `s` between occurrences of `sep`; always at least one.
pub open spec fn spec_split(s: Seq<u8>, sep: u8) -> Seq<Seq<u8>>
    decreases s.len(),
{
    if s.len() == 0 {
        seq![Seq::empty()]
    } else if s[0] == sep {
        seq![Seq::<u8>::empty()] + spec_split(s.skip(1), sep)
    } else {
        let rest = spec_split(s.skip(1), sep);
        seq![seq![s[0]] + rest[0]] + rest.skip(1)
    }
}

pub proof fn lemma_split_len(s: Seq<u8>, sep: u8)
    ensures
        spec_split(s, sep).len() >= 1,
    decreases s.len(),
{
    if s.len() > 0 && s[0] != sep {
        lemma_split_len(s.skip(1), sep)
    }
}

/// A separator-free string is one single segment.
pub proof fn lemma_split_single(s: Seq<u8>, sep: u8)
    requires
        sep_free(s, sep),
    ensures
        spec_split(s, sep) == seq![s],
    decreases s.len(),
{
    if s.len() == 0 {
        assert(spec_split(s, sep) =~~= seq![s]);
    } else {
        assert(sep_free(s.skip(1), sep));
        lemma_split_single(s.skip(1), sep);
        let rest = spec_split(s.skip(1), sep);
        assert(rest == seq![s.skip(1)]);
        assert(seq![s[0]] + rest[0] =~= s);
        assert(rest.skip(1) =~= Seq::<Seq<u8>>::empty());
        assert(spec_split(s, sep) =~= seq![s]);
    }
}

/// A separator after a separator-free prefix cuts exactly there.
pub proof fn lemma_split_prefix(a: Seq<u8>, rest: Seq<u8>, sep: u8)
    requires
        sep_free(a, sep),
    ensures
        spec_split(a + seq![sep] + rest, sep) == seq![a] + spec_split(rest, sep),
    decreases a.len(),
{
    let s = a + seq![sep] + rest;
    if a.len() == 0 {
        assert(s[0] == sep);
        assert(s.skip(1) =~= rest);
        assert(seq![Seq::<u8>::empty()] + spec_split(rest, sep) =~~= seq![a] + spec_split(
            rest,
            sep,
        ));
    } else {
        assert(sep_free(a.skip(1), sep));
        lemma_split_prefix(a.skip(1), rest, sep);
        assert(s[0] == a[0]);
        assert(s[0] != sep);
        assert(s.skip(1) =~= a.skip(1) + seq![sep] + rest);
        let r1 = spec_split(s.skip(1), sep);
        assert(r1 == seq![a.skip(1)] + spec_split(rest, sep));
        assert(r1[0] == a.skip(1));
        assert(seq![s[0]] + r1[0] =~= a);
        assert(r1.skip(1) =~= spec_split(rest, sep));
        assert(spec_split(s, sep) =~= seq![a] + spec_split(rest, sep));
    }
}

/// A string that holds the separator splits into at least two segments.
pub proof fn lemma_split_has_sep(s: Seq<u8>, sep: u8)
    requires
        !sep_free(s, sep),
    ensures
        spec_split(s, sep).len() >= 2,
    decreases s.len(),
{
    if s[0] == sep {
        lemma_split_len(s.skip(1), sep);
    } else {
        assert(!sep_free(s.skip(1), sep)) by {
            let i = choose|i: int| 0 <= i < s.len() && s[i] == sep;
            assert(s.skip(1)[i - 1] == sep);
        }
        lemma_split_has_sep(s.skip(1), sep);
    }
}

/// Splits `s` into exactly three segments, or reports that the separator
/// count does not allow it.
pub fn split3(s: &[u8], sep: u8) -> (r: Option<(Vec<u8>, Vec<u8>, Vec<u8>)>)
    ensures
        r is Some <==> spec_split(s@, sep).len() == 3,
        r matches Some(t) ==> spec_split(s@, sep) == seq![t.0@, t.1@, t.2@],
{
    let mut d1: Option<usize> = None;
    let mut d2: Option<usize> = None;
    let mut i: usize = 0;
    while i < s.len()
        invariant
            0 <= i <= s@.len(),
            d1 is None ==> (d2 is None && (forall|j: int| 0 <= j < i ==> s@[j] != sep)),
            d1 is Some ==> (d1->Some_0 < i && s@[d1->Some_0 as int] == sep && (forall|j: int|
                0 <= j < d1->Some_0 ==> s@[j] != sep)),
            (d1 is Some && d2 is None) ==> (forall|j: int|
                d1->Some_0 < j < i ==> s@[j] != sep),
            d2 is Some ==> (d1 is Some && d1->Some_0 < d2->Some_0 < i && s@[d2->Some_0 as int]
                == sep && (forall|j: int| d1->Some_0 < j < d2->Some_0 ==> s@[j] != sep) && (
            forall|j: int| d2->Some_0 < j < i ==> s@[j] != sep)),
        decreases s@.len() - i,
    {
        if s[i] == sep {
            if d1.is_none() {
                d1 = Some(i);
            } else if d2.is_none() {
                d2 = Some(i);
            } else {
                // a third separator: at least four segments
                proof {
                    let i1 = d1->Some_0 as int;
                    let i2 = d2->Some_0 as int;
                    let a = s@.subrange(0, i1);
                    let b = s@.subrange(i1 + 1, i2);
                    let c = s@.subrange(i2 + 1, s@.len() as int);
                    assert(s@ =~= a + seq![sep] + (b + seq![sep] + c));
                    assert(sep_free(a, sep));
                    assert(sep_free(b, sep));
                    lemma_split_prefix(a, b + seq![sep] + c, sep);
                    lemma_split_prefix(b, c, sep);
                    assert(c[i - (i2 + 1)] == sep);
                    lemma_split_has_sep(c, sep);
                    assert(spec_split(s@, sep).len() >= 4);
                }
                return None;
            }
        }
        i = i + 1;
    }
    match (d1, d2) {
        (Some(i1), Some(i2)) => {
            proof {
                let a = s@.subrange(0, i1 as int);
                let b = s@.subrange(i1 + 1, i2 as int);
                let c = s@.subrange(i2 + 1, s@.len() as int);
                assert(s@ =~= a + seq![sep] + (b + seq![sep] + c));
                assert(sep_free(a, sep));
                assert(sep_free(b, sep));
                assert(sep_free(c, sep));
                lemma_split_prefix(a, b + seq![sep] + c, sep);
                lemma_split_prefix(b, c, sep);
                lemma_split_single(c, sep);
                assert(spec_split(s@, sep) =~= seq![a, b, c]);
            }
            let p0 = vstd::slice::slice_to_vec(vstd::slice::slice_subrange(s, 0, i1));
            let p1 = vstd::slice::slice_to_vec(vstd::slice::slice_subrange(s, i1 + 1, i2));
            let p2 = vstd::slice::slice_to_vec(vstd::slice::slice_subrange(s, i2 + 1, s.len()));
            Some((p0, p1, p2))
        },
        (Some(i1), None) => {
            proof {
                let a = s@.subrange(0, i1 as int);
                let c = s@.subrange(i1 + 1, s@.len() as int);
                assert(s@ =~= a + seq![sep] + c);
                assert(sep_free(a, sep));
                assert(sep_free(c, sep));
                lemma_split_prefix(a, c, sep);
                lemma_split_single(c, sep);
                assert(spec_split(s@, sep).len() == 2);
            }
            None
        },
        _ => {
            proof {
                assert(sep_free(s@, sep));
                lemma_split_single(s@, sep);
            }
            None
        },
    }
}

} // verus!
