//! The credential store: the one mapping from identity to stored digest.
//!
//! Every operation takes the store exclusively (`&self` or `&mut self`), so a
//! check-then-insert can never interleave with another operation; a caller
//! that shares the store across tasks wraps it in one lock and holds the lock
//! for the whole call. The view is the mathematical map from identity to
//! digest, and each operation says exactly what it does to it.

use crate::constant_time_eq;
use vstd::prelude::*;

verus! {

#[derive(Clone, Copy, PartialEq, Eq, Structural, Debug)]
pub enum CreateResult {
    Created,
    Conflict,
}

#[derive(Clone, Copy, PartialEq, Eq, Structural, Debug)]
pub enum RemoveResult {
    Removed,
    NotFound,
}

pub struct CredentialStore {
    entries: Vec<(Vec<u8>, Vec<u8>)>,
}

/// The map an entry list stands for; a later entry would win, though the
/// store never holds two entries for one identity.
pub open spec fn map_of(s: Seq<(Vec<u8>, Vec<u8>)>) -> Map<Seq<u8>, Seq<u8>>
    decreases s.len(),
{
    if s.len() == 0 {
        Map::empty()
    } else {
        map_of(s.drop_last()).insert(s.last().0@, s.last().1@)
    }
}

pub open spec fn unique_keys(s: Seq<(Vec<u8>, Vec<u8>)>) -> bool {
    forall|i: int, j: int| 0 <= i < j < s.len() ==> s[i].0@ != s[j].0@
}

proof fn lemma_map_of_contains(s: Seq<(Vec<u8>, Vec<u8>)>, k: Seq<u8>)
    ensures
        map_of(s).contains_key(k) <==> (exists|i: int| 0 <= i < s.len() && s[i].0@ == k),
    decreases s.len(),
{
    if s.len() > 0 {
        let dl = s.drop_last();
        lemma_map_of_contains(dl, k);
        if map_of(s).contains_key(k) {
            if s.last().0@ == k {
                assert(s[s.len() - 1].0@ == k);
            } else {
                let i = choose|i: int| 0 <= i < dl.len() && dl[i].0@ == k;
                assert(s[i].0@ == k);
            }
        }
        if exists|i: int| 0 <= i < s.len() && s[i].0@ == k {
            let i = choose|i: int| 0 <= i < s.len() && s[i].0@ == k;
            if i < s.len() - 1 {
                assert(dl[i].0@ == k);
            }
        }
    }
}

proof fn lemma_map_of_value(s: Seq<(Vec<u8>, Vec<u8>)>, i: int)
    requires
        unique_keys(s),
        0 <= i < s.len(),
    ensures
        map_of(s).contains_key(s[i].0@),
        map_of(s)[s[i].0@] == s[i].1@,
    decreases s.len(),
{
    if i < s.len() - 1 {
        let dl = s.drop_last();
        assert(unique_keys(dl));
        assert(dl[i] == s[i]);
        lemma_map_of_value(dl, i);
        assert(s[i].0@ != s.last().0@);
    }
}

proof fn lemma_map_of_remove(s: Seq<(Vec<u8>, Vec<u8>)>, i: int)
    requires
        unique_keys(s),
        0 <= i < s.len(),
    ensures
        map_of(s.remove(i)) == map_of(s).remove(s[i].0@),
        unique_keys(s.remove(i)),
    decreases s.len(),
{
    let k = s[i].0@;
    let r = s.remove(i);
    let dl = s.drop_last();
    assert(unique_keys(dl));
    assert forall|a: int, b: int| 0 <= a < b < r.len() implies r[a].0@ != r[b].0@ by {
        let a2: int = if a < i { a } else { a + 1 };
        let b2: int = if b < i { b } else { b + 1 };
        assert(r[a] == s[a2]);
        assert(r[b] == s[b2]);
    }
    if i == s.len() - 1 {
        assert(r =~= dl);
        lemma_map_of_contains(dl, k);
        assert(!map_of(dl).contains_key(k)) by {
            if exists|j: int| 0 <= j < dl.len() && dl[j].0@ == k {
                let j = choose|j: int| 0 <= j < dl.len() && dl[j].0@ == k;
                assert(s[j].0@ == s[i].0@);
            }
        }
        assert(map_of(s).remove(k) =~= map_of(dl));
    } else {
        lemma_map_of_remove(dl, i);
        assert(r.drop_last() =~= dl.remove(i));
        assert(r.last() == s.last());
        assert(map_of(r) == map_of(dl.remove(i)).insert(s.last().0@, s.last().1@));
        assert(k != s.last().0@);
        assert(map_of(dl).remove(k).insert(s.last().0@, s.last().1@) =~= map_of(dl).insert(
            s.last().0@,
            s.last().1@,
        ).remove(k));
    }
}

impl View for CredentialStore {
    type V = Map<Seq<u8>, Seq<u8>>;

    closed spec fn view(&self) -> Map<Seq<u8>, Seq<u8>> {
        map_of(self.entries@)
    }
}

impl CredentialStore {
    /// At most one entry per identity.
    pub closed spec fn wf(&self) -> bool {
        unique_keys(self.entries@)
    }

    pub fn new() -> (r: Self)
        ensures
            r@ == Map::<Seq<u8>, Seq<u8>>::empty(),
            r.wf(),
    {
        CredentialStore { entries: Vec::new() }
    }

    fn find(&self, key: &[u8]) -> (r: Option<usize>)
        ensures
            r matches Some(i) ==> (i < self.entries@.len() && self.entries@[i as int].0@ == key@),
            r is None ==> (forall|i: int|
                0 <= i < self.entries@.len() ==> self.entries@[i].0@ != key@),
    {
        let mut i: usize = 0;
        while i < self.entries.len()
            invariant
                0 <= i <= self.entries@.len(),
                forall|j: int| 0 <= j < i ==> self.entries@[j].0@ != key@,
            decreases self.entries@.len() - i,
        {
            if constant_time_eq(self.entries[i].0.as_slice(), key) {
                return Some(i);
            }
            i = i + 1;
        }
        None
    }

    /// Returns the stored digest for an identity, or its absence.
    pub fn lookup(&self, key: &[u8]) -> (r: Option<Vec<u8>>)
        requires
            self.wf(),
        ensures
            r is Some <==> self@.contains_key(key@),
            r matches Some(v) ==> self@[key@] == v@,
    {
        match self.find(key) {
            Some(i) => {
                proof {
                    lemma_map_of_value(self.entries@, i as int);
                }
                Some(vstd::slice::slice_to_vec(self.entries[i].1.as_slice()))
            },
            None => {
                proof {
                    lemma_map_of_contains(self.entries@, key@);
                }
                None
            },
        }
    }

    /// Inserts an identity with its digest, or reports the conflict; the
    /// check and the insert happen under one exclusive borrow.
    pub fn create(&mut self, key: &[u8], value: &[u8]) -> (r: CreateResult)
        requires
            old(self).wf(),
        ensures
            final(self).wf(),
            old(self)@.contains_key(key@) ==> (r == CreateResult::Conflict && *final(self)
                == *old(self)),
            !old(self)@.contains_key(key@) ==> (r == CreateResult::Created && final(self)@ == old(
                self,
            )@.insert(key@, value@)),
    {
        match self.find(key) {
            Some(i) => {
                proof {
                    lemma_map_of_value(self.entries@, i as int);
                }
                CreateResult::Conflict
            },
            None => {
                proof {
                    lemma_map_of_contains(self.entries@, key@);
                }
                let ghost s0 = self.entries@;
                let k = vstd::slice::slice_to_vec(key);
                let v = vstd::slice::slice_to_vec(value);
                self.entries.push((k, v));
                proof {
                    assert(self.entries@.drop_last() =~= s0);
                    assert(self.entries@.last().0@ == key@);
                    assert(self.entries@.last().1@ == value@);
                    assert forall|a: int, b: int|
                        0 <= a < b < self.entries@.len() implies self.entries@[a].0@
                        != self.entries@[b].0@ by {
                        if b < self.entries@.len() - 1 {
                            assert(self.entries@[a] == s0[a] && self.entries@[b] == s0[b]);
                        } else {
                            assert(self.entries@[a] == s0[a]);
                        }
                    }
                }
                CreateResult::Created
            },
        }
    }

    /// Removes an identity, or reports that it was absent; atomic under the
    /// exclusive borrow.
    pub fn remove(&mut self, key: &[u8]) -> (r: RemoveResult)
        requires
            old(self).wf(),
        ensures
            final(self).wf(),
            old(self)@.contains_key(key@) ==> (r == RemoveResult::Removed && final(self)@ == old(
                self,
            )@.remove(key@)),
            !old(self)@.contains_key(key@) ==> (r == RemoveResult::NotFound && *final(self) == *old(
                self,
            )),
    {
        match self.find(key) {
            Some(i) => {
                proof {
                    lemma_map_of_value(self.entries@, i as int);
                    lemma_map_of_remove(self.entries@, i as int);
                }
                self.entries.remove(i);
                RemoveResult::Removed
            },
            None => {
                proof {
                    lemma_map_of_contains(self.entries@, key@);
                }
                RemoveResult::NotFound
            },
        }
    }
}

} // verus!
