//! A small map from states to arena indices, backed by an association list.
//!
//! The search keeps two of these: the best-known candidate per state and the
//! finalized node per state.  Lookups follow first-match order, which the
//! specification function `lookup` mirrors exactly.

use vstd::prelude::*;
use vstd::pervasive::VecAdditionalExecFns;

use crate::State;

verus! {

/// First-match lookup in an association list.
pub open spec fn lookup(s: Seq<(State, usize)>, k: State) -> Option<usize>
    decreases s.len(),
{
    if s.len() == 0 {
        None
    } else if s[0].0 == k {
        Some(s[0].1)
    } else {
        lookup(s.drop_first(), k)
    }
}

/// A map from states to indices into the node arena.
pub struct StateIndexMap {
    entries: Vec<(State, usize)>,
}

impl StateIndexMap {
    /// The map's contents as an association list.
    pub closed spec fn view(&self) -> Seq<(State, usize)> {
        self.entries@
    }

    /// An empty map.
    pub fn new() -> (r: Self)
        ensures
            r@ =~= Seq::<(State, usize)>::empty(),
    {
        StateIndexMap { entries: Vec::new() }
    }

    /// Looks the state up; `None` when no entry holds it.
    pub fn get(&self, k: State) -> (r: Option<usize>)
        ensures
            r == lookup(self@, k),
    {
        let n = self.entries.len();
        let mut i: usize = 0;
        proof {
            assert(self.entries@.skip(0) =~= self.entries@);
        }
        while i < n
            invariant
                0 <= i <= n,
                n == self.entries@.len(),
                lookup(self@, k) == lookup(self.entries@.skip(i as int), k),
            decreases n - i,
        {
            proof {
                assert(self.entries@.skip(i as int)[0] == self.entries@[i as int]);
                assert(self.entries@.skip(i as int).drop_first() =~= self.entries@.skip(
                    i as int + 1,
                ));
            }
            if self.entries[i].0 == k {
                return Some(self.entries[i].1);
            }
            i = i + 1;
        }
        proof {
            assert(self.entries@.skip(n as int).len() == 0);
        }
        None
    }

    /// `true` exactly when the map holds an entry for the state.
    pub fn contains_key(&self, k: State) -> (r: bool)
        ensures
            r == (lookup(self@, k) is Some),
    {
        self.get(k).is_some()
    }

    /// Binds the state to the index, replacing any earlier binding.
    pub fn insert(&mut self, k: State, v: usize)
        ensures
            lookup(final(self)@, k) == Some(v),
            forall|k2: State| k2 != k ==> lookup(final(self)@, k2) == lookup(old(self)@, k2),
    {
        let n = self.entries.len();
        let mut i: usize = 0;
        while i < n
            invariant
                0 <= i <= n,
                n == self.entries@.len(),
                self.entries@ == old(self).entries@,
                forall|j: int| 0 <= j < i ==> self.entries@[j].0 != k,
            decreases n - i,
        {
            if self.entries[i].0 == k {
                let ghost prior = self.entries@;
                self.entries.set(i, (k, v));
                proof {
                    lemma_lookup_update_match(prior, k, v, i as int);
                }
                return ;
            }
            i = i + 1;
        }
        let ghost prior = self.entries@;
        self.entries.push((k, v));
        proof {
            lemma_lookup_absent(prior, k);
            lemma_lookup_push(prior, k, v);
        }
    }
}

/// A key held by no entry looks up to `None`.
proof fn lemma_lookup_absent(s: Seq<(State, usize)>, k: State)
    requires
        forall|j: int| 0 <= j < s.len() ==> s[j].0 != k,
    ensures
        lookup(s, k) is None,
    decreases s.len(),
{
    if s.len() > 0 {
        lemma_lookup_absent(s.drop_first(), k);
    }
}

/// Updating the first entry that holds the key rebinds the key and leaves
/// every other key's binding unchanged.
proof fn lemma_lookup_update_match(s: Seq<(State, usize)>, k: State, v: usize, i: int)
    requires
        0 <= i < s.len(),
        s[i].0 == k,
        forall|j: int| 0 <= j < i ==> s[j].0 != k,
    ensures
        lookup(s.update(i, (k, v)), k) == Some(v),
        forall|k2: State| k2 != k ==> lookup(s.update(i, (k, v)), k2) == lookup(s, k2),
    decreases i,
{
    let t = s.update(i, (k, v));
    if i == 0 {
        assert(t[0] == (k, v));
        assert(t.drop_first() =~= s.drop_first());
        assert forall|k2: State| k2 != k implies lookup(t, k2) == lookup(s, k2) by {
            assert(lookup(t, k2) == lookup(t.drop_first(), k2));
            assert(lookup(s, k2) == lookup(s.drop_first(), k2));
        }
    } else {
        lemma_lookup_update_match(s.drop_first(), k, v, i - 1);
        assert(t.drop_first() =~= s.drop_first().update(i - 1, (k, v)));
        assert(t[0] == s[0]);
        assert(lookup(t, k) == Some(v));
        assert forall|k2: State| k2 != k implies lookup(t, k2) == lookup(s, k2) by {
            if s[0].0 == k2 {
                assert(lookup(t, k2) == Some(t[0].1));
                assert(lookup(s, k2) == Some(s[0].1));
            } else {
                assert(lookup(t, k2) == lookup(t.drop_first(), k2));
                assert(lookup(s, k2) == lookup(s.drop_first(), k2));
            }
        }
    }
}

/// Appending an entry binds its key if the key was absent, and leaves every
/// other key's binding unchanged.
proof fn lemma_lookup_push(s: Seq<(State, usize)>, k: State, v: usize)
    ensures
        lookup(s, k) is None ==> lookup(s.push((k, v)), k) == Some(v),
        lookup(s, k) is Some ==> lookup(s.push((k, v)), k) == lookup(s, k),
        forall|k2: State| k2 != k ==> lookup(s.push((k, v)), k2) == lookup(s, k2),
    decreases s.len(),
{
    let t = s.push((k, v));
    if s.len() == 0 {
        assert(t[0] == (k, v));
        assert(t.drop_first() =~= Seq::<(State, usize)>::empty());
        assert forall|k2: State| k2 != k implies lookup(t, k2) == lookup(s, k2) by {
            assert(lookup(t, k2) == lookup(t.drop_first(), k2));
        }
    } else {
        lemma_lookup_push(s.drop_first(), k, v);
        assert(t.drop_first() =~= s.drop_first().push((k, v)));
        assert(t[0] == s[0]);
        assert forall|k2: State| k2 != k implies lookup(t, k2) == lookup(s, k2) by {
            if s[0].0 == k2 {
                assert(lookup(t, k2) == Some(t[0].1));
            } else {
                assert(lookup(t, k2) == lookup(t.drop_first(), k2));
                assert(lookup(s, k2) == lookup(s.drop_first(), k2));
            }
        }
    }
}

} // verus!
