use vstd::prelude::*;
use std::hash::Hash;
use vstd::std_specs::iter::IteratorSpec;
use crate::count::{Count, fits};
use crate::counter::Counter;
use crate::model::names;
use crate::steps::{keys_before, lemma_listing_done, lemma_listing_step, lists};
use crate::ranking::{entry_of, is_listing};

verus! {

broadcast use vstd::std_specs::hash::group_hash_axioms;

/// The entries of `m` whose count is at least `least`.
pub open spec fn at_least<T>(m: Map<T, int>, least: int) -> Map<T, int> {
    Map::new(|k: T| m.contains_key(k) && m[k] >= least, |k: T| m[k])
}

/// The sum of the counts of a finite map.
pub open spec fn total_of<T>(m: Map<T, int>) -> int
    decreases m.dom().len(),
    when m.dom().finite()
{
    if m.dom().len() == 0 {
        0
    } else {
        let k = m.dom().choose();
        m[k] + total_of(m.remove(k))
    }
}

/// The sum of the counts is the count of any one key plus the sum of the
/// rest: the order in which the counts are added up does not matter.
pub proof fn lemma_total_without<T>(m: Map<T, int>, key: T)
    requires
        m.dom().finite(),
        m.contains_key(key),
    ensures
        total_of(m) == m[key] + total_of(m.remove(key)),
    decreases m.dom().len(),
{
    let chosen = m.dom().choose();
    if chosen != key {
        lemma_total_without(m.remove(chosen), key);
        lemma_total_without(m.remove(key), chosen);
        assert(m.remove(chosen).remove(key) =~= m.remove(key).remove(chosen));
    }
}

/// A new entry adds its count to the sum.
pub proof fn lemma_total_with<T>(m: Map<T, int>, key: T, count: int)
    requires
        m.dom().finite(),
        !m.contains_key(key),
    ensures
        total_of(m.insert(key, count)) == total_of(m) + count,
{
    lemma_total_without(m.insert(key, count), key);
    assert(m.insert(key, count).remove(key) =~= m);
}

impl<T: Hash + Eq + Copy, N: Count> Counter<T, N> {
    /// The entries whose count is at least `k`, in no particular order.
    pub fn min_count(&self, k: usize) -> (pairs: Vec<(T, N)>)
        requires
            self.wf(),
        ensures
            is_listing(pairs@, at_least(self@, k as int)),
    {
        let mut pairs: Vec<(T, N)> = Vec::new();
        let ghost wanted = at_least(self@, k as int);
        for pair in it: self.map.iter()
            invariant
                self.wf(),
                wanted == at_least(self@, k as int),
                lists(it.seq(), self.map@),
                pairs@.no_duplicates(),
                forall|i: int|
                    0 <= i < pairs@.len() ==> entry_of(#[trigger] pairs@[i], wanted) && keys_before(
                        it.seq(),
                        it.index() as int,
                    ).contains(pairs@[i].0),
                forall|key: T| #[trigger]
                    wanted.contains_key(key) && keys_before(it.seq(), it.index() as int).contains(key)
                        ==> names(pairs@, key),
        {
            let (key, count) = pair;
            let ghost earlier = pairs@;
            proof {
                lemma_listing_step(it.seq(), self.map@, it.index() as int);
            }
            if count.reaches(k) {
                pairs.push((*key, *count));
                assert(pairs@[earlier.len() as int].0 == *key);
            }
            proof {
                assert forall|key: T| #[trigger]
                    wanted.contains_key(key) && keys_before(it.seq(), it.index() + 1).contains(key)
                    implies names(pairs@, key) by {
                    if key != *pair.0 {
                        assert(names(earlier, key));
                        let i = choose|i: int| 0 <= i < earlier.len() && (#[trigger] earlier[i]).0 == key;
                        assert(pairs@[i].0 == key);
                    }
                }
            }
        }
        proof {
            lemma_listing_done(self.map.iter().remaining(), self.map@);
            assert(self.map@.dom() =~= self@.dom());
        }
        pairs
    }

    /// The sum of all counts.
    pub fn total(&self) -> (sum: N)
        requires
            self.wf(),
            forall|keys: Set<T>| fits::<N>(#[trigger] total_of(self@.restrict(keys))),
        ensures
            sum.value() == total_of(self@),
    {
        let mut sum = N::zero();
        proof {
            assert(keys_before(self.map.iter().remaining(), 0) =~= Set::<T>::empty());
            assert(self@.restrict(Set::<T>::empty()).dom() =~= Set::<T>::empty());
            assert(self.map@.dom() =~= self@.dom());
        }
        for pair in it: self.map.iter()
            invariant
                self.wf(),
                lists(it.seq(), self.map@),
                self@.dom().finite(),
                sum.value() == total_of(self@.restrict(keys_before(it.seq(), it.index() as int))),
                forall|keys: Set<T>| fits::<N>(#[trigger] total_of(self@.restrict(keys))),
        {
            let (key, count) = pair;
            proof {
                let seen = keys_before(it.seq(), it.index() as int);
                lemma_listing_step(it.seq(), self.map@, it.index() as int);
                let part = self@.restrict(seen);
                assert(part.dom() =~= self@.dom().intersect(seen));
                lemma_total_with(part, *key, count.value());
                assert(self@.restrict(seen.insert(*key)) =~= part.insert(*key, count.value()));
                assert(fits::<N>(total_of(self@.restrict(seen.insert(*key)))));
            }
            sum = sum.plus(*count);
        }
        proof {
            lemma_listing_done(self.map.iter().remaining(), self.map@);
            assert(self@.restrict(self@.dom()) =~= self@);
        }
        sum
    }
}

} // verus!
