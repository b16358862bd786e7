use vstd::prelude::*;
use vstd::std_specs::hash::obeys_key_model;
use vstd::std_specs::hash::EntrySpecFns;
use vstd::std_specs::hash::OccupiedEntrySpecFns;
use std::collections::hash_map::Entry;
use std::collections::HashMap;
use std::hash::Hash;
use crate::count::Count;
use crate::model::{
    count_in, deducted, lemma_deducted_push, lemma_occurrences_concat, lemma_occurrences_positive,
    lemma_occurrences_push, lemma_tallied_push, occurrences, one_less, tallied, with_entry,
};

verus! {

broadcast use vstd::std_specs::hash::group_hash_axioms;

/// A multiset: a mapping from keys to occurrence counts, in which an absent
/// key reads as zero.
#[derive(Clone, PartialEq, Eq, Debug)]
pub struct Counter<T: Hash + Eq, N: Count = usize> {
    pub(crate) map: HashMap<T, N>,
    pub(crate) zero: N,
}

impl<T: Hash + Eq, N: Count> View for Counter<T, N> {
    type V = Map<T, int>;

    /// The stored entries, each count as the integer it stands for.
    open(crate) spec fn view(&self) -> Map<T, int> {
        Map::new(|k: T| self.map@.contains_key(k), |k: T| self.map@[k].value())
    }
}

impl<T: Hash + Eq, N: Count> Default for Counter<T, N> {
    /// An empty counter.
    fn default() -> (counter: Self)
        ensures
            counter@ == Map::<T, int>::empty(),
            obeys_key_model::<T>() ==> counter.wf(),
    {
        let counter = Counter { map: HashMap::new(), zero: N::zero() };
        assert(counter@ =~= Map::<T, int>::empty());
        counter
    }
}

impl<T: Hash + Eq, N: Count> Counter<T, N> {
    /// The stored zero is the additive identity and the key type behaves as a
    /// hash-map key should.
    pub open(crate) spec fn wf(&self) -> bool {
        &&& self.zero.value() == 0
        &&& obeys_key_model::<T>()
    }

    /// Create a new, empty `Counter`.
    pub fn new() -> (counter: Self)
        requires
            obeys_key_model::<T>(),
        ensures
            counter.wf(),
            counter@ == Map::<T, int>::empty(),
    {
        let counter = Counter { map: HashMap::new(), zero: N::zero() };
        assert(counter@ =~= Map::<T, int>::empty());
        counter
    }

    /// Create a new `Counter` holding one occurrence for each element of
    /// `items`.
    pub fn init(items: Vec<T>) -> (counter: Self)
        requires
            obeys_key_model::<T>(),
            forall|k: T| occurrences(items@, k) <= N::highest(),
        ensures
            counter.wf(),
            counter@ == tallied(Map::<T, int>::empty(), items@),
    {
        let mut counter = Counter::new();
        counter.update(items);
        counter
    }

    /// Every count, stored or read as zero, lies within the count type's
    /// range.
    pub proof fn lemma_count_in_range(&self, key: T)
        ensures
            N::lowest() <= count_in(self@, key) <= N::highest(),
    {
        N::range_holds_identities();
        if self@.contains_key(key) {
            self.map@[key].value_in_range();
        }
    }

    /// Add `amount` to the count of `key`, which gets a zero entry first if it
    /// has none.
    pub(crate) fn add_to(&mut self, key: T, amount: N)
        requires
            old(self).wf(),
            N::lowest() <= count_in(old(self)@, key) + amount.value() <= N::highest(),
        ensures
            final(self).wf(),
            final(self)@ == old(self)@.insert(key, count_in(old(self)@, key) + amount.value()),
    {
        let ghost before = self.map@;
        let entry = self.map.entry(key).or_insert(N::zero());
        assert(entry.value() == count_in(old(self)@, key));
        *entry = entry.plus(amount);
        assert(self.map@ == before.insert(key, self.map@[key]));
        assert(self@ =~= old(self)@.insert(key, count_in(old(self)@, key) + amount.value()));
    }

    /// Add one occurrence for each element of `items`.
    pub fn update(&mut self, items: Vec<T>)
        requires
            old(self).wf(),
            forall|k: T| count_in(old(self)@, k) + occurrences(items@, k) <= N::highest(),
        ensures
            final(self).wf(),
            final(self)@ == tallied(old(self)@, items@),
    {
        let ghost all = items@;
        assert(self@ =~= tallied(old(self)@, all.take(0)));
        for item in it: items
            invariant
                self.wf(),
                it.seq() == all,
                self@ == tallied(old(self)@, all.take(it.index() as int)),
                forall|k: T| count_in(old(self)@, k) + occurrences(all, k) <= N::highest(),
        {
            let ghost done = all.take(it.index() as int);
            proof {
                assert(all.take(it.index() + 1) =~= done.push(item));
                assert(all =~= done.push(item) + all.skip(it.index() + 1));
                lemma_occurrences_concat(done.push(item), all.skip(it.index() + 1), item);
                lemma_occurrences_push(done, item, item);
                lemma_occurrences_positive(done, item);
                N::range_holds_identities();
                self.lemma_count_in_range(item);
                lemma_tallied_push(old(self)@, done, item);
            }
            self.add_to(item, N::one());
        }
        proof {
            assert(all.take(all.len() as int) =~= all);
        }
    }

    /// Take one occurrence of `item` away: a positive count goes down by one,
    /// and an entry whose count is then zero, or was zero before, is removed.
    pub(crate) fn take_one(&mut self, item: T)
        requires
            old(self).wf(),
        ensures
            final(self).wf(),
            final(self)@ == with_entry(old(self)@, item, one_less(old(self)@.get(item))),
    {
        proof {
            N::range_holds_identities();
        }
        let zero = N::zero();
        match self.map.entry(item) {
            Entry::Occupied(mut slot) => {
                let mut current = *slot.get();
                proof {
                    current.value_in_range();
                }
                if !current.at_most(zero) {
                    current = current.minus(N::one());
                    slot.insert(current);
                }
                if current.same(zero) {
                    slot.remove();
                }
            },
            Entry::Vacant(_) => {},
        }
        assert(self@ =~= with_entry(old(self)@, item, one_less(old(self)@.get(item))));
    }

    /// Remove one occurrence for each element of `items`. An entry that
    /// reaches zero is removed, so no touched key is left with a stored zero;
    /// elements without an entry are ignored.
    pub fn subtract(&mut self, items: Vec<T>)
        requires
            old(self).wf(),
        ensures
            final(self).wf(),
            final(self)@ == deducted(old(self)@, items@),
    {
        let ghost all = items@;
        assert(self@ =~= deducted(old(self)@, all.take(0)));
        for item in it: items
            invariant
                self.wf(),
                it.seq() == all,
                self@ == deducted(old(self)@, all.take(it.index() as int)),
        {
            proof {
                let done = all.take(it.index() as int);
                assert(all.take(it.index() + 1) =~= done.push(item));
                lemma_deducted_push(old(self)@, done, item);
            }
            self.take_one(item);
        }
        proof {
            assert(all.take(all.len() as int) =~= all);
        }
    }

    /// The count of `key`: the stored one, or a zero for a key without an
    /// entry. Nothing is stored by reading.
    pub fn index(&self, key: &T) -> (count: &N)
        requires
            self.wf(),
        ensures
            count.value() == count_in(self@, *key),
    {
        match self.map.get(key) {
            Some(count) => count,
            None => &self.zero,
        }
    }

    /// The number of entries.
    pub fn len(&self) -> (n: usize)
        requires
            self.wf(),
        ensures
            n == self@.dom().len(),
    {
        assert(self.map@.dom() =~= self@.dom());
        self.map.len()
    }

    /// The map from the keys to their counts, for reading.
    pub fn deref(&self) -> (map: &HashMap<T, N>)
        ensures
            map@.dom() == self@.dom(),
            forall|k: T| #[trigger] map@.contains_key(k) ==> map@[k].value() == self@[k],
    {
        assert(self.map@.dom() =~= self@.dom());
        &self.map
    }

    /// The map from the keys to their counts, for writing. Whatever is done
    /// to the map is done to the counter, and nothing is put in order
    /// afterwards: a zero count that is stored this way stays stored.
    pub fn deref_mut(&mut self) -> (map: &mut HashMap<T, N>)
        requires
            old(self).wf(),
        ensures
            map@.dom() == old(self)@.dom(),
            forall|k: T| #[trigger] map@.contains_key(k) ==> map@[k].value() == old(self)@[k],
            final(self).wf(),
            final(self)@.dom() == final(map)@.dom(),
            forall|k: T| #[trigger]
                final(map)@.contains_key(k) ==> final(self)@[k] == final(map)@[k].value(),
    {
        assert(self.map@.dom() =~= self@.dom());
        let map = &mut self.map;
        proof {
            assert(after_borrow(*self)@.dom() =~= final(map)@.dom());
        }
        map
    }

    /// Consume this counter and return the map from its keys to their counts.
    pub fn into_map(self) -> (map: HashMap<T, N>)
        ensures
            map@.dom() == self@.dom(),
            forall|k: T| #[trigger] map@.contains_key(k) ==> map@[k].value() == self@[k],
    {
        assert(self.map@.dom() =~= self@.dom());
        self.map
    }
}

impl<T: Hash + Eq + Copy, N: Count> Counter<T, N> {
    /// The slot that holds the count of `key`, for writing. A key without an
    /// entry gets one first, with a zero count, and keeps it even if the slot
    /// is left untouched.
    pub fn index_mut(&mut self, key: &T) -> (count: &mut N)
        requires
            old(self).wf(),
        ensures
            count.value() == count_in(old(self)@, *key),
            final(self).wf(),
            final(self)@ == old(self)@.insert(*key, final(count).value()),
            final(self)@.dom().len() == old(self)@.dom().len() + if old(self)@.contains_key(*key) {
                0int
            } else {
                1int
            },
    {
        let ghost before = self.map@;
        let zero = N::zero();
        let count = self.map.entry(*key).or_insert(zero);
        proof {
            assert(after_borrow(self.map)@ == before.insert(*key, *final(count)));
            assert(after_borrow(*self)@ =~= old(self)@.insert(*key, final(count).value()));
            assert(old(self)@.dom() =~= before.dom());
            assert(after_borrow(*self)@.dom() =~= before.dom().insert(*key));
            vstd::set::axiom_set_insert_len(before.dom(), *key);
        }
        count
    }
}

} // verus!
