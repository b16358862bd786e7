use vstd::prelude::*;
use std::collections::hash_map::Entry;
use std::hash::Hash;
use vstd::std_specs::hash::EntrySpecFns;
use vstd::std_specs::hash::OccupiedEntrySpecFns;
use vstd::std_specs::iter::IteratorSpec;
use crate::count::{Count, fits};
use crate::counter::Counter;
use crate::model::{count_in, entrywise, names, with_entry};
use crate::steps::{
    entrywise_on, keys_before, lemma_entrywise_on_all, lemma_entrywise_on_none,
    lemma_entrywise_on_step, lemma_listing_done, lemma_listing_step, lists,
};

verus! {

broadcast use vstd::std_specs::hash::group_hash_axioms;

/// What additive merging makes of one key: where the right operand has a
/// count, it is added to the left one, an absent left entry counting as zero;
/// where it has none, the left entry stays as it is.
pub open spec fn sum_entry(left: Option<int>, right: Option<int>) -> Option<int> {
    match right {
        Some(r) => Some(
            match left {
                Some(l) => l + r,
                None => r,
            },
        ),
        None => left,
    }
}

/// What subtractive merging makes of one key: a left count that is at least
/// the right one keeps the remainder, unless that is zero; a smaller one
/// loses its entry. A key that either operand lacks is left alone.
pub open spec fn remainder_entry(left: Option<int>, right: Option<int>) -> Option<int> {
    match (left, right) {
        (Some(l), Some(r)) => if l >= r && l - r != 0 {
            Some(l - r)
        } else {
            None
        },
        _ => left,
    }
}

/// The additive merge of two multisets.
pub open spec fn merged<T>(a: Map<T, int>, b: Map<T, int>) -> Map<T, int> {
    entrywise(a, b, |l: Option<int>, r: Option<int>| sum_entry(l, r))
}

/// The subtractive merge of two multisets, which keeps positive remainders
/// only.
pub open spec fn reduced<T>(a: Map<T, int>, b: Map<T, int>) -> Map<T, int> {
    entrywise(a, b, |l: Option<int>, r: Option<int>| remainder_entry(l, r))
}

/// The sum of the counts that `pairs` gives for `key`.
pub open spec fn amount_for<T, N: Count>(pairs: Seq<(T, N)>, key: T) -> int
    decreases pairs.len(),
{
    if pairs.len() == 0 {
        0
    } else {
        let rest = amount_for(pairs.drop_last(), key);
        if pairs.last().0 == key {
            rest + pairs.last().1.value()
        } else {
            rest
        }
    }
}

/// `m` after the count of each pair has been added to the entry of its key:
/// every key that is named has an entry, and each count has grown by the sum
/// of the counts given for its key.
pub open spec fn accumulated<T, N: Count>(m: Map<T, int>, pairs: Seq<(T, N)>) -> Map<T, int> {
    Map::new(
        |k: T| m.contains_key(k) || names(pairs, k),
        |k: T| count_in(m, k) + amount_for(pairs, k),
    )
}

/// Accumulating one more pair adds its count to the entry of its key.
pub proof fn lemma_accumulated_push<T, N: Count>(m: Map<T, int>, pairs: Seq<(T, N)>, pair: (T, N))
    ensures
        accumulated(m, pairs.push(pair)) == accumulated(m, pairs).insert(
            pair.0,
            count_in(accumulated(m, pairs), pair.0) + pair.1.value(),
        ),
{
    let more = pairs.push(pair);
    let left = accumulated(m, more);
    let right = accumulated(m, pairs).insert(
        pair.0,
        count_in(accumulated(m, pairs), pair.0) + pair.1.value(),
    );
    assert(more.drop_last() =~= pairs);
    assert(more.last() == pair);
    assert forall|k: T| names(more, k) <==> (names(pairs, k) || k == pair.0) by {
        if names(more, k) {
            let i = choose|i: int| 0 <= i < more.len() && (#[trigger] more[i]).0 == k;
            if i < pairs.len() {
                assert(pairs[i].0 == k);
            }
        }
        if names(pairs, k) {
            let i = choose|i: int| 0 <= i < pairs.len() && (#[trigger] pairs[i]).0 == k;
            assert(more[i].0 == k);
        }
        if k == pair.0 {
            assert(more[pairs.len() as int].0 == k);
        }
    }
    assert forall|k: T| left.contains_key(k) implies left[k] == right[k] by {
        if !names(pairs, k) {
            lemma_amount_for_unnamed(pairs, k);
        }
    }
    assert(left =~= right);
}

/// A key that no pair names is given nothing.
pub proof fn lemma_amount_for_unnamed<T, N: Count>(pairs: Seq<(T, N)>, key: T)
    requires
        !names(pairs, key),
    ensures
        amount_for(pairs, key) == 0,
    decreases pairs.len(),
{
    if pairs.len() > 0 {
        assert(pairs[pairs.len() - 1].0 != key);
        assert forall|i: int| 0 <= i < pairs.drop_last().len() implies (#[trigger] pairs.drop_last()[i]).0
            != key by {
            assert(pairs[i].0 != key);
        }
        lemma_amount_for_unnamed(pairs.drop_last(), key);
    }
}

impl<T: Hash + Eq, N: Count> Counter<T, N> {
    /// Add the count of each pair to the entry of its key, which gets a zero
    /// entry first if it has none. The counts of a key that is named more
    /// than once add up.
    pub fn extend(&mut self, pairs: Vec<(T, N)>)
        requires
            old(self).wf(),
            forall|n: int, k: T|
                0 <= n <= pairs@.len() ==> fits::<N>(
                    count_in(old(self)@, k) + #[trigger] amount_for(pairs@.take(n), k),
                ),
        ensures
            final(self).wf(),
            final(self)@ == accumulated(old(self)@, pairs@),
    {
        let ghost all = pairs@;
        proof {
            assert(self@ =~= accumulated(old(self)@, all.take(0))) by {
                assert forall|k: T| !names(all.take(0), k) by {}
            }
        }
        for pair in it: pairs
            invariant
                self.wf(),
                it.seq() == all,
                self@ == accumulated(old(self)@, all.take(it.index() as int)),
                forall|n: int, k: T|
                    0 <= n <= all.len() ==> fits::<N>(
                        count_in(old(self)@, k) + #[trigger] amount_for(all.take(n), k),
                    ),
        {
            let ghost done = all.take(it.index() as int);
            proof {
                assert(all.take(it.index() + 1) =~= done.push(pair));
                lemma_accumulated_push(old(self)@, done, pair);
                assert(done.push(pair).drop_last() =~= done);
                assert(fits::<N>(
                    count_in(old(self)@, pair.0) + amount_for(all.take(it.index() + 1), pair.0),
                ));
                if !names(done, pair.0) {
                    lemma_amount_for_unnamed(done, pair.0);
                }
            }
            let (key, amount) = pair;
            self.add_to(key, amount);
        }
        proof {
            assert(all.take(all.len() as int) =~= all);
        }
    }

    /// Create a counter from pairs of a key and a count. The counts of a key
    /// that is named more than once add up.
    pub fn from_iter(pairs: Vec<(T, N)>) -> (counter: Self)
        requires
            vstd::std_specs::hash::obeys_key_model::<T>(),
            forall|n: int, k: T|
                0 <= n <= pairs@.len() ==> fits::<N>(#[trigger] amount_for(pairs@.take(n), k)),
        ensures
            counter.wf(),
            counter@ == accumulated(Map::<T, int>::empty(), pairs@),
    {
        let mut counter = Counter::new();
        counter.extend(pairs);
        counter
    }
}

impl<T: Hash + Eq + Copy, N: Count> Counter<T, N> {
    /// Add another counter to this counter, count by count. No entry is
    /// removed, whatever its sum.
    pub fn add_assign(&mut self, rhs: Self)
        requires
            old(self).wf(),
            rhs.wf(),
            forall|k: T| #[trigger]
                rhs@.contains_key(k) ==> fits::<N>(
                    sum_entry(old(self)@.get(k), rhs@.get(k)).unwrap(),
                ),
        ensures
            final(self).wf(),
            final(self)@ == merged(old(self)@, rhs@),
    {
        let ghost f = |l: Option<int>, r: Option<int>| sum_entry(l, r);
        proof {
            lemma_entrywise_on_none(old(self)@, rhs@, f);
            assert(keys_before(rhs.map.iter().remaining(), 0) =~= Set::<T>::empty());
        }
        for pair in it: rhs.map.iter()
            invariant
                self.wf(),
                rhs.wf(),
                lists(it.seq(), rhs.map@),
                self@ == entrywise_on(
                    old(self)@,
                    rhs@,
                    f,
                    keys_before(it.seq(), it.index() as int),
                ),
                f == |l: Option<int>, r: Option<int>| sum_entry(l, r),
                forall|k: T| #[trigger]
                    rhs@.contains_key(k) ==> fits::<N>(
                        sum_entry(old(self)@.get(k), rhs@.get(k)).unwrap(),
                    ),
        {
            let (key, value) = pair;
            proof {
                lemma_listing_step(it.seq(), rhs.map@, it.index() as int);
                lemma_entrywise_on_step(
                    old(self)@,
                    rhs@,
                    f,
                    keys_before(it.seq(), it.index() as int),
                    *key,
                );
                assert(rhs@.contains_key(*key));
                assert(self@.get(*key) == old(self)@.get(*key));
            }
            self.add_to(*key, *value);
            proof {
                assert(self@ =~= with_entry(
                    entrywise_on(old(self)@, rhs@, f, keys_before(it.seq(), it.index() as int)),
                    *key,
                    f(old(self)@.get(*key), rhs@.get(*key)),
                ));
            }
        }
        proof {
            lemma_listing_done(rhs.map.iter().remaining(), rhs.map@);
            assert(rhs.map@.dom() =~= rhs@.dom());
            lemma_entrywise_on_all(old(self)@, rhs@, f, rhs@.dom());
        }
    }

    /// The sum of two counters.
    pub fn add(self, rhs: Self) -> (sum: Self)
        requires
            self.wf(),
            rhs.wf(),
            forall|k: T| #[trigger]
                rhs@.contains_key(k) ==> fits::<N>(sum_entry(self@.get(k), rhs@.get(k)).unwrap()),
        ensures
            sum.wf(),
            sum@ == merged(self@, rhs@),
    {
        let mut sum = self;
        sum.add_assign(rhs);
        sum
    }

    /// Take the entry of `key` down by `amount`, keeping a positive remainder
    /// only: a count below `amount`, or one that comes to zero, loses its
    /// entry. A key without an entry stays without one.
    pub(crate) fn take_from(&mut self, key: T, amount: N)
        requires
            old(self).wf(),
            old(self)@.contains_key(key) && old(self)@[key] >= amount.value() ==> fits::<N>(
                old(self)@[key] - amount.value(),
            ),
        ensures
            final(self).wf(),
            final(self)@ == with_entry(
                old(self)@,
                key,
                remainder_entry(old(self)@.get(key), Some(amount.value())),
            ),
    {
        let ghost before = self.map@;
        match self.map.entry(key) {
            Entry::Occupied(mut slot) => {
                let current = *slot.get();
                if amount.at_most(current) {
                    let rest = current.minus(amount);
                    if rest.same(N::zero()) {
                        slot.remove();
                    } else {
                        slot.insert(rest);
                    }
                } else {
                    slot.remove();
                }
            },
            Entry::Vacant(_) => {},
        }
        assert(self@ =~= with_entry(
            old(self)@,
            key,
            remainder_entry(old(self)@.get(key), Some(amount.value())),
        ));
    }

    /// Subtract another counter from this counter, keeping only positive
    /// remainders: where the other count is the greater, the entry is removed
    /// and the excess is lost.
    pub fn sub_assign(&mut self, rhs: Self)
        requires
            old(self).wf(),
            rhs.wf(),
            forall|k: T| #[trigger]
                rhs@.contains_key(k) && old(self)@.contains_key(k) && old(self)@[k] >= rhs@[k]
                    ==> fits::<N>(old(self)@[k] - rhs@[k]),
        ensures
            final(self).wf(),
            final(self)@ == reduced(old(self)@, rhs@),
    {
        let ghost f = |l: Option<int>, r: Option<int>| remainder_entry(l, r);
        proof {
            lemma_entrywise_on_none(old(self)@, rhs@, f);
            assert(keys_before(rhs.map.iter().remaining(), 0) =~= Set::<T>::empty());
        }
        for pair in it: rhs.map.iter()
            invariant
                self.wf(),
                rhs.wf(),
                lists(it.seq(), rhs.map@),
                self@ == entrywise_on(
                    old(self)@,
                    rhs@,
                    f,
                    keys_before(it.seq(), it.index() as int),
                ),
                f == |l: Option<int>, r: Option<int>| remainder_entry(l, r),
                forall|k: T| #[trigger]
                    rhs@.contains_key(k) && old(self)@.contains_key(k) && old(self)@[k] >= rhs@[k]
                        ==> fits::<N>(old(self)@[k] - rhs@[k]),
        {
            let (key, value) = pair;
            proof {
                lemma_listing_step(it.seq(), rhs.map@, it.index() as int);
                lemma_entrywise_on_step(
                    old(self)@,
                    rhs@,
                    f,
                    keys_before(it.seq(), it.index() as int),
                    *key,
                );
                assert(rhs@.contains_key(*key));
                assert(self@.get(*key) == old(self)@.get(*key));
            }
            self.take_from(*key, *value);
        }
        proof {
            lemma_listing_done(rhs.map.iter().remaining(), rhs.map@);
            assert(rhs.map@.dom() =~= rhs@.dom());
            lemma_entrywise_on_all(old(self)@, rhs@, f, rhs@.dom());
        }
    }

    /// The difference of two counters, with positive remainders only.
    pub fn sub(self, rhs: Self) -> (difference: Self)
        requires
            self.wf(),
            rhs.wf(),
            forall|k: T| #[trigger]
                rhs@.contains_key(k) && self@.contains_key(k) && self@[k] >= rhs@[k] ==> fits::<N>(
                    self@[k] - rhs@[k],
                ),
        ensures
            difference.wf(),
            difference@ == reduced(self@, rhs@),
    {
        let mut difference = self;
        difference.sub_assign(rhs);
        difference
    }
}

} // verus!
