use vstd::prelude::*;
use std::hash::Hash;
use vstd::std_specs::iter::IteratorSpec;
use crate::count::Count;
use crate::counter::Counter;
use crate::model::{count_in, entrywise, with_entry};
use crate::steps::{
    elements_before, entrywise_on, entrywise_within, keys_before, lemma_entrywise_on_all,
    lemma_entrywise_on_none, lemma_entrywise_on_step, lemma_entrywise_within_all,
    lemma_entrywise_within_none, lemma_entrywise_within_step, lemma_listing_done,
    lemma_listing_step, lists,
};

verus! {

broadcast use vstd::std_specs::hash::group_hash_axioms;

/// The lesser of two integers.
pub open spec fn lesser(x: int, y: int) -> int {
    if x <= y {
        x
    } else {
        y
    }
}

/// The greater of two integers.
pub open spec fn greater(x: int, y: int) -> int {
    if x >= y {
        x
    } else {
        y
    }
}

/// What intersection makes of one key: the lesser count where both operands
/// have an entry, and no entry otherwise. An absent entry is not read as
/// zero here.
pub open spec fn meet_entry(left: Option<int>, right: Option<int>) -> Option<int> {
    match (left, right) {
        (Some(l), Some(r)) => Some(lesser(l, r)),
        _ => None,
    }
}

/// The intersection of two multisets.
pub open spec fn intersection<T>(a: Map<T, int>, b: Map<T, int>) -> Map<T, int> {
    entrywise(a, b, |l: Option<int>, r: Option<int>| meet_entry(l, r))
}

/// What union makes of one key: where either operand has an entry, the
/// greater of the two counts, an absent entry counting as zero; where neither
/// has one, no entry.
pub open spec fn join_entry(left: Option<int>, right: Option<int>) -> Option<int> {
    match (left, right) {
        (Some(l), Some(r)) => Some(greater(l, r)),
        (Some(l), None) => Some(greater(l, 0)),
        (None, Some(r)) => Some(greater(0, r)),
        (None, None) => None,
    }
}

/// The union of two multisets.
pub open spec fn union<T>(a: Map<T, int>, b: Map<T, int>) -> Map<T, int> {
    entrywise(a, b, |l: Option<int>, r: Option<int>| join_entry(l, r))
}

/// `a` is a sub-multiset of `b`: no key of either counts more in `a` than in
/// `b`, a key without an entry counting zero.
pub open spec fn subset_of<T>(a: Map<T, int>, b: Map<T, int>) -> bool {
    forall|k: T|
        (a.contains_key(k) || b.contains_key(k)) ==> #[trigger] count_in(a, k) <= count_in(b, k)
}

/// `a` is a super-multiset of `b`: no key of either counts less in `a` than
/// in `b`, a key without an entry counting zero.
pub open spec fn superset_of<T>(a: Map<T, int>, b: Map<T, int>) -> bool {
    forall|k: T|
        (a.contains_key(k) || b.contains_key(k)) ==> #[trigger] count_in(a, k) >= count_in(b, k)
}

impl<T: Hash + Eq + Copy, N: Count> Counter<T, N> {
    /// The intersection of this counter and `other`, both left as they are.
    pub(crate) fn meet(&self, other: &Self) -> (met: Self)
        requires
            self.wf(),
            other.wf(),
        ensures
            met.wf(),
            met@ == intersection(self@, other@),
    {
        let ghost f = |l: Option<int>, r: Option<int>| meet_entry(l, r);
        let mut met: Counter<T, N> = Counter::new();
        proof {
            lemma_entrywise_within_none(self@, other@, f);
            assert(keys_before(self.map.iter().remaining(), 0) =~= Set::<T>::empty());
        }
        for pair in it: self.map.iter()
            invariant
                self.wf(),
                other.wf(),
                met.wf(),
                lists(it.seq(), self.map@),
                met@ == entrywise_within(
                    self@,
                    other@,
                    f,
                    keys_before(it.seq(), it.index() as int),
                ),
                f == |l: Option<int>, r: Option<int>| meet_entry(l, r),
        {
            let (key, left) = pair;
            proof {
                lemma_listing_step(it.seq(), self.map@, it.index() as int);
                lemma_entrywise_within_step(
                    self@,
                    other@,
                    f,
                    keys_before(it.seq(), it.index() as int),
                    *key,
                );
                assert(self@.contains_key(*key));
            }
            let ghost before = met@;
            match other.map.get(key) {
                Some(right) => {
                    let least = if left.at_most(*right) {
                        *left
                    } else {
                        *right
                    };
                    met.map.insert(*key, least);
                    assert(met@ =~= before.insert(*key, lesser(left.value(), right.value())));
                },
                None => {
                    assert(met@ =~= before.remove(*key));
                },
            }
        }
        proof {
            lemma_listing_done(self.map.iter().remaining(), self.map@);
            assert(self.map@.dom() =~= self@.dom());
            lemma_entrywise_within_all(self@, other@, f, self@.dom());
        }
        met
    }

    /// The intersection of two counters: for each key that both hold, the
    /// lesser of the two counts. A key that only one holds is left out.
    pub fn bitand(self, rhs: Self) -> (met: Self)
        requires
            self.wf(),
            rhs.wf(),
        ensures
            met.wf(),
            met@ == intersection(self@, rhs@),
    {
        self.meet(&rhs)
    }

    /// Replace this counter by its intersection with `rhs`.
    pub fn bitand_assign(&mut self, rhs: Self)
        requires
            old(self).wf(),
            rhs.wf(),
        ensures
            final(self).wf(),
            final(self)@ == intersection(old(self)@, rhs@),
    {
        let met = self.meet(&rhs);
        self.map = met.map;
        assert(self@ =~= met@);
    }

    /// Raise the count of `key` to `floor` where it is below it; a key without
    /// an entry gets one first, with a zero count.
    pub(crate) fn raise_to(&mut self, key: T, floor: N)
        requires
            old(self).wf(),
        ensures
            final(self).wf(),
            final(self)@ == old(self)@.insert(key, greater(count_in(old(self)@, key), floor.value())),
    {
        let ghost before = self.map@;
        let slot = self.map.entry(key).or_insert(N::zero());
        if slot.at_most(floor) {
            *slot = floor;
        }
        assert(self.map@ == before.insert(key, self.map@[key]));
        assert(self@ =~= old(self)@.insert(
            key,
            greater(count_in(old(self)@, key), floor.value()),
        ));
    }

    /// The keys whose stored count is below zero.
    pub(crate) fn keys_below_zero(&self) -> (low: Vec<T>)
        requires
            self.wf(),
        ensures
            forall|i: int|
                0 <= i < low@.len() ==> self@.contains_key(#[trigger] low@[i]) && self@[low@[i]]
                    < 0,
            forall|k: T| #[trigger] self@.contains_key(k) && self@[k] < 0 ==> low@.contains(k),
    {
        let mut low: Vec<T> = Vec::new();
        let zero = N::zero();
        for pair in it: self.map.iter()
            invariant
                self.wf(),
                zero.value() == 0,
                lists(it.seq(), self.map@),
                forall|i: int|
                    0 <= i < low@.len() ==> self@.contains_key(#[trigger] low@[i])
                        && self@[low@[i]] < 0,
                forall|k: T| #[trigger]
                    keys_before(it.seq(), it.index() as int).contains(k) && self@[k] < 0
                        ==> low@.contains(k),
        {
            let (key, count) = pair;
            proof {
                lemma_listing_step(it.seq(), self.map@, it.index() as int);
            }
            let ghost earlier = low@;
            if !zero.at_most(*count) {
                low.push(*key);
                assert(low@[low@.len() - 1] == *key);
            }
            assert forall|k: T| #[trigger]
                keys_before(it.seq(), it.index() + 1).contains(k) && self@[k] < 0 implies low@.contains(
                k,
            ) by {
                if k != *key {
                    assert(keys_before(it.seq(), it.index() as int).contains(k));
                    let j = choose|j: int| 0 <= j < earlier.len() && earlier[j] == k;
                    assert(low@[j] == k);
                }
            }
        }
        proof {
            lemma_listing_done(self.map.iter().remaining(), self.map@);
            assert(self.map@.dom() =~= self@.dom());
        }
        low
    }

    /// Replace this counter by its union with `rhs`: every key of either is
    /// kept, with the greater of the two counts, an absent entry counting as
    /// zero. Where the counts are equal the right one is taken.
    pub fn bitor_assign(&mut self, rhs: Self)
        requires
            old(self).wf(),
            rhs.wf(),
        ensures
            final(self).wf(),
            final(self)@ == union(old(self)@, rhs@),
    {
        let ghost f = |l: Option<int>, r: Option<int>| join_entry(l, r);
        let low = self.keys_below_zero();
        proof {
            lemma_entrywise_on_none(old(self)@, rhs@, f);
            assert(keys_before(rhs.map.iter().remaining(), 0) =~= Set::<T>::empty());
        }
        for pair in it: rhs.map.iter()
            invariant
                self.wf(),
                rhs.wf(),
                lists(it.seq(), rhs.map@),
                self@ == entrywise_on(
                    old(self)@,
                    rhs@,
                    f,
                    keys_before(it.seq(), it.index() as int),
                ),
                f == |l: Option<int>, r: Option<int>| join_entry(l, r),
        {
            let (key, value) = pair;
            proof {
                lemma_listing_step(it.seq(), rhs.map@, it.index() as int);
                lemma_entrywise_on_step(
                    old(self)@,
                    rhs@,
                    f,
                    keys_before(it.seq(), it.index() as int),
                    *key,
                );
                assert(rhs@.contains_key(*key));
                assert(self@.get(*key) == old(self)@.get(*key));
            }
            self.raise_to(*key, *value);
        }
        proof {
            lemma_listing_done(rhs.map.iter().remaining(), rhs.map@);
            assert(rhs.map@.dom() =~= rhs@.dom());
            assert(rhs@.dom().union(elements_before(low@, 0)) =~= rhs@.dom());
        }
        let zero = N::zero();
        for i in 0..low.len()
            invariant
                self.wf(),
                rhs.wf(),
                zero.value() == 0,
                self@ == entrywise_on(
                    old(self)@,
                    rhs@,
                    f,
                    rhs@.dom().union(elements_before(low@, i as int)),
                ),
                f == |l: Option<int>, r: Option<int>| join_entry(l, r),
                forall|j: int|
                    0 <= j < low@.len() ==> old(self)@.contains_key(#[trigger] low@[j])
                        && old(self)@[low@[j]] < 0,
        {
            let key = low[i];
            let ghost done = rhs@.dom().union(elements_before(low@, i as int));
            proof {
                lemma_entrywise_on_step(old(self)@, rhs@, f, done, key);
                assert(done.insert(key) =~= rhs@.dom().union(elements_before(low@, i + 1))) by {
                    assert forall|k: T|
                        done.insert(key).contains(k) <==> rhs@.dom().union(
                            elements_before(low@, i + 1),
                        ).contains(k) by {
                        if elements_before(low@, i + 1).contains(k) {
                            let j = choose|j: int| 0 <= j < i + 1 && #[trigger] low@[j] == k;
                            if j < i {
                                assert(elements_before(low@, i as int).contains(k));
                            }
                        }
                        if elements_before(low@, i as int).contains(k) {
                            let j = choose|j: int| 0 <= j < i && #[trigger] low@[j] == k;
                            assert(0 <= j < i + 1 && low@[j] == k);
                        }
                        if k == key {
                            assert(0 <= i < i + 1 && low@[i as int] == k);
                        }
                    }
                }
            }
            if !rhs.map.contains_key(&key) {
                self.map.insert(key, zero);
                assert(self@ =~= with_entry(
                    entrywise_on(old(self)@, rhs@, f, done),
                    key,
                    f(old(self)@.get(key), rhs@.get(key)),
                ));
            } else {
                assert(done.insert(key) =~= done);
            }
        }
        proof {
            let keys = rhs@.dom().union(elements_before(low@, low@.len() as int));
            assert forall|k: T| !keys.contains(k) implies #[trigger] f(
                old(self)@.get(k),
                rhs@.get(k),
            ) == old(self)@.get(k) by {
                if old(self)@.contains_key(k) && old(self)@[k] < 0 {
                    assert(low@.contains(k));
                    let j = choose|j: int| 0 <= j < low@.len() && low@[j] == k;
                    assert(elements_before(low@, low@.len() as int).contains(k));
                }
            }
            lemma_entrywise_on_all(old(self)@, rhs@, f, keys);
        }
    }

    /// The union of two counters.
    pub fn bitor(self, rhs: Self) -> (joined: Self)
        requires
            self.wf(),
            rhs.wf(),
        ensures
            joined.wf(),
            joined@ == union(self@, rhs@),
    {
        let mut joined = self;
        joined.bitor_assign(rhs);
        joined
    }

    /// Whether this counter is a sub-multiset of `other`: every key of either
    /// counts no more here than there. The keys of both are looked at, since
    /// a key that only `other` holds may have a negative count there.
    pub fn is_subset(&self, other: &Self) -> (b: bool)
        requires
            self.wf(),
            other.wf(),
        ensures
            b == subset_of(self@, other@),
    {
        for pair in it: self.map.iter()
            invariant
                self.wf(),
                other.wf(),
                lists(it.seq(), self.map@),
                forall|k: T| #[trigger]
                    keys_before(it.seq(), it.index() as int).contains(k) ==> count_in(self@, k)
                        <= count_in(other@, k),
        {
            let (key, here) = pair;
            proof {
                lemma_listing_step(it.seq(), self.map@, it.index() as int);
            }
            if !here.at_most(*other.index(key)) {
                assert(self@.contains_key(*key));
                assert(count_in(self@, *key) > count_in(other@, *key));
                return false;
            }
        }
        proof {
            lemma_listing_done(self.map.iter().remaining(), self.map@);
            assert(self.map@.dom() =~= self@.dom());
        }
        for pair in it: other.map.iter()
            invariant
                self.wf(),
                other.wf(),
                lists(it.seq(), other.map@),
                forall|k: T| #[trigger] self@.contains_key(k) ==> count_in(self@, k) <= count_in(other@, k),
                forall|k: T| #[trigger]
                    keys_before(it.seq(), it.index() as int).contains(k) ==> count_in(self@, k)
                        <= count_in(other@, k),
        {
            let (key, there) = pair;
            proof {
                lemma_listing_step(it.seq(), other.map@, it.index() as int);
            }
            if !self.index(key).at_most(*there) {
                assert(other@.contains_key(*key));
                assert(count_in(self@, *key) > count_in(other@, *key));
                return false;
            }
        }
        proof {
            lemma_listing_done(other.map.iter().remaining(), other.map@);
            assert(other.map@.dom() =~= other@.dom());
        }
        true
    }

    /// Whether this counter is a super-multiset of `other`: every key of
    /// either counts no less here than there.
    pub fn is_superset(&self, other: &Self) -> (b: bool)
        requires
            self.wf(),
            other.wf(),
        ensures
            b == superset_of(self@, other@),
    {
        proof {
            crate::laws::lemma_subset_mirrors_superset(other@, self@);
        }
        other.is_subset(self)
    }
}

} // verus!
