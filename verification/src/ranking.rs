use vstd::prelude::*;
use std::cmp::Ordering;
use std::hash::Hash;
use vstd::std_specs::iter::IteratorSpec;
use crate::count::Count;
use crate::counter::Counter;
use crate::key::OrderedKey;
use crate::model::names;
use crate::steps::lists;
use crate::order::{settles, transitive};
use crate::sort::merge_sort;

verus! {

broadcast use {
    vstd::std_specs::hash::group_hash_axioms,
    vstd::seq_lib::group_to_multiset_ensures,
};

/// The pair is an entry of `m`: its key is stored there with its count.
pub open spec fn entry_of<T, N: Count>(pair: (T, N), m: Map<T, int>) -> bool {
    m.contains_key(pair.0) && m[pair.0] == pair.1.value()
}

/// The pairs are the entries of `m`, each of them once, in some order.
pub open spec fn is_listing<T, N: Count>(pairs: Seq<(T, N)>, m: Map<T, int>) -> bool {
    &&& pairs.no_duplicates()
    &&& forall|i: int| 0 <= i < pairs.len() ==> entry_of(#[trigger] pairs[i], m)
    &&& forall|k: T| #[trigger] m.contains_key(k) ==> names(pairs, k)
}

/// No pair has a greater count than one that comes before it.
pub open spec fn by_count_descending<T, N: Count>(pairs: Seq<(T, N)>) -> bool {
    forall|i: int, j: int|
        0 <= i < j < pairs.len() ==> (#[trigger] pairs[i]).1.value() >= (#[trigger] pairs[j]).1.value()
}

/// The tie-break decides the relation `lt`: whenever it is asked about a
/// pair of keys, it answers `Less` exactly where `lt` holds.
pub open spec fn orders_by<T, F: Fn(&T, &T) -> Ordering>(f: &F, lt: spec_fn(T, T) -> bool) -> bool {
    forall|a: T, b: T, o: Ordering| #[trigger]
        call_ensures(*f, (&a, &b), o) ==> (o == Ordering::Less <==> lt(a, b))
}

/// The relation is a strict weak ordering: nothing comes before itself,
/// coming before is transitive, and so is not coming before.
pub open spec fn strict_weak_order<T>(lt: spec_fn(T, T) -> bool) -> bool {
    &&& forall|a: T| !#[trigger] lt(a, a)
    &&& forall|a: T, b: T, c: T| #[trigger] lt(a, b) && #[trigger] lt(b, c) ==> lt(a, c)
    &&& forall|a: T, b: T, c: T| !#[trigger] lt(a, b) && !#[trigger] lt(b, c) ==> !lt(a, c)
}

/// The tie-break allows `a` to stand before `b`: no strict weak ordering
/// that it decides puts `b` before `a`.
pub open spec fn tie_allows<T, F: Fn(&T, &T) -> Ordering>(f: &F, a: T, b: T) -> bool {
    forall|lt: spec_fn(T, T) -> bool| #[trigger]
        orders_by(f, lt) && strict_weak_order(lt) ==> !lt(b, a)
}

/// Among pairs of equal count, the tie-break allows each to stand before
/// all that come after it.
pub open spec fn ties_in_order<T, N: Count, F: Fn(&T, &T) -> Ordering>(
    pairs: Seq<(T, N)>,
    f: &F,
) -> bool {
    forall|i: int, j: int|
        0 <= i < j < pairs.len() && (#[trigger] pairs[i]).1.value() == (#[trigger] pairs[j]).1.value()
            ==> tie_allows(f, pairs[i].0, pairs[j].0)
}

/// `p` may come after `c`: its count is no greater, and where the counts are
/// equal the tie-break allows `c` to stand before `p`.
pub open spec fn may_follow<T, N: Count, F: Fn(&T, &T) -> Ordering>(
    f: &F,
    p: (T, N),
    c: (T, N),
) -> bool {
    p.1.value() <= c.1.value() && (p.1.value() == c.1.value() ==> tie_allows(f, c.0, p.0))
}

/// `may_follow` is transitive, whatever the tie-break.
pub proof fn lemma_may_follow_transitive<T, N: Count, F: Fn(&T, &T) -> Ordering>(f: &F)
    ensures
        transitive(|p: (T, N), c: (T, N)| may_follow(f, p, c)),
{
    let below = |p: (T, N), c: (T, N)| may_follow(f, p, c);
    assert forall|a: (T, N), b: (T, N), c: (T, N)| #[trigger]
        below(a, b) && #[trigger] below(b, c) implies below(a, c) by {
        if a.1.value() == c.1.value() {
            assert forall|lt: spec_fn(T, T) -> bool| #[trigger]
                orders_by(f, lt) && strict_weak_order(lt) implies !lt(a.0, c.0) by {
                assert(!lt(a.0, b.0));
                assert(!lt(b.0, c.0));
            }
        }
    }
}

/// A rearrangement of a listing is a listing.
pub proof fn lemma_rearranged_listing<T, N: Count>(
    before: Seq<(T, N)>,
    after: Seq<(T, N)>,
    m: Map<T, int>,
)
    requires
        is_listing(before, m),
        before.to_multiset() == after.to_multiset(),
    ensures
        is_listing(after, m),
        after.len() == before.len(),
{
    before.lemma_multiset_has_no_duplicates();
    after.lemma_multiset_has_no_duplicates_conv();
    assert(after.len() == after.to_multiset().len());
    assert(before.len() == before.to_multiset().len());
    assert forall|i: int| 0 <= i < after.len() implies entry_of(#[trigger] after[i], m) by {
        assert(after.contains(after[i]));
        assert(after.to_multiset().count(after[i]) > 0);
        assert(before.contains(after[i]));
        let k = choose|k: int| 0 <= k < before.len() && before[k] == after[i];
        assert(entry_of(before[k], m));
    }
    assert forall|k: T| #[trigger] m.contains_key(k) implies names(after, k) by {
        assert(names(before, k));
        let i = choose|i: int| 0 <= i < before.len() && (#[trigger] before[i]).0 == k;
        assert(before.contains(before[i]));
        assert(before.to_multiset().count(before[i]) > 0);
        assert(after.contains(before[i]));
        let j = choose|j: int| 0 <= j < after.len() && after[j] == before[i];
        assert(after[j].0 == k);
    }
}

/// Whether the pair `a` is to stand strictly before the pair `b`: by the
/// greater count, and for equal counts, and only then, by asking the
/// tie-break.
pub(crate) fn ranks_first<T, N: Count, F: Fn(&T, &T) -> Ordering>(
    tiebreaker: &F,
    a: &(T, N),
    b: &(T, N),
) -> (r: bool)
    requires
        forall|x: T, y: T| #[trigger] call_requires(*tiebreaker, (&x, &y)),
    ensures
        r ==> may_follow(tiebreaker, *b, *a),
        !r ==> may_follow(tiebreaker, *a, *b),
{
    if !a.1.at_most(b.1) {
        true
    } else if !b.1.at_most(a.1) {
        false
    } else {
        assert(call_requires(*tiebreaker, (&a.0, &b.0)));
        let answer = tiebreaker(&a.0, &b.0);
        assert(call_ensures(*tiebreaker, (&a.0, &b.0), answer));
        proof {
            assert forall|lt: spec_fn(T, T) -> bool| #[trigger]
                orders_by(tiebreaker, lt) && strict_weak_order(lt) implies (if answer
                == Ordering::Less {
                !lt(b.0, a.0)
            } else {
                !lt(a.0, b.0)
            }) by {
                if lt(a.0, b.0) && lt(b.0, a.0) {
                    assert(lt(a.0, a.0));
                }
            }
        }
        match answer {
            Ordering::Less => true,
            _ => false,
        }
    }
}

impl<T: Hash + Eq + Copy, N: Count> Counter<T, N> {
    /// The entries of this counter, each of them once, in no particular
    /// order.
    pub fn entries(&self) -> (pairs: Vec<(T, N)>)
        requires
            self.wf(),
        ensures
            is_listing(pairs@, self@),
            pairs@.len() == self@.dom().len(),
    {
        let mut pairs: Vec<(T, N)> = Vec::new();
        for pair in it: self.map.iter()
            invariant
                self.wf(),
                lists(it.seq(), self.map@),
                pairs@.len() == it.index(),
                forall|i: int|
                    0 <= i < pairs@.len() ==> (#[trigger] pairs@[i]).0 == *it.seq()[i].0
                        && pairs@[i].1 == *it.seq()[i].1,
        {
            let (key, count) = pair;
            pairs.push((*key, *count));
        }
        proof {
            let listing = self.map.iter().remaining();
            assert(self.map@.dom() =~= self@.dom());
            assert forall|i: int, j: int| 0 <= i < j < pairs@.len() implies pairs@[i] != pairs@[j] by {
                assert(listing[i] != listing[j]);
            }
            assert forall|i: int| 0 <= i < pairs@.len() implies entry_of(#[trigger] pairs@[i], self@) by {
                assert(self.map@.contains_key(*listing[i].0));
            }
            assert forall|k: T| #[trigger] self@.contains_key(k) implies names(pairs@, k) by {
                let p = (&k, &self.map@[k]);
                assert(listing.contains(p));
                let i = choose|i: int| 0 <= i < listing.len() && listing[i] == p;
                assert(pairs@[i].0 == k);
            }
        }
        pairs
    }

    /// The entries of this counter, most common first. Pairs of equal count
    /// are put in order by `tiebreaker`, which is asked about such pairs
    /// only. A tie-break that decides no strict weak ordering still gives
    /// all the entries by descending count.
    pub fn most_common_tiebreaker<F: Fn(&T, &T) -> Ordering>(&self, tiebreaker: F) -> (pairs: Vec<
        (T, N),
    >)
        requires
            self.wf(),
            forall|a: T, b: T| #[trigger] call_requires(tiebreaker, (&a, &b)),
        ensures
            is_listing(pairs@, self@),
            pairs@.len() == self@.dom().len(),
            by_count_descending(pairs@),
            ties_in_order(pairs@, &tiebreaker),
    {
        let items = self.entries();
        let ghost below = |p: (T, N), c: (T, N)| may_follow(&tiebreaker, p, c);
        let tie = &tiebreaker;
        let better = |a: &(T, N), b: &(T, N)| -> (r: bool)
            ensures
                r ==> may_follow(tie, *b, *a),
                !r ==> may_follow(tie, *a, *b),
            { ranks_first(tie, a, b) };
        proof {
            lemma_may_follow_transitive::<T, N, F>(&tiebreaker);
            assert(settles(&better, below));
        }
        let pairs = merge_sort(items, &better, Ghost(below));
        proof {
            lemma_rearranged_listing(items@, pairs@, self@);
            assert(by_count_descending(pairs@)) by {
                assert forall|i: int, j: int| 0 <= i < j < pairs@.len() implies (#[trigger] pairs@[i]).1.value()
                    >= (#[trigger] pairs@[j]).1.value() by {
                    assert(below(pairs@[j], pairs@[i]));
                }
            }
            assert forall|i: int, j: int|
                0 <= i < j < pairs@.len() && (#[trigger] pairs@[i]).1.value() == (
                #[trigger] pairs@[j]).1.value() implies tie_allows(
                &tiebreaker,
                pairs@[i].0,
                pairs@[j].0,
            ) by {
                assert(below(pairs@[j], pairs@[i]));
            }
        }
        pairs
    }
}

/// An entry with the first count and key stands before one with the second
/// in the natural ranking: by the greater count, and among equal counts by
/// the lesser key.
pub open spec fn stronger<T: OrderedKey>(count: int, key: T, other_count: int, other_key: T) -> bool {
    count > other_count || (count == other_count && key.rank() < other_key.rank())
}

/// `a` stands before `b` in the natural ranking.
pub open spec fn outranks<T: OrderedKey, N: Count>(a: (T, N), b: (T, N)) -> bool {
    stronger(a.1.value(), a.0, b.1.value(), b.0)
}

/// Whether the pair `a` stands before the pair `b` in the natural ranking.
pub(crate) fn stands_before<T: OrderedKey, N: Count>(a: &(T, N), b: &(T, N)) -> (r: bool)
    ensures
        r == outranks(*a, *b),
{
    if !a.1.at_most(b.1) {
        true
    } else if !b.1.at_most(a.1) {
        false
    } else {
        a.0.precedes(&b.0)
    }
}

/// Every pair outranks all that come after it.
pub open spec fn ranked<T: OrderedKey, N: Count>(pairs: Seq<(T, N)>) -> bool {
    forall|i: int, j: int| 0 <= i < j < pairs.len() ==> outranks(#[trigger] pairs[i], #[trigger] pairs[j])
}

/// The pairs are the natural ranking of `m`: all its entries, most common
/// first, and among equal counts in increasing order of their keys.
pub open spec fn is_ranking<T: OrderedKey, N: Count>(pairs: Seq<(T, N)>, m: Map<T, int>) -> bool {
    &&& is_listing(pairs, m)
    &&& ranked(pairs)
}

/// The pairs are the first `k` of the natural ranking of `m`, or all of it
/// where it has no more than `k`: they are entries of `m` in ranking order,
/// and each of them stands before every entry that is left out.
pub open spec fn is_top<T: OrderedKey, N: Count>(pairs: Seq<(T, N)>, m: Map<T, int>, k: int) -> bool {
    &&& pairs.len() == if k <= m.dom().len() {
        k
    } else {
        m.dom().len() as int
    }
    &&& ranked(pairs)
    &&& forall|i: int| 0 <= i < pairs.len() ==> entry_of(#[trigger] pairs[i], m)
    &&& forall|key: T, i: int|
        #![trigger m.contains_key(key), pairs[i]]
        m.contains_key(key) && !names(pairs, key) && 0 <= i < pairs.len() ==> stronger(
            pairs[i].1.value(),
            pairs[i].0,
            m[key],
            key,
        )
}

/// Two entries of one map with the same key are the same pair.
pub proof fn lemma_entries_agree<T, N: Count>(a: (T, N), b: (T, N), m: Map<T, int>)
    requires
        entry_of(a, m),
        entry_of(b, m),
        a.0 == b.0,
    ensures
        a == b,
{
    N::value_is_injective(a.1, b.1);
}

impl<T: Hash + Eq + Copy, N: Count> Counter<T, N> {
    /// The entries of this counter, most common first. The order among pairs
    /// of equal count is not specified.
    pub fn most_common(&self) -> (pairs: Vec<(T, N)>)
        requires
            self.wf(),
        ensures
            is_listing(pairs@, self@),
            pairs@.len() == self@.dom().len(),
            by_count_descending(pairs@),
    {
        let undecided = |a: &T, b: &T| -> (o: Ordering) { Ordering::Equal };
        self.most_common_tiebreaker(undecided)
    }
}

impl<T: Hash + Eq + OrderedKey, N: Count> Counter<T, N> {
    /// The entries of this counter, most common first, and among equal
    /// counts in the natural order of the keys.
    pub fn most_common_ordered(&self) -> (pairs: Vec<(T, N)>)
        requires
            self.wf(),
        ensures
            is_ranking(pairs@, self@),
            pairs@.len() == self@.dom().len(),
    {
        let natural = |a: &T, b: &T| -> (o: Ordering)
            ensures
                o == Ordering::Less <==> a.rank() < b.rank(),
            {
                if a.precedes(b) {
                    Ordering::Less
                } else if b.precedes(a) {
                    Ordering::Greater
                } else {
                    Ordering::Equal
                }
            };
        let ghost by_rank = |a: T, b: T| a.rank() < b.rank();
        proof {
            assert(orders_by(&natural, by_rank));
            assert(strict_weak_order(by_rank));
        }
        let pairs = self.most_common_tiebreaker(natural);
        proof {
            assert forall|i: int, j: int| 0 <= i < j < pairs@.len() implies outranks(
                #[trigger] pairs@[i],
                #[trigger] pairs@[j],
            ) by {
                if pairs@[i].1.value() == pairs@[j].1.value() {
                    assert(tie_allows(&natural, pairs@[i].0, pairs@[j].0));
                    assert(!by_rank(pairs@[j].0, pairs@[i].0));
                    if pairs@[i].0.rank() == pairs@[j].0.rank() {
                        T::rank_is_injective(pairs@[i].0, pairs@[j].0);
                        lemma_entries_agree(pairs@[i], pairs@[j], self@);
                    }
                }
            }
        }
        pairs
    }
}

} // verus!
