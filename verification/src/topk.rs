use vstd::prelude::*;
use std::hash::Hash;
use vstd::std_specs::iter::IteratorSpec;
use crate::count::Count;
use crate::counter::Counter;
use crate::heap::{heap_from, heapify, lemma_root_is_lowest, sift_down, sort_heap};
use crate::key::OrderedKey;
use crate::model::names;
use crate::order::{ask, settles, transitive};
use crate::ranking::{entry_of, is_top, lemma_entries_agree, outranks, stands_before, stronger};
use crate::steps::{keys_before, lemma_listing_done, lemma_listing_step, lists};

verus! {

broadcast use {
    vstd::std_specs::hash::group_hash_axioms,
    vstd::seq_lib::group_to_multiset_ensures,
};

/// Sequences with the same elements, each as often, have the same members
/// and the same length, and neither repeats an element unless the other
/// does.
pub proof fn lemma_same_members<E>(before: Seq<E>, after: Seq<E>)
    requires
        before.to_multiset() == after.to_multiset(),
    ensures
        before.len() == after.len(),
        forall|e: E| before.contains(e) <==> after.contains(e),
        before.no_duplicates() ==> after.no_duplicates(),
{
    assert(after.len() == after.to_multiset().len());
    assert(before.len() == before.to_multiset().len());
    assert forall|e: E| before.contains(e) <==> after.contains(e) by {
        assert(before.contains(e) <==> before.to_multiset().count(e) > 0);
        assert(after.contains(e) <==> after.to_multiset().count(e) > 0);
    }
    if before.no_duplicates() {
        before.lemma_multiset_has_no_duplicates();
        after.lemma_multiset_has_no_duplicates_conv();
    }
}

/// The heap of the best entries seen so far is in order: it holds distinct
/// entries whose keys are among `seen`, as many as fit, and each of them
/// stands before every seen entry that it does not hold.
pub open spec fn keeps_best<T: OrderedKey, N: Count>(
    heap: Seq<(T, N)>,
    m: Map<T, int>,
    seen: Set<T>,
    k: int,
) -> bool {
    &&& heap.no_duplicates()
    &&& heap.len() <= k
    &&& forall|e: (T, N)| #[trigger] heap.contains(e) ==> entry_of(e, m) && seen.contains(e.0)
    &&& heap.len() < k ==> forall|key: T| #[trigger] seen.contains(key) ==> names(heap, key)
    &&& forall|key: T, e: (T, N)|
        #![trigger seen.contains(key), heap.contains(e)]
        seen.contains(key) && m.contains_key(key) && !names(heap, key) && heap.contains(e)
            ==> stronger(e.1.value(), e.0, m[key], key)
}

/// Rearranging the heap keeps it in order.
pub proof fn lemma_keeps_best_rearranged<T: OrderedKey, N: Count>(
    before: Seq<(T, N)>,
    after: Seq<(T, N)>,
    m: Map<T, int>,
    seen: Set<T>,
    k: int,
)
    requires
        keeps_best(before, m, seen, k),
        before.to_multiset() == after.to_multiset(),
    ensures
        keeps_best(after, m, seen, k),
{
    lemma_same_members(before, after);
    assert forall|key: T| names(before, key) <==> names(after, key) by {
        if names(before, key) {
            let i = choose|i: int| 0 <= i < before.len() && (#[trigger] before[i]).0 == key;
            assert(before.contains(before[i]));
            let j = choose|j: int| 0 <= j < after.len() && after[j] == before[i];
            assert(after[j].0 == key);
        }
        if names(after, key) {
            let i = choose|i: int| 0 <= i < after.len() && (#[trigger] after[i]).0 == key;
            assert(after.contains(after[i]));
            let j = choose|j: int| 0 <= j < before.len() && before[j] == after[i];
            assert(before[j].0 == key);
        }
    }
}

impl<T: Hash + Eq + OrderedKey, N: Count> Counter<T, N> {
    /// The `k` most common entries, most common first and among equal counts
    /// in the natural order of the keys: what `most_common_ordered` gives,
    /// cut off after `k` pairs. Where the counter has no more than `k`
    /// entries, all of them are returned.
    pub fn k_most_common_ordered(&self, k: usize) -> (pairs: Vec<(T, N)>)
        requires
            self.wf(),
        ensures
            is_top(pairs@, self@, k as int),
    {
        if k == 0 {
            return Vec::new();
        }
        assert(self.map@.dom() =~= self@.dom());
        if k >= self.map.len() {
            let all = self.most_common_ordered();
            return all;
        }
        let ghost m = self@;
        let ghost below = |p: (T, N), c: (T, N)| !outranks(p, c);
        let better = |a: &(T, N), b: &(T, N)| -> (r: bool)
            ensures
                r == outranks(*a, *b),
            { stands_before(a, b) };
        proof {
            assert(transitive(below));
            assert(settles(&better, below));
        }
        let mut heap: Vec<(T, N)> = Vec::with_capacity(k);
        proof {
            assert(keys_before(self.map.iter().remaining(), 0) =~= Set::<T>::empty());
        }
        for pair in it: self.map.iter()
            invariant
                self.wf(),
                m == self@,
                k > 0,
                lists(it.seq(), self.map@),
                transitive(below),
                settles(&better, below),
                below == |p: (T, N), c: (T, N)| !outranks(p, c),
                heap@.len() == if it.index() <= k {
                    it.index() as int
                } else {
                    k as int
                },
                keeps_best(heap@, m, keys_before(it.seq(), it.index() as int), k as int),
                heap@.len() == k ==> heap_from(heap@, 0, k as int, below),
        {
            let (key, count) = pair;
            let item = (*key, *count);
            let ghost seen = keys_before(it.seq(), it.index() as int);
            let ghost held = heap@;
            proof {
                lemma_listing_step(it.seq(), self.map@, it.index() as int);
                assert(entry_of(item, m));
                assert(!names(held, item.0)) by {
                    if names(held, item.0) {
                        let i = choose|i: int| 0 <= i < held.len() && (#[trigger] held[i]).0 == item.0;
                        assert(held.contains(held[i]));
                    }
                }
            }
            if heap.len() < k {
                heap.push(item);
                proof {
                    let grown = heap@;
                    assert(grown.len() == held.len() + 1);
                    assert(grown[held.len() as int] == item);
                    assert forall|e: (T, N)| grown.contains(e) <==> (held.contains(e) || e == item) by {
                        if grown.contains(e) {
                            let i = choose|i: int| 0 <= i < grown.len() && grown[i] == e;
                            if i < held.len() {
                                assert(held[i] == e);
                            }
                        }
                        if held.contains(e) {
                            let i = choose|i: int| 0 <= i < held.len() && held[i] == e;
                            assert(grown[i] == e);
                        }
                    }
                    assert(grown.no_duplicates()) by {
                        assert forall|i: int, j: int|
                            0 <= i < grown.len() && 0 <= j < grown.len() && i != j implies grown[i]
                            != grown[j] by {
                            if i < held.len() && j < held.len() {
                                assert(held[i] != held[j]);
                            } else if i < held.len() {
                                assert(held.contains(held[i]));
                            } else {
                                assert(held.contains(held[j]));
                            }
                        }
                    }
                    assert forall|d: T| #[trigger]
                        seen.insert(item.0).contains(d) implies names(grown, d) by {
                        if d == item.0 {
                            assert(grown[held.len() as int].0 == d);
                        } else {
                            assert(names(held, d));
                            let i = choose|i: int| 0 <= i < held.len() && (#[trigger] held[i]).0 == d;
                            assert(grown[i].0 == d);
                        }
                    }
                    assert(keeps_best(grown, m, seen.insert(item.0), k as int));
                }
                if heap.len() == k {
                    heapify(&mut heap, &better, Ghost(below));
                    proof {
                        lemma_keeps_best_rearranged(
                            held.push(item),
                            heap@,
                            m,
                            seen.insert(item.0),
                            k as int,
                        );
                    }
                }
            } else {
                let ghost root = held[0];
                proof {
                    assert(held.contains(root));
                    assert forall|e: (T, N)| held.contains(e) && e != root implies outranks(
                        e,
                        root,
                    ) by {
                        let i = choose|i: int| 0 <= i < held.len() && held[i] == e;
                        lemma_root_is_lowest(held, k as int, below, i);
                        assert(!outranks(root, e));
                        if e.0.rank() == root.0.rank() {
                            T::rank_is_injective(e.0, root.0);
                            lemma_entries_agree(e, root, m);
                        }
                    }
                    if item.0.rank() == root.0.rank() {
                        T::rank_is_injective(item.0, root.0);
                        assert(held[0].0 == item.0);
                    }
                }
                if ask(&better, &item, &heap[0], Ghost(below)) {
                    heap[0] = item;
                    let ghost swapped = heap@;
                    proof {
                        assert(swapped == held.update(0, item));
                        assert(outranks(item, root));
                        assert forall|e: (T, N)|
                            swapped.contains(e) <==> (e == item || (held.contains(e) && e != root)) by {
                            if swapped.contains(e) {
                                let i = choose|i: int| 0 <= i < swapped.len() && swapped[i] == e;
                                if i != 0 {
                                    assert(held[i] == e);
                                    assert(held[i] != held[0]);
                                }
                            }
                            if held.contains(e) && e != root {
                                let i = choose|i: int| 0 <= i < held.len() && held[i] == e;
                                assert(swapped[i] == e);
                            }
                            if e == item {
                                assert(swapped[0] == e);
                            }
                        }
                        assert(swapped.no_duplicates()) by {
                            assert forall|i: int, j: int|
                                0 <= i < swapped.len() && 0 <= j < swapped.len() && i != j implies swapped[i]
                                != swapped[j] by {
                                if i != 0 && j != 0 {
                                    assert(held[i] != held[j]);
                                } else if i != 0 {
                                    assert(held.contains(held[i]));
                                } else {
                                    assert(held.contains(held[j]));
                                }
                            }
                        }
                        assert forall|d: T| names(swapped, d) <==> (d == item.0 || (names(held, d) && d
                            != root.0)) by {
                            if names(swapped, d) {
                                let i = choose|i: int|
                                    0 <= i < swapped.len() && (#[trigger] swapped[i]).0 == d;
                                if i != 0 {
                                    assert(held[i].0 == d);
                                    assert(held.contains(held[i]));
                                    if d == root.0 {
                                        lemma_entries_agree(held[i], root, m);
                                    }
                                }
                            }
                            if names(held, d) && d != root.0 {
                                let i = choose|i: int| 0 <= i < held.len() && (#[trigger] held[i]).0 == d;
                                assert(swapped[i].0 == d);
                            }
                            if d == item.0 {
                                assert(swapped[0].0 == d);
                            }
                        }
                        assert forall|d: T, e: (T, N)|
                            #![trigger seen.insert(item.0).contains(d), swapped.contains(e)]
                            seen.insert(item.0).contains(d) && m.contains_key(d) && !names(swapped, d)
                                && swapped.contains(e) implies stronger(
                            e.1.value(),
                            e.0,
                            m[d],
                            d,
                        ) by {
                            if d == root.0 {
                                if e != item {
                                    assert(outranks(e, root));
                                }
                            } else {
                                assert(seen.contains(d) && !names(held, d));
                                assert(stronger(root.1.value(), root.0, m[d], d));
                                if e != item {
                                    assert(held.contains(e));
                                }
                            }
                        }
                        assert(keeps_best(swapped, m, seen.insert(item.0), k as int));
                        assert(heap_from(swapped, 1, k as int, below)) by {
                            assert forall|p: int, c: int|
                                #![trigger below(swapped[p], swapped[c])]
                                1 <= p && p < c < k && (c == 2 * p + 1 || c == 2 * p + 2) implies below(
                                swapped[p],
                                swapped[c],
                            ) by {
                                assert(below(held[p], held[c]));
                            }
                        }
                    }
                    sift_down(&mut heap, 0, k, &better, Ghost(below));
                    proof {
                        lemma_keeps_best_rearranged(swapped, heap@, m, seen.insert(item.0), k as int);
                    }
                } else {
                    proof {
                        assert(!outranks(item, root));
                        assert(outranks(root, item));
                        assert forall|d: T, e: (T, N)|
                            #![trigger seen.insert(item.0).contains(d), held.contains(e)]
                            seen.insert(item.0).contains(d) && m.contains_key(d) && !names(held, d)
                                && held.contains(e) implies stronger(e.1.value(), e.0, m[d], d) by {
                            if d == item.0 {
                                if e != root {
                                    assert(outranks(e, root));
                                }
                            }
                        }
                        assert(keeps_best(held, m, seen.insert(item.0), k as int));
                    }
                }
            }
        }
        proof {
            lemma_listing_done(self.map.iter().remaining(), self.map@);
        }
        let ghost unsorted = heap@;
        sort_heap(&mut heap, &better, Ghost(below));
        proof {
            let seen = self@.dom();
            lemma_keeps_best_rearranged(unsorted, heap@, m, seen, k as int);
            let pairs = heap@;
            assert forall|i: int, j: int| 0 <= i < j < pairs.len() implies outranks(
                #[trigger] pairs[i],
                #[trigger] pairs[j],
            ) by {
                assert(below(pairs[j], pairs[i]));
                assert(pairs.contains(pairs[i]));
                assert(pairs.contains(pairs[j]));
                if pairs[i].0.rank() == pairs[j].0.rank() {
                    T::rank_is_injective(pairs[i].0, pairs[j].0);
                    lemma_entries_agree(pairs[i], pairs[j], m);
                }
            }
            assert forall|i: int| 0 <= i < pairs.len() implies entry_of(#[trigger] pairs[i], m) by {
                assert(pairs.contains(pairs[i]));
            }
            assert forall|key: T, i: int|
                #![trigger m.contains_key(key), pairs[i]]
                m.contains_key(key) && !names(pairs, key) && 0 <= i < pairs.len() implies stronger(
                pairs[i].1.value(),
                pairs[i].0,
                m[key],
                key,
            ) by {
                assert(pairs.contains(pairs[i]));
                assert(seen.contains(key));
            }
        }
        heap
    }
}

} // verus!
