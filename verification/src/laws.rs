use vstd::prelude::*;
use crate::algebra::{greater, intersection, lesser, subset_of, superset_of, union};
use crate::count::Count;
use crate::key::OrderedKey;
use crate::merge::{merged, reduced};
use crate::model::{count_in, deducted, lemma_occurrences_positive, names, occurrences, tallied};
use crate::ranking::{entry_of, is_listing, is_ranking, is_top, lemma_entries_agree, outranks};

verus! {

/// Counting a sequence and then removing the same sequence leaves nothing.
pub proof fn lemma_counted_then_removed_is_empty<T>(items: Seq<T>)
    ensures
        deducted(tallied(Map::<T, int>::empty(), items), items) == Map::<T, int>::empty(),
{
    let counted = tallied(Map::<T, int>::empty(), items);
    assert forall|k: T| !deducted(counted, items).contains_key(k) by {
        lemma_occurrences_positive(items, k);
    }
    assert(deducted(counted, items) =~= Map::<T, int>::empty());
}

/// A key cannot occur more often than the sequence is long, so a count of
/// occurrences fits every type that can hold the length.
pub proof fn lemma_occurrences_within_length<T>(items: Seq<T>, key: T)
    ensures
        occurrences(items, key) <= items.len(),
    decreases items.len(),
{
    if items.len() > 0 {
        lemma_occurrences_within_length(items.drop_last(), key);
    }
}

/// Removing a sequence leaves no stored zero behind for a key that occurs in
/// it: such a key keeps a positive count, or a negative one that it had
/// before, or loses its entry.
pub proof fn lemma_removed_leaves_no_zero<T>(m: Map<T, int>, items: Seq<T>, key: T)
    requires
        items.contains(key),
        deducted(m, items).contains_key(key),
    ensures
        deducted(m, items)[key] != 0,
        deducted(m, items)[key] < 0 ==> deducted(m, items)[key] == m[key],
{
    lemma_occurrences_positive(items, key);
}

/// Additive merging is commutative, and no key of either operand loses its
/// entry.
pub proof fn lemma_merge_commutes<T>(a: Map<T, int>, b: Map<T, int>)
    ensures
        merged(a, b) == merged(b, a),
        merged(a, b).dom() == a.dom().union(b.dom()),
{
    assert(merged(a, b) =~= merged(b, a));
    assert(merged(a, b).dom() =~= a.dom().union(b.dom()));
}

/// Subtractive merging leaves every key of the right operand with a
/// positive count or with no entry at all, and no other key is touched.
pub proof fn lemma_subtraction_keeps_positive<T>(a: Map<T, int>, b: Map<T, int>, key: T)
    ensures
        b.contains_key(key) && reduced(a, b).contains_key(key) ==> reduced(a, b)[key] > 0,
        !b.contains_key(key) ==> reduced(a, b).get(key) == a.get(key),
        reduced(a, b).contains_key(key) ==> a.contains_key(key),
{
}

/// Adding a multiset and then subtracting it again gives back the first
/// operand, provided that each key they share has a positive count in the
/// first: a stored zero or a negative count would be dropped by the
/// subtraction.
pub proof fn lemma_added_then_subtracted<T>(a: Map<T, int>, b: Map<T, int>)
    requires
        forall|k: T| #[trigger] a.contains_key(k) && b.contains_key(k) ==> a[k] > 0,
    ensures
        reduced(merged(a, b), b) == a,
{
    assert forall|k: T| reduced(merged(a, b), b).contains_key(k) <==> a.contains_key(k) by {
        if a.contains_key(k) && b.contains_key(k) {
            assert(a[k] > 0);
        }
    }
    assert(reduced(merged(a, b), b) =~= a);
}

/// The intersection holds the keys that both operands hold, each with the
/// lesser of its two counts.
pub proof fn lemma_intersection_takes_lesser<T>(a: Map<T, int>, b: Map<T, int>, key: T)
    ensures
        intersection(a, b).contains_key(key) <==> a.contains_key(key) && b.contains_key(key),
        intersection(a, b).contains_key(key) ==> intersection(a, b)[key] == lesser(a[key], b[key]),
{
}

/// The union holds the keys that either operand holds, each with the greater
/// of its two counts, an absent entry counting as zero.
pub proof fn lemma_union_takes_greater<T>(a: Map<T, int>, b: Map<T, int>, key: T)
    ensures
        union(a, b).contains_key(key) <==> a.contains_key(key) || b.contains_key(key),
        union(a, b).contains_key(key) ==> union(a, b)[key] == greater(
            count_in(a, key),
            count_in(b, key),
        ),
{
}

/// `a` is a sub-multiset of `b` exactly when `b` is a super-multiset of `a`,
/// whatever the sign of the counts.
pub proof fn lemma_subset_mirrors_superset<T>(a: Map<T, int>, b: Map<T, int>)
    ensures
        subset_of(a, b) <==> superset_of(b, a),
{
    if subset_of(a, b) {
        assert forall|k: T| (b.contains_key(k) || a.contains_key(k)) implies #[trigger] count_in(b, k)
            >= count_in(a, k) by {
            assert(count_in(a, k) <= count_in(b, k));
        }
    }
    if superset_of(b, a) {
        assert forall|k: T| (a.contains_key(k) || b.contains_key(k)) implies #[trigger] count_in(a, k)
            <= count_in(b, k) by {
            assert(count_in(b, k) >= count_in(a, k));
        }
    }
}

/// A listing of a map names each key at one place only, and holds the whole
/// entry there.
pub proof fn lemma_listing_place<T, N: Count>(pairs: Seq<(T, N)>, m: Map<T, int>, pair: (T, N)) -> (place:
    int)
    requires
        is_listing(pairs, m),
        entry_of(pair, m),
    ensures
        0 <= place < pairs.len(),
        pairs[place] == pair,
{
    assert(names(pairs, pair.0));
    let place = choose|i: int| 0 <= i < pairs.len() && (#[trigger] pairs[i]).0 == pair.0;
    lemma_entries_agree(pairs[place], pair, m);
    place
}

/// The `k` most common entries are the first `k` of the full ranking, pair
/// for pair: as many as were asked for, or all of them where there are
/// fewer.
pub proof fn lemma_top_is_start_of_ranking<T: OrderedKey, N: Count>(
    top: Seq<(T, N)>,
    full: Seq<(T, N)>,
    m: Map<T, int>,
    k: int,
)
    requires
        is_top(top, m, k),
        is_ranking(full, m),
    ensures
        top.len() <= full.len(),
        top == full.take(top.len() as int),
{
    lemma_top_agrees_up_to(top, full, m, k, top.len() as int);
    assert(top =~= full.take(top.len() as int));
}

/// The first `n` of the `k` most common entries are the first `n` of the
/// full ranking.
pub proof fn lemma_top_agrees_up_to<T: OrderedKey, N: Count>(
    top: Seq<(T, N)>,
    full: Seq<(T, N)>,
    m: Map<T, int>,
    k: int,
    n: int,
)
    requires
        is_top(top, m, k),
        is_ranking(full, m),
        0 <= n <= top.len(),
    ensures
        n <= full.len(),
        forall|i: int| 0 <= i < n ==> top[i] == full[i],
    decreases n,
{
    if n > 0 {
        lemma_top_agrees_up_to(top, full, m, k, n - 1);
        let i = n - 1;
        let place = lemma_listing_place(full, m, top[i]);
        if place < i {
            assert(top[place] == full[place]);
            assert(outranks(top[place], top[i]));
        }
        if place > i {
            let rival = full[i];
            assert(outranks(rival, full[place]));
            if names(top, rival.0) {
                let q = choose|q: int| 0 <= q < top.len() && (#[trigger] top[q]).0 == rival.0;
                lemma_entries_agree(top[q], rival, m);
                if q < i {
                    assert(top[q] == full[q]);
                    assert(outranks(full[q], full[i]));
                } else if q > i {
                    assert(outranks(top[i], top[q]));
                }
            } else {
                assert(m.contains_key(rival.0));
                assert(entry_of(top[i], m));
            }
        }
        assert(place == i);
    }
}

} // verus!
