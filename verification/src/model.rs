use vstd::prelude::*;

verus! {

/// The count that `m` gives `key`: the stored one, or zero for an absent key.
pub open spec fn count_in<T>(m: Map<T, int>, key: T) -> int {
    if m.contains_key(key) {
        m[key]
    } else {
        0
    }
}

/// How often `key` occurs in `items`.
pub open spec fn occurrences<T>(items: Seq<T>, key: T) -> nat
    decreases items.len(),
{
    if items.len() == 0 {
        0
    } else {
        let rest = occurrences(items.drop_last(), key);
        if items.last() == key {
            rest + 1
        } else {
            rest
        }
    }
}

/// `m` after one occurrence has been added for each element of `items`:
/// every element has an entry, and each count has grown by the number of
/// times its key occurs.
pub open spec fn tallied<T>(m: Map<T, int>, items: Seq<T>) -> Map<T, int> {
    Map::new(
        |k: T| m.contains_key(k) || items.contains(k),
        |k: T| count_in(m, k) + occurrences(items, k),
    )
}

/// What becomes of an entry with count `c` once its key has been taken away
/// `times` times, one occurrence at a time: a positive count shrinks and the
/// entry leaves when it reaches zero, a stored zero leaves at the first
/// touch, and a negative count is left alone.
pub open spec fn taken_away(c: int, times: nat) -> Option<int> {
    if times == 0 || c < 0 {
        Some(c)
    } else if c > times {
        Some(c - times)
    } else {
        None
    }
}

/// `m` after one occurrence has been removed for each element of `items`.
/// Keys that `m` does not hold are ignored.
pub open spec fn deducted<T>(m: Map<T, int>, items: Seq<T>) -> Map<T, int> {
    Map::new(
        |k: T| m.contains_key(k) && taken_away(m[k], occurrences(items, k)) is Some,
        |k: T| taken_away(m[k], occurrences(items, k)).unwrap(),
    )
}

/// What taking one occurrence away makes of an entry: nothing where there is
/// no entry.
pub open spec fn one_less(entry: Option<int>) -> Option<int> {
    match entry {
        Some(c) => taken_away(c, 1),
        None => None,
    }
}

/// Appending one element raises that element's number of occurrences by one
/// and leaves every other key's unchanged.
pub proof fn lemma_occurrences_push<T>(items: Seq<T>, item: T, key: T)
    ensures
        occurrences(items.push(item), key) == occurrences(items, key) + if item == key {
            1nat
        } else {
            0nat
        },
{
    assert(items.push(item).drop_last() =~= items);
}

/// A key occurs in a sequence exactly when its number of occurrences is
/// positive.
pub proof fn lemma_occurrences_positive<T>(items: Seq<T>, key: T)
    ensures
        items.contains(key) <==> occurrences(items, key) > 0,
    decreases items.len(),
{
    if items.len() > 0 {
        let front = items.drop_last();
        lemma_occurrences_positive(front, key);
        if items.contains(key) {
            let i = choose|i: int| 0 <= i < items.len() && items[i] == key;
            if i < items.len() - 1 {
                assert(front[i] == key);
            }
        }
        if front.contains(key) {
            let i = choose|i: int| 0 <= i < front.len() && front[i] == key;
            assert(items[i] == key);
        }
    }
}

/// A key occurs in a concatenation as often as in both parts together.
pub proof fn lemma_occurrences_concat<T>(front: Seq<T>, back: Seq<T>, key: T)
    ensures
        occurrences(front + back, key) == occurrences(front, key) + occurrences(back, key),
    decreases back.len(),
{
    if back.len() == 0 {
        assert(front + back =~= front);
    } else {
        lemma_occurrences_concat(front, back.drop_last(), key);
        assert((front + back).drop_last() =~= front + back.drop_last());
    }
}

/// Tallying one more element adds one to that element's count.
pub proof fn lemma_tallied_push<T>(m: Map<T, int>, items: Seq<T>, item: T)
    ensures
        tallied(m, items.push(item)) == tallied(m, items).insert(
            item,
            count_in(tallied(m, items), item) + 1,
        ),
{
    let left = tallied(m, items.push(item));
    let right = tallied(m, items).insert(item, count_in(tallied(m, items), item) + 1);
    assert forall|k: T| left.contains_key(k) <==> right.contains_key(k) by {
        lemma_occurrences_positive(items.push(item), k);
        lemma_occurrences_positive(items, k);
        lemma_occurrences_push(items, item, k);
    }
    assert forall|k: T| left.contains_key(k) implies left[k] == right[k] by {
        lemma_occurrences_positive(items, k);
        lemma_occurrences_push(items, item, k);
    }
    assert(left =~= right);
}

/// Deducting one more element takes one occurrence away from that element's
/// entry and leaves every other entry as it is.
pub proof fn lemma_deducted_push<T>(m: Map<T, int>, items: Seq<T>, item: T)
    ensures
        deducted(m, items.push(item)) == with_entry(
            deducted(m, items),
            item,
            one_less(deducted(m, items).get(item)),
        ),
{
    let left = deducted(m, items.push(item));
    let right = with_entry(deducted(m, items), item, one_less(deducted(m, items).get(item)));
    assert forall|k: T| left.contains_key(k) <==> right.contains_key(k) by {
        lemma_occurrences_push(items, item, k);
    }
    assert forall|k: T| left.contains_key(k) implies left[k] == right[k] by {
        lemma_occurrences_push(items, item, k);
    }
    assert(left =~= right);
}

/// The map whose entry for each key is what `f` makes of the entries that
/// `a` and `b` hold for that key.
pub open spec fn entrywise<T>(
    a: Map<T, int>,
    b: Map<T, int>,
    f: spec_fn(Option<int>, Option<int>) -> Option<int>,
) -> Map<T, int> {
    Map::new(|k: T| f(a.get(k), b.get(k)) is Some, |k: T| f(a.get(k), b.get(k)).unwrap())
}

/// `m` with the entry of `key` replaced by `entry`: set where it is `Some`,
/// removed where it is `None`.
pub open spec fn with_entry<T>(m: Map<T, int>, key: T, entry: Option<int>) -> Map<T, int> {
    match entry {
        Some(c) => m.insert(key, c),
        None => m.remove(key),
    }
}

/// Whether some pair of `pairs` is for `key`.
pub open spec fn names<T, N>(pairs: Seq<(T, N)>, key: T) -> bool {
    exists|i: int| 0 <= i < pairs.len() && (#[trigger] pairs[i]).0 == key
}

} // verus!
