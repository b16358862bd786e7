use vstd::prelude::*;
use crate::model::{entrywise, with_entry};

verus! {

/// As `entrywise`, but only the keys in `keys` have been combined; every
/// other key still has the entry that `a` holds for it.
pub open spec fn entrywise_on<T>(
    a: Map<T, int>,
    b: Map<T, int>,
    f: spec_fn(Option<int>, Option<int>) -> Option<int>,
    keys: Set<T>,
) -> Map<T, int> {
    Map::new(
        |k: T|
            if keys.contains(k) {
                f(a.get(k), b.get(k)) is Some
            } else {
                a.contains_key(k)
            },
        |k: T|
            if keys.contains(k) {
                f(a.get(k), b.get(k)).unwrap()
            } else {
                a[k]
            },
    )
}

/// Before any key has been combined the map is `a` itself.
pub proof fn lemma_entrywise_on_none<T>(
    a: Map<T, int>,
    b: Map<T, int>,
    f: spec_fn(Option<int>, Option<int>) -> Option<int>,
)
    ensures
        entrywise_on(a, b, f, Set::<T>::empty()) == a,
{
    assert(entrywise_on(a, b, f, Set::<T>::empty()) =~= a);
}

/// Combining one more key replaces that key's entry and no other.
pub proof fn lemma_entrywise_on_step<T>(
    a: Map<T, int>,
    b: Map<T, int>,
    f: spec_fn(Option<int>, Option<int>) -> Option<int>,
    keys: Set<T>,
    key: T,
)
    ensures
        entrywise_on(a, b, f, keys.insert(key)) == with_entry(
            entrywise_on(a, b, f, keys),
            key,
            f(a.get(key), b.get(key)),
        ),
{
    assert(entrywise_on(a, b, f, keys.insert(key)) =~= with_entry(
        entrywise_on(a, b, f, keys),
        key,
        f(a.get(key), b.get(key)),
    ));
}

/// Once every key that matters has been combined, the map is the entrywise
/// combination: a key outside `keys` must be one whose entry `f` leaves as
/// `a` has it.
pub proof fn lemma_entrywise_on_all<T>(
    a: Map<T, int>,
    b: Map<T, int>,
    f: spec_fn(Option<int>, Option<int>) -> Option<int>,
    keys: Set<T>,
)
    requires
        forall|k: T| !keys.contains(k) ==> #[trigger] f(a.get(k), b.get(k)) == a.get(k),
    ensures
        entrywise_on(a, b, f, keys) == entrywise(a, b, f),
{
    assert forall|k: T| #[trigger]
        entrywise_on(a, b, f, keys).contains_key(k) == entrywise(a, b, f).contains_key(k) by {
        if !keys.contains(k) {
            assert(f(a.get(k), b.get(k)) == a.get(k));
        }
    }
    assert forall|k: T| #[trigger]
        entrywise_on(a, b, f, keys).contains_key(k) implies entrywise_on(a, b, f, keys)[k]
        == entrywise(a, b, f)[k] by {
        if !keys.contains(k) {
            assert(f(a.get(k), b.get(k)) == a.get(k));
        }
    }
    assert(entrywise_on(a, b, f, keys) =~= entrywise(a, b, f));
}

/// As `entrywise`, but holding entries for the keys in `keys` only.
pub open spec fn entrywise_within<T>(
    a: Map<T, int>,
    b: Map<T, int>,
    f: spec_fn(Option<int>, Option<int>) -> Option<int>,
    keys: Set<T>,
) -> Map<T, int> {
    Map::new(
        |k: T| keys.contains(k) && f(a.get(k), b.get(k)) is Some,
        |k: T| f(a.get(k), b.get(k)).unwrap(),
    )
}

/// Within no keys at all the map is empty.
pub proof fn lemma_entrywise_within_none<T>(
    a: Map<T, int>,
    b: Map<T, int>,
    f: spec_fn(Option<int>, Option<int>) -> Option<int>,
)
    ensures
        entrywise_within(a, b, f, Set::<T>::empty()) == Map::<T, int>::empty(),
{
    assert(entrywise_within(a, b, f, Set::<T>::empty()) =~= Map::<T, int>::empty());
}

/// Admitting one more key, which was not admitted before, adds that key's
/// entry where `f` gives one.
pub proof fn lemma_entrywise_within_step<T>(
    a: Map<T, int>,
    b: Map<T, int>,
    f: spec_fn(Option<int>, Option<int>) -> Option<int>,
    keys: Set<T>,
    key: T,
)
    ensures
        entrywise_within(a, b, f, keys.insert(key)) == with_entry(
            entrywise_within(a, b, f, keys),
            key,
            f(a.get(key), b.get(key)),
        ),
{
    assert(entrywise_within(a, b, f, keys.insert(key)) =~= with_entry(
        entrywise_within(a, b, f, keys),
        key,
        f(a.get(key), b.get(key)),
    ));
}

/// Once every key to which `f` gives an entry is admitted, the map is the
/// entrywise combination.
pub proof fn lemma_entrywise_within_all<T>(
    a: Map<T, int>,
    b: Map<T, int>,
    f: spec_fn(Option<int>, Option<int>) -> Option<int>,
    keys: Set<T>,
)
    requires
        forall|k: T| !keys.contains(k) ==> #[trigger] f(a.get(k), b.get(k)) is None,
    ensures
        entrywise_within(a, b, f, keys) == entrywise(a, b, f),
{
    assert forall|k: T| #[trigger]
        entrywise_within(a, b, f, keys).contains_key(k) == entrywise(a, b, f).contains_key(k) by {
        if !keys.contains(k) {
            assert(f(a.get(k), b.get(k)) is None);
        }
    }
    assert(entrywise_within(a, b, f, keys) =~= entrywise(a, b, f));
}

/// The pairs of a sequence list the entries of a map: each entry once, and
/// nothing else.
pub open spec fn lists<T, N>(pairs: Seq<(&T, &N)>, m: Map<T, N>) -> bool {
    &&& pairs.no_duplicates()
    &&& pairs.len() == m.dom().len()
    &&& forall|i: int|
        0 <= i < pairs.len() ==> m.contains_key(*(#[trigger] pairs[i]).0) && m[*pairs[i].0]
            == *pairs[i].1
    &&& forall|k: T| #[trigger] m.contains_key(k) ==> pairs.contains((&k, &m[k]))
}

/// The keys of the first `n` pairs.
pub open spec fn keys_before<T, N>(pairs: Seq<(&T, &N)>, n: int) -> Set<T> {
    Set::new(|k: T| exists|j: int| 0 <= j < n && *(#[trigger] pairs[j]).0 == k)
}

/// The next pair of a listing holds an entry of the map whose key has not
/// come before.
pub proof fn lemma_listing_step<T, N>(pairs: Seq<(&T, &N)>, m: Map<T, N>, i: int)
    requires
        lists(pairs, m),
        0 <= i < pairs.len(),
    ensures
        m.contains_key(*pairs[i].0),
        m[*pairs[i].0] == *pairs[i].1,
        !keys_before(pairs, i).contains(*pairs[i].0),
        keys_before(pairs, i + 1) == keys_before(pairs, i).insert(*pairs[i].0),
{
    if keys_before(pairs, i).contains(*pairs[i].0) {
        let j = choose|j: int| 0 <= j < i && *(#[trigger] pairs[j]).0 == *pairs[i].0;
        assert(m[*pairs[j].0] == *pairs[j].1);
        assert(pairs[j] == pairs[i]);
    }
    assert forall|k: T|
        keys_before(pairs, i + 1).contains(k) <==> keys_before(pairs, i).insert(
            *pairs[i].0,
        ).contains(k) by {
        if keys_before(pairs, i + 1).contains(k) {
            let j = choose|j: int| 0 <= j < i + 1 && *(#[trigger] pairs[j]).0 == k;
            if j < i {
                assert(keys_before(pairs, i).contains(k));
            }
        }
        if keys_before(pairs, i).contains(k) {
            let j = choose|j: int| 0 <= j < i && *(#[trigger] pairs[j]).0 == k;
            assert(0 <= j < i + 1 && *pairs[j].0 == k);
        }
        if k == *pairs[i].0 {
            assert(0 <= i < i + 1 && *pairs[i].0 == k);
        }
    }
    assert(keys_before(pairs, i + 1) =~= keys_before(pairs, i).insert(*pairs[i].0));
}

/// The keys of a whole listing are the keys of the map.
pub proof fn lemma_listing_done<T, N>(pairs: Seq<(&T, &N)>, m: Map<T, N>)
    requires
        lists(pairs, m),
    ensures
        keys_before(pairs, pairs.len() as int) == m.dom(),
{
    assert forall|k: T| keys_before(pairs, pairs.len() as int).contains(k) <==> m.dom().contains(
        k,
    ) by {
        if m.contains_key(k) {
            let p = (&k, &m[k]);
            assert(pairs.contains(p));
            let j = choose|j: int| 0 <= j < pairs.len() && pairs[j] == p;
            assert(*pairs[j].0 == k);
        }
        if keys_before(pairs, pairs.len() as int).contains(k) {
            let j = choose|j: int| 0 <= j < pairs.len() && *(#[trigger] pairs[j]).0 == k;
            assert(m.contains_key(*pairs[j].0));
        }
    }
    assert(keys_before(pairs, pairs.len() as int) =~= m.dom());
}

/// The first `n` elements of a sequence, as a set.
pub open spec fn elements_before<T>(items: Seq<T>, n: int) -> Set<T> {
    Set::new(|k: T| exists|j: int| 0 <= j < n && #[trigger] items[j] == k)
}

} // verus!
