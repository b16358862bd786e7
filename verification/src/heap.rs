use vstd::prelude::*;
use crate::order::{ask, settles, strongest_first, transitive};

verus! {

broadcast use vstd::seq_lib::group_to_multiset_ensures;

/// Between `from` and `end`, every node stands above its children, except
/// perhaps the node `hole`.
pub open spec fn heap_but<E>(
    s: Seq<E>,
    from: int,
    end: int,
    hole: int,
    below: spec_fn(E, E) -> bool,
) -> bool {
    forall|p: int, c: int|
        #![trigger below(s[p], s[c])]
        from <= p && p != hole && p < c < end && (c == 2 * p + 1 || c == 2 * p + 2) ==> below(
            s[p],
            s[c],
        )
}

/// Between `from` and `end`, every node stands above its children.
pub open spec fn heap_from<E>(s: Seq<E>, from: int, end: int, below: spec_fn(E, E) -> bool) -> bool {
    heap_but(s, from, end, -1, below)
}

/// Each of the first `end` elements of `after` is one of the first `end`
/// elements of `before`.
pub open spec fn drawn_from<E>(after: Seq<E>, before: Seq<E>, end: int) -> bool {
    forall|i: int| 0 <= i < end ==> among(before, end, #[trigger] after[i])
}

/// `e` is one of the first `end` elements of `s`.
pub open spec fn among<E>(s: Seq<E>, end: int, e: E) -> bool {
    exists|k: int| 0 <= k < end && #[trigger] s[k] == e
}

/// A sequence is drawn from itself.
pub proof fn lemma_drawn_from_itself<E>(s: Seq<E>, end: int)
    ensures
        drawn_from(s, s, end),
{
    assert forall|i: int| 0 <= i < end implies among(s, end, #[trigger] s[i]) by {
        assert(0 <= i < end && s[i] == s[i]);
    }
}

/// In a heap the root is below-or-equal every node.
pub proof fn lemma_root_is_lowest<E>(s: Seq<E>, end: int, below: spec_fn(E, E) -> bool, i: int)
    requires
        transitive(below),
        heap_from(s, 0, end, below),
        0 < i < end <= s.len(),
    ensures
        below(s[0], s[i]),
    decreases i,
{
    let p = (i - 1) / 2;
    assert(i == 2 * p + 1 || i == 2 * p + 2);
    assert(below(s[p], s[i]));
    if p > 0 {
        lemma_root_is_lowest(s, end, below, p);
    }
}

/// Exchange two elements of a vector.
pub fn exchange<E: Copy>(v: &mut Vec<E>, i: usize, j: usize)
    requires
        i < old(v)@.len(),
        j < old(v)@.len(),
    ensures
        final(v)@ == old(v)@.update(i as int, old(v)@[j as int]).update(j as int, old(v)@[i as int]),
        final(v)@.to_multiset() == old(v)@.to_multiset(),
{
    let a = v[i];
    let b = v[j];
    v[i] = b;
    v[j] = a;
    proof {
        let s0 = old(v)@;
        let s1 = s0.update(i as int, b);
        vstd::seq_lib::to_multiset_update(s0, i as int, b);
        vstd::seq_lib::to_multiset_update(s1, j as int, a);
        assert(v@ =~= s1.update(j as int, a));
        if i == j {
            assert(s1.to_multiset() =~= s0.to_multiset());
            assert(v@.to_multiset() =~= s0.to_multiset());
        } else {
            assert(v@.to_multiset() =~= s0.to_multiset());
        }
    }
}

/// Let the element at `start` sink until it stands above its children,
/// within the first `end` elements.
pub fn sift_down<E: Copy, C: Fn(&E, &E) -> bool>(
    v: &mut Vec<E>,
    start: usize,
    end: usize,
    better: &C,
    Ghost(below): Ghost<spec_fn(E, E) -> bool>,
)
    requires
        transitive(below),
        settles(better, below),
        start < end <= old(v)@.len(),
        heap_from(old(v)@, start + 1, end as int, below),
    ensures
        final(v)@.len() == old(v)@.len(),
        heap_from(final(v)@, start as int, end as int, below),
        final(v)@.to_multiset() == old(v)@.to_multiset(),
        forall|i: int| 0 <= i < start || end <= i < old(v)@.len() ==> final(v)@[i] == old(v)@[i],
        drawn_from(final(v)@, old(v)@, end as int),
{
    let mut hole = start;
    proof {
        lemma_drawn_from_itself(v@, end as int);
    }
    while hole < end / 2
        invariant
            transitive(below),
            settles(better, below),
            start <= hole < end <= v@.len(),
            v@.len() == old(v)@.len(),
            heap_but(v@, start as int, end as int, hole as int, below),
            hole > start ==> forall|c: int|
                #![trigger v@[c]]
                hole < c < end && (c == 2 * hole + 1 || c == 2 * hole + 2) ==> below(
                    v@[(hole - 1) / 2],
                    v@[c],
                ),
            v@.to_multiset() == old(v)@.to_multiset(),
            forall|i: int| 0 <= i < start || end <= i < old(v)@.len() ==> v@[i] == old(v)@[i],
            drawn_from(v@, old(v)@, end as int),
        decreases end - hole,
    {
        let left = 2 * hole + 1;
        let right = left + 1;
        let mut child = left;
        if right < end {
            if ask(better, &v[left], &v[right], Ghost(below)) {
                child = right;
            }
        }
        let ghost other = if child == left {
            right as int
        } else {
            left as int
        };
        assert(other < end ==> below(v@[child as int], v@[other]));
        if !ask(better, &v[hole], &v[child], Ghost(below)) {
            proof {
                assert(below(v@[hole as int], v@[child as int]));
                if other < end {
                    assert(below(v@[hole as int], v@[other]));
                }
                assert(heap_from(v@, start as int, end as int, below));
            }
            return ;
        }
        let ghost before = v@;
        exchange(v, hole, child);
        proof {
            assert(below(v@[hole as int], v@[child as int]));
            assert forall|p: int, c: int|
                #![trigger below(v@[p], v@[c])]
                start <= p && p != child && p < c < end && (c == 2 * p + 1 || c == 2 * p + 2)
                    implies below(v@[p], v@[c]) by {
                if p == hole {
                    if c != child {
                        assert(c == other);
                    }
                } else if c == hole {
                    assert(p == (hole - 1) / 2);
                    assert(below(before[p], before[child as int]));
                } else {
                    assert(below(before[p], before[c]));
                }
            }
            assert forall|c: int|
                #![trigger v@[c]]
                child < c < end && (c == 2 * child + 1 || c == 2 * child + 2) implies below(
                v@[(child - 1) / 2],
                v@[c],
            ) by {
                assert((child - 1) / 2 == hole);
                assert(below(before[child as int], before[c]));
            }
        }
        proof {
            assert forall|i: int| 0 <= i < end implies among(
                old(v)@,
                end as int,
                #[trigger] v@[i],
            ) by {
                let source = if i == hole {
                    child as int
                } else if i == child {
                    hole as int
                } else {
                    i
                };
                assert(v@[i] == before[source]);
                assert(among(old(v)@, end as int, before[source]));
            }
        }
        hole = child;
    }
    proof {
        assert(heap_from(v@, start as int, end as int, below));
    }
}

/// Arrange a vector as a heap, with an element that is below-or-equal every
/// other at the root.
pub fn heapify<E: Copy, C: Fn(&E, &E) -> bool>(
    v: &mut Vec<E>,
    better: &C,
    Ghost(below): Ghost<spec_fn(E, E) -> bool>,
)
    requires
        transitive(below),
        settles(better, below),
    ensures
        final(v)@.len() == old(v)@.len(),
        heap_from(final(v)@, 0, final(v)@.len() as int, below),
        final(v)@.to_multiset() == old(v)@.to_multiset(),
{
    let n = v.len();
    let mut i = n / 2;
    while i > 0
        invariant
            transitive(below),
            settles(better, below),
            i <= n / 2,
            n == v@.len(),
            v@.len() == old(v)@.len(),
            heap_from(v@, i as int, n as int, below),
            v@.to_multiset() == old(v)@.to_multiset(),
        decreases i,
    {
        i -= 1;
        sift_down(v, i, n, better, Ghost(below));
    }
}

/// Sort a heap in place, strongest first.
pub fn sort_heap<E: Copy, C: Fn(&E, &E) -> bool>(
    v: &mut Vec<E>,
    better: &C,
    Ghost(below): Ghost<spec_fn(E, E) -> bool>,
)
    requires
        transitive(below),
        settles(better, below),
        heap_from(old(v)@, 0, old(v)@.len() as int, below),
    ensures
        final(v)@.len() == old(v)@.len(),
        strongest_first(final(v)@, below),
        final(v)@.to_multiset() == old(v)@.to_multiset(),
{
    let n = v.len();
    let mut end = n;
    while end > 1
        invariant
            transitive(below),
            settles(better, below),
            end <= n,
            n == v@.len(),
            v@.len() == old(v)@.len(),
            heap_from(v@, 0, end as int, below),
            v@.to_multiset() == old(v)@.to_multiset(),
            forall|i: int, j: int|
                end <= i < j < n ==> below(#[trigger] v@[j], #[trigger] v@[i]),
            forall|i: int, j: int|
                0 <= i < end <= j < n ==> below(#[trigger] v@[j], #[trigger] v@[i]),
        decreases end,
    {
        let ghost full = v@;
        end -= 1;
        proof {
            assert forall|i: int| 0 < i <= end implies below(full[0], #[trigger] full[i]) by {
                lemma_root_is_lowest(full, end + 1, below, i);
            }
        }
        exchange(v, 0, end);
        let ghost swapped = v@;
        proof {
            assert(heap_from(swapped, 1, end as int, below)) by {
                assert forall|p: int, c: int|
                    #![trigger below(swapped[p], swapped[c])]
                    1 <= p && p < c < end && (c == 2 * p + 1 || c == 2 * p + 2) implies below(
                    swapped[p],
                    swapped[c],
                ) by {
                    assert(below(full[p], full[c]));
                }
            }
            assert forall|i: int| 0 <= i < end implies below(swapped[end as int], #[trigger] swapped[i]) by {
                if i == 0 {
                    assert(swapped[0] == full[end as int]);
                    assert(below(full[0], full[end as int]));
                } else {
                    assert(swapped[i] == full[i]);
                }
            }
            assert forall|i: int, j: int| 0 <= i < end && end < j < n implies below(
                #[trigger] swapped[j],
                #[trigger] swapped[i],
            ) by {
                let source = if i == 0 {
                    end as int
                } else {
                    i
                };
                assert(swapped[i] == full[source]);
                assert(swapped[j] == full[j]);
                assert(below(full[j], full[source]));
            }
            assert forall|j: int| end < j < n implies below(
                #[trigger] swapped[j],
                swapped[end as int],
            ) by {
                assert(swapped[j] == full[j]);
                assert(below(full[j], full[0]));
            }
        }
        sift_down(v, 0, end, better, Ghost(below));
        proof {
            assert forall|i: int, j: int| 0 <= i < end <= j < n implies below(
                #[trigger] v@[j],
                #[trigger] v@[i],
            ) by {
                assert(among(swapped, end as int, v@[i]));
                let k = choose|k: int| 0 <= k < end && #[trigger] swapped[k] == v@[i];
                assert(v@[j] == swapped[j]);
                assert(below(swapped[j], swapped[k]));
            }
            assert forall|i: int, j: int| end <= i < j < n implies below(
                #[trigger] v@[j],
                #[trigger] v@[i],
            ) by {
                assert(v@[j] == swapped[j]);
                assert(v@[i] == swapped[i]);
            }
        }
    }
    proof {
        assert forall|i: int, j: int| 0 <= i < j < v@.len() implies below(
            #[trigger] v@[j],
            #[trigger] v@[i],
        ) by {
            if i < end {
                assert(end <= j);
            }
        }
    }
}

} // verus!
