use vstd::prelude::*;
use crate::order::{ask, settles, strongest_first, transitive};

verus! {

broadcast use vstd::seq_lib::group_to_multiset_ensures;

/// Merge two sequences that are sorted strongest first into one. Where the
/// test does not put the right element strictly first, the left one goes
/// first.
pub fn merge<E: Copy, C: Fn(&E, &E) -> bool>(
    left: &Vec<E>,
    right: &Vec<E>,
    better: &C,
    Ghost(below): Ghost<spec_fn(E, E) -> bool>,
) -> (out: Vec<E>)
    requires
        transitive(below),
        settles(better, below),
        strongest_first(left@, below),
        strongest_first(right@, below),
        left@.len() + right@.len() <= usize::MAX,
    ensures
        out@.len() == left@.len() + right@.len(),
        strongest_first(out@, below),
        out@.to_multiset() == left@.to_multiset().add(right@.to_multiset()),
{
    let mut out: Vec<E> = Vec::new();
    let mut i: usize = 0;
    let mut j: usize = 0;
    proof {
        assert(left@.take(0).to_multiset().add(right@.take(0).to_multiset()) =~= out@.to_multiset());
    }
    while i < left.len() || j < right.len()
        invariant
            transitive(below),
            settles(better, below),
            strongest_first(left@, below),
            strongest_first(right@, below),
            i <= left@.len(),
            j <= right@.len(),
            out@.len() == i + j,
            strongest_first(out@, below),
            out@.to_multiset() == left@.take(i as int).to_multiset().add(
                right@.take(j as int).to_multiset(),
            ),
            forall|a: int, b: int|
                0 <= a < out@.len() && i <= b < left@.len() ==> below(
                    #[trigger] left@[b],
                    #[trigger] out@[a],
                ),
            forall|a: int, b: int|
                0 <= a < out@.len() && j <= b < right@.len() ==> below(
                    #[trigger] right@[b],
                    #[trigger] out@[a],
                ),
        decreases left@.len() - i + right@.len() - j,
    {
        let ghost before = out@;
        let take_right = if i == left.len() {
            true
        } else if j == right.len() {
            false
        } else {
            ask(better, &right[j], &left[i], Ghost(below))
        };
        if take_right {
            let x = right[j];
            out.push(x);
            proof {
                assert(right@.take(j + 1) =~= right@.take(j as int).push(x));
                assert(out@.to_multiset() =~= left@.take(i as int).to_multiset().add(
                    right@.take(j + 1).to_multiset(),
                ));
                assert forall|a: int, b: int| 0 <= a < b < out@.len() implies below(
                    #[trigger] out@[b],
                    #[trigger] out@[a],
                ) by {
                    if b == before.len() {
                        assert(out@[a] == before[a]);
                        assert(below(right@[j as int], before[a]));
                    } else {
                        assert(below(before[b], before[a]));
                    }
                }
                assert forall|a: int, b: int|
                    0 <= a < out@.len() && i <= b < left@.len() implies below(
                    #[trigger] left@[b],
                    #[trigger] out@[a],
                ) by {
                    if a == before.len() {
                        assert(below(left@[i as int], x));
                        if b > i {
                            assert(below(left@[b], left@[i as int]));
                        }
                    } else {
                        assert(below(left@[b], before[a]));
                    }
                }
                assert forall|a: int, b: int|
                    0 <= a < out@.len() && j + 1 <= b < right@.len() implies below(
                    #[trigger] right@[b],
                    #[trigger] out@[a],
                ) by {
                    if a == before.len() {
                        assert(below(right@[b], right@[j as int]));
                    } else {
                        assert(below(right@[b], before[a]));
                    }
                }
            }
            j += 1;
        } else {
            let x = left[i];
            out.push(x);
            proof {
                assert(left@.take(i + 1) =~= left@.take(i as int).push(x));
                assert(out@.to_multiset() =~= left@.take(i + 1).to_multiset().add(
                    right@.take(j as int).to_multiset(),
                ));
                assert forall|a: int, b: int| 0 <= a < b < out@.len() implies below(
                    #[trigger] out@[b],
                    #[trigger] out@[a],
                ) by {
                    if b == before.len() {
                        assert(out@[a] == before[a]);
                        assert(below(left@[i as int], before[a]));
                    } else {
                        assert(below(before[b], before[a]));
                    }
                }
                assert forall|a: int, b: int|
                    0 <= a < out@.len() && j <= b < right@.len() implies below(
                    #[trigger] right@[b],
                    #[trigger] out@[a],
                ) by {
                    if a == before.len() {
                        assert(below(right@[j as int], x));
                        if b > j {
                            assert(below(right@[b], right@[j as int]));
                        }
                    } else {
                        assert(below(right@[b], before[a]));
                    }
                }
                assert forall|a: int, b: int|
                    0 <= a < out@.len() && i + 1 <= b < left@.len() implies below(
                    #[trigger] left@[b],
                    #[trigger] out@[a],
                ) by {
                    if a == before.len() {
                        assert(below(left@[b], left@[i as int]));
                    } else {
                        assert(below(left@[b], before[a]));
                    }
                }
            }
            i += 1;
        }
    }
    proof {
        assert(left@.take(i as int) =~= left@);
        assert(right@.take(j as int) =~= right@);
    }
    out
}

/// Sort a vector strongest first, by merging sorted halves. No pair of
/// elements is put to the test more than once.
pub fn merge_sort<E: Copy, C: Fn(&E, &E) -> bool>(
    v: Vec<E>,
    better: &C,
    Ghost(below): Ghost<spec_fn(E, E) -> bool>,
) -> (out: Vec<E>)
    requires
        transitive(below),
        settles(better, below),
    ensures
        out@.len() == v@.len(),
        strongest_first(out@, below),
        out@.to_multiset() == v@.to_multiset(),
    decreases v@.len(),
{
    let n = v.len();
    if n <= 1 {
        return v;
    }
    let mut left = v;
    let right = left.split_off(n / 2);
    proof {
        assert(v@ =~= left@ + right@);
        vstd::seq_lib::lemma_multiset_commutative(left@, right@);
    }
    let left = merge_sort(left, better, Ghost(below));
    let right = merge_sort(right, better, Ghost(below));
    merge(&left, &right, better, Ghost(below))
}

} // verus!
