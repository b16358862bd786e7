use vstd::prelude::*;

verus! {

/// The relation is transitive. Here and below, `below(p, c)` reads "`p` may
/// come after `c`": `p` is the weaker of the two, or they tie.
pub open spec fn transitive<E>(below: spec_fn(E, E) -> bool) -> bool {
    forall|a: E, b: E, c: E| #[trigger] below(a, b) && #[trigger] below(b, c) ==> below(a, c)
}

/// The executable test `better` settles every pair one way or the other: an
/// answer of `true` for `(a, b)` means `b` is below-or-equal `a`, an answer of
/// `false` that `a` is below-or-equal `b`.
pub open spec fn settles<E, C: Fn(&E, &E) -> bool>(better: &C, below: spec_fn(E, E) -> bool) -> bool {
    forall|a: E, b: E|
        #![trigger call_requires(*better, (&a, &b))]
        call_requires(*better, (&a, &b)) && forall|r: bool| #[trigger]
            call_ensures(*better, (&a, &b), r) ==> if r {
                below(b, a)
            } else {
                below(a, b)
            }
}

/// From the first element on, each element is below-or-equal all that come
/// before it: the strongest stands first.
pub open spec fn strongest_first<E>(s: Seq<E>, below: spec_fn(E, E) -> bool) -> bool {
    forall|i: int, j: int| 0 <= i < j < s.len() ==> below(#[trigger] s[j], #[trigger] s[i])
}

/// Put the test `better` to the pair `(a, b)`.
pub fn ask<E, C: Fn(&E, &E) -> bool>(
    better: &C,
    a: &E,
    b: &E,
    Ghost(below): Ghost<spec_fn(E, E) -> bool>,
) -> (r: bool)
    requires
        settles(better, below),
    ensures
        r ==> below(*b, *a),
        !r ==> below(*a, *b),
{
    assert(call_requires(*better, (a, b)));
    let r = better(a, b);
    assert(call_ensures(*better, (a, b), r));
    r
}

} // verus!
