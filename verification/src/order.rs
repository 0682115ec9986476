//! The ordering a comparator imposes on pairs, seen through its contract.
//!
//! A sort caller hands in an executable comparator over `((&A, &B), (&A, &B))`.
//! All the verifier knows of it is which answers its contract permits, so the
//! sort's guarantee is stated against every at-or-before relation `leq` that
//! those answers decide: whatever total order the caller can show the
//! comparator decides, the sorted container is ordered by it.

use vstd::prelude::*;

verus! {

use core::cmp::Ordering;

/// The comparator accepts every pair of arguments.
pub open spec fn cmp_callable<A, B, F: Fn((&A, &B), (&A, &B)) -> Ordering>(f: F) -> bool {
    forall|x: (&A, &B), y: (&A, &B)| #[trigger] call_requires(f, (x, y))
}

/// The comparator decides `leq`: each answer its contract permits on `(x, y)`
/// carries in its sign whether `leq` holds of `(x, y)` — `Less` and `Equal`
/// say it does, `Greater` says it does not.
pub open spec fn cmp_decides<A, B, F: Fn((&A, &B), (&A, &B)) -> Ordering>(
    f: F,
    leq: spec_fn((A, B), (A, B)) -> bool,
) -> bool {
    forall|x: (A, B), y: (A, B), o: Ordering|
        #[trigger] call_ensures(f, ((&x.0, &x.1), (&y.0, &y.1)), o) ==> ((o != Ordering::Greater)
            <==> leq(x, y))
}

/// `leq` is a total order on pairs, as far as sorting needs one: any two
/// pairs are ordered one way or the other, and the order carries over chains.
pub open spec fn total_order_on_pairs<A, B>(leq: spec_fn((A, B), (A, B)) -> bool) -> bool {
    &&& forall|x: (A, B), y: (A, B)| #[trigger] leq(x, y) || #[trigger] leq(y, x)
    &&& forall|x: (A, B), y: (A, B), z: (A, B)|
        #[trigger] leq(x, y) && #[trigger] leq(y, z) ==> leq(x, z)
}

/// Every earlier position of `s` sorts at or before every later one.
pub open spec fn sorted_by<A, B>(leq: spec_fn((A, B), (A, B)) -> bool, s: Seq<(A, B)>) -> bool {
    forall|i: int, j: int| 0 <= i < j < s.len() ==> #[trigger] leq(s[i], s[j])
}

/// The first `n` positions of `s` are sorted by `leq`.
pub open spec fn sorted_prefix<A, B>(
    leq: spec_fn((A, B), (A, B)) -> bool,
    s: Seq<(A, B)>,
    n: int,
) -> bool {
    forall|i: int, j: int| 0 <= i < j < n && j < s.len() ==> #[trigger] leq(s[i], s[j])
}

/// Every pair of `out` sorts at or before every pair of `s` from position
/// `from` on.
pub open spec fn all_le_from<A, B>(
    leq: spec_fn((A, B), (A, B)) -> bool,
    out: Seq<(A, B)>,
    s: Seq<(A, B)>,
    from: int,
) -> bool {
    forall|oi: int, k: int|
        0 <= oi < out.len() && from <= k < s.len() ==> #[trigger] leq(out[oi], s[k])
}

/// Every position of `s` before `n` sorts at or before the pair `e`.
pub open spec fn all_before_le<A, B>(
    leq: spec_fn((A, B), (A, B)) -> bool,
    s: Seq<(A, B)>,
    n: int,
    e: (A, B),
) -> bool {
    forall|k: int| 0 <= k < n && k < s.len() ==> #[trigger] leq(s[k], e)
}

} // verus!
