//! The paired vector: two independently typed element columns of equal
//! length, indexed in lock-step, with its iterators.

use vstd::prelude::*;

verus! {

use core::cmp::Ordering;
use crate::order::{
    all_before_le, all_le_from, cmp_callable, cmp_decides, sorted_by, sorted_prefix,
    total_order_on_pairs,
};
use vstd::layout::size_of;
use vstd::multiset::Multiset;
use vstd::seq_lib::{lemma_multiset_commutative, to_multiset_insert, to_multiset_remove};

/// Longest sequence the in-place insertion path of `sort_by` handles; longer
/// ones spill into a scratch buffer for the merge sort.
const MAX_INSERTION: usize = 20;

/// Capacity floor the container grows to on its first allocation, by element
/// size class: many small pairs per growth step, few large ones.
pub open spec fn spec_min_non_zero_cap<A, B>() -> nat {
    if size_of::<(A, B)>() == 1 {
        8
    } else if size_of::<(A, B)>() <= 1024 {
        4
    } else {
        1
    }
}

/// Capacity reached by a growth that must make room for `required` pairs:
/// doubling (saturated at `usize::MAX`), floored by the size-class minimum and
/// by `required` itself.
pub open spec fn spec_grown_capacity<A, B>(required: nat, cap: nat) -> nat {
    let doubled: nat = if 2 * cap > usize::MAX {
        usize::MAX as nat
    } else {
        2 * cap
    };
    let floor: nat = spec_min_non_zero_cap::<A, B>();
    let base: nat = if floor > doubled {
        floor
    } else {
        doubled
    };
    if required > base {
        required
    } else {
        base
    }
}

/// Capacity after `reserve(additional)` on a container of `len` pairs and
/// capacity `cap`: unchanged when the spare room suffices, grown otherwise.
pub open spec fn spec_reserved_capacity<A, B>(len: nat, cap: nat, additional: nat) -> nat {
    if cap - len >= additional {
        cap
    } else {
        spec_grown_capacity::<A, B>(len + additional, cap)
    }
}

/// Array of pairs `(A, B)`, where the A-values and the B-values are stored as
/// two length-synchronized columns sharing one index space.
#[derive(Debug)]
pub struct Vec2<A, B> {
    pub(crate) aaa: Vec<A>,
    pub(crate) bbb: Vec<B>,
    pub(crate) cap: usize,
}

impl<A, B> View for Vec2<A, B> {
    type V = Seq<(A, B)>;

    closed spec fn view(&self) -> Seq<(A, B)> {
        Seq::new(self.aaa@.len(), |i: int| (self.aaa@[i], self.bbb@[i]))
    }
}

impl<A, B> Vec2<A, B> {
    /// Both columns hold one element per pair, and no more pairs than the
    /// tracked capacity.
    pub closed spec fn wf(self) -> bool {
        &&& self.aaa@.len() == self.bbb@.len()
        &&& self.aaa@.len() <= self.cap
    }

    /// The tracked capacity: how many pairs fit before the next growth.
    pub closed spec fn spec_capacity(self) -> nat {
        self.cap as nat
    }

    /// An empty container that owns no element storage.
    pub fn new() -> (v: Vec2<A, B>)
        ensures
            v.wf(),
            v@ == Seq::<(A, B)>::empty(),
            v.spec_capacity() == 0,
    {
        let v = Vec2 { aaa: Vec::new(), bbb: Vec::new(), cap: 0 };
        proof {
            assert(v@ =~= Seq::<(A, B)>::empty());
        }
        v
    }

    /// An empty container with element storage for `cap` pairs already in
    /// place.
    pub fn with_capacity(cap: usize) -> (v: Vec2<A, B>)
        ensures
            v.wf(),
            v@ == Seq::<(A, B)>::empty(),
            v.spec_capacity() == cap as nat,
    {
        let v = Vec2 { aaa: Vec::with_capacity(cap), bbb: Vec::with_capacity(cap), cap };
        proof {
            assert(v@ =~= Seq::<(A, B)>::empty());
        }
        v
    }

    /// Number of stored pairs.
    pub fn len(&self) -> (n: usize)
        ensures
            n == self@.len(),
    {
        self.aaa.len()
    }

    /// Number of pairs the container can hold before its next growth.
    pub fn capacity(&self) -> (n: usize)
        ensures
            n as nat == self.spec_capacity(),
    {
        self.cap
    }

    /// Whether no pair is stored.
    pub fn is_empty(&self) -> (b: bool)
        ensures
            b <==> self@.len() == 0,
    {
        self.aaa.is_empty()
    }

    /// Borrowed view of the whole B column. The columns are stored as two
    /// synchronized vectors, so the handle to the B storage is its slice.
    pub fn bbb_ptr(&self) -> (r: &[B])
        requires
            self.wf(),
        ensures
            r@.len() == self@.len(),
            forall|i: int| 0 <= i < r@.len() ==> r@[i] == self@[i].1,
    {
        self.bbb.as_slice()
    }

    /// Makes room for at least `additional` more pairs, growing by the
    /// doubling-with-floor policy when the spare room is short.
    pub fn reserve(&mut self, additional: usize)
        requires
            old(self).wf(),
            old(self)@.len() + additional <= usize::MAX,
        ensures
            final(self).wf(),
            final(self)@ == old(self)@,
            final(self).spec_capacity() == spec_reserved_capacity::<A, B>(
                old(self)@.len(),
                old(self).spec_capacity(),
                additional as nat,
            ),
            old(self)@.len() + additional <= final(self).spec_capacity(),
            old(self).spec_capacity() <= final(self).spec_capacity(),
    {
        let len = self.aaa.len();
        if self.cap - len < additional {
            let required = len + additional;
            let floor = min_non_zero_cap::<A, B>();
            let doubled = if self.cap > usize::MAX / 2 {
                usize::MAX
            } else {
                self.cap * 2
            };
            let mut new_cap = required;
            if floor > new_cap {
                new_cap = floor;
            }
            if doubled > new_cap {
                new_cap = doubled;
            }
            let add_a = new_cap - self.aaa.len();
            self.aaa.reserve(add_a);
            let add_b = new_cap - self.bbb.len();
            self.bbb.reserve(add_b);
            self.cap = new_cap;
        }
        proof {
            assert(self@ =~= old(self)@);
        }
    }

    /// Appends the pair `(a, b)` at the end, growing if the container is
    /// full; a push into spare room leaves the capacity untouched.
    pub fn push(&mut self, a: A, b: B)
        requires
            old(self).wf(),
            old(self)@.len() < usize::MAX,
        ensures
            final(self).wf(),
            final(self)@ == old(self)@.push((a, b)),
            final(self).spec_capacity() == spec_reserved_capacity::<A, B>(
                old(self)@.len(),
                old(self).spec_capacity(),
                1,
            ),
            old(self)@.len() < old(self).spec_capacity() ==> final(self).spec_capacity() == old(
                self,
            ).spec_capacity(),
    {
        self.reserve(1);
        self.aaa.push(a);
        self.bbb.push(b);
        proof {
            assert(self@ =~= old(self)@.push((a, b)));
        }
    }

    /// Borrows the pair at `index`, or nothing when `index` is past the end.
    pub fn get(&self, index: usize) -> (r: Option<(&A, &B)>)
        requires
            self.wf(),
        ensures
            index < self@.len() ==> (r matches Some(p) && *p.0 == self@[index as int].0 && *p.1
                == self@[index as int].1),
            index >= self@.len() ==> r is None,
    {
        if index < self.aaa.len() {
            let a = vstd::slice::slice_index_get(self.aaa.as_slice(), index);
            let b = vstd::slice::slice_index_get(self.bbb.as_slice(), index);
            Some((a, b))
        } else {
            None
        }
    }

    /// Removes and returns the pair at `index`; every pair behind it moves
    /// down one position in both columns.
    pub fn remove(&mut self, index: usize) -> (r: (A, B))
        requires
            old(self).wf(),
            index < old(self)@.len(),
        ensures
            final(self).wf(),
            r == old(self)@[index as int],
            final(self)@ == old(self)@.remove(index as int),
            final(self)@.len() == old(self)@.len() - 1,
            forall|k: int| 0 <= k < index ==> final(self)@[k] == old(self)@[k],
            forall|k: int|
                index <= k < final(self)@.len() ==> final(self)@[k] == old(self)@[k + 1],
            final(self).spec_capacity() == old(self).spec_capacity(),
    {
        let a = self.aaa.remove(index);
        let b = self.bbb.remove(index);
        proof {
            assert(self@ =~= old(self)@.remove(index as int));
        }
        (a, b)
    }

    /// Removes and returns the last pair, or nothing when the container is
    /// empty.
    pub fn pop(&mut self) -> (r: Option<(A, B)>)
        requires
            old(self).wf(),
        ensures
            final(self).wf(),
            old(self)@.len() == 0 ==> r is None && final(self)@ == old(self)@,
            old(self)@.len() > 0 ==> r == Some(old(self)@.last()) && final(self)@ == old(
                self,
            )@.drop_last(),
            final(self).spec_capacity() == old(self).spec_capacity(),
    {
        match self.aaa.pop() {
            Some(a) => match self.bbb.pop() {
                Some(b) => {
                    proof {
                        assert(self@ =~= old(self)@.drop_last());
                    }
                    Some((a, b))
                },
                None => vstd::pervasive::unreached(),
            },
            None => {
                proof {
                    assert(self@ =~= old(self)@);
                }
                None
            },
        }
    }

    /// Reorders all pairs in place by insertion: quadratic, free of extra
    /// allocation — the intended path for short sequences — and stable, in
    /// that pairs comparing equal keep their original relative order (each
    /// pair is inserted before the first strictly greater one, behind its
    /// equals). The contract below states the permutation and the ordering;
    /// stability is an implementation guarantee of this routine, recorded
    /// here and exercised by the tests.
    pub fn sort_insertion_by<F: Fn((&A, &B), (&A, &B)) -> Ordering>(&mut self, compare: F)
        requires
            old(self).wf(),
            cmp_callable::<A, B, F>(compare),
        ensures
            final(self).wf(),
            final(self)@.to_multiset() == old(self)@.to_multiset(),
            final(self)@.len() == old(self)@.len(),
            final(self).spec_capacity() == old(self).spec_capacity(),
            forall|leq: spec_fn((A, B), (A, B)) -> bool|
                #[trigger] cmp_decides::<A, B, F>(compare, leq) && total_order_on_pairs::<A, B>(
                    leq,
                ) ==> sorted_by::<A, B>(leq, final(self)@),
    {
        let ghost orig = self@;
        let len = self.aaa.len();
        let mut i: usize = 1;
        while i < len
            invariant
                self.wf(),
                cmp_callable::<A, B, F>(compare),
                len == self@.len(),
                self@.to_multiset() == orig.to_multiset(),
                self@.len() == orig.len(),
                self.spec_capacity() == old(self).spec_capacity(),
                1 <= i,
                len > 0 ==> i <= len,
                forall|leq: spec_fn((A, B), (A, B)) -> bool|
                    #[trigger] cmp_decides::<A, B, F>(compare, leq) && total_order_on_pairs::<
                        A,
                        B,
                    >(leq) ==> sorted_prefix::<A, B>(leq, self@, i as int),
            decreases len - i,
        {
            let ghost before = self@;
            // find the first position whose pair sorts after the pair at i
            let mut p: usize = 0;
            let mut scanning: bool = true;
            while scanning && p < i
                invariant
                    self.wf(),
                    cmp_callable::<A, B, F>(compare),
                    before == self@,
                    len == self@.len(),
                    0 <= p <= i < len,
                    forall|leq: spec_fn((A, B), (A, B)) -> bool|
                        #[trigger] cmp_decides::<A, B, F>(compare, leq) && total_order_on_pairs::<
                            A,
                            B,
                        >(leq) ==> all_before_le::<A, B>(leq, before, p as int, before[i as int]),
                    !scanning ==> forall|leq: spec_fn((A, B), (A, B)) -> bool|
                        #[trigger] cmp_decides::<A, B, F>(compare, leq) && total_order_on_pairs::<
                            A,
                            B,
                        >(leq) ==> leq(before[i as int], before[p as int]),
                decreases i - p + (if scanning {
                    1int
                } else {
                    0int
                }),
            {
                let xa = vstd::slice::slice_index_get(self.aaa.as_slice(), p);
                let xb = vstd::slice::slice_index_get(self.bbb.as_slice(), p);
                let ya = vstd::slice::slice_index_get(self.aaa.as_slice(), i);
                let yb = vstd::slice::slice_index_get(self.bbb.as_slice(), i);
                let verdict = compare((xa, xb), (ya, yb));
                proof {
                    let xp = before[p as int];
                    let xi = before[i as int];
                    assert(call_ensures(compare, ((&xp.0, &xp.1), (&xi.0, &xi.1)), verdict));
                }
                match verdict {
                    Ordering::Greater => {
                        proof {
                            let xp = before[p as int];
                            let xi = before[i as int];
                            assert forall|leq: spec_fn((A, B), (A, B)) -> bool|
                                #[trigger] cmp_decides::<A, B, F>(compare, leq)
                                    && total_order_on_pairs::<A, B>(leq) implies leq(
                                before[i as int],
                                before[p as int],
                            ) by {
                                assert(call_ensures(
                                    compare,
                                    ((&xp.0, &xp.1), (&xi.0, &xi.1)),
                                    Ordering::Greater,
                                ));
                                assert(!leq(xp, xi));
                            }
                        }
                        scanning = false;
                    },
                    _ => {
                        proof {
                            let xp = before[p as int];
                            let xi = before[i as int];
                            assert forall|leq: spec_fn((A, B), (A, B)) -> bool|
                                #[trigger] cmp_decides::<A, B, F>(compare, leq)
                                    && total_order_on_pairs::<A, B>(leq) implies all_before_le::<
                                A,
                                B,
                            >(leq, before, p + 1, before[i as int]) by {
                                assert(call_ensures(
                                    compare,
                                    ((&xp.0, &xp.1), (&xi.0, &xi.1)),
                                    verdict,
                                ));
                                assert(leq(xp, xi));
                                assert(all_before_le::<A, B>(leq, before, p as int, xi));
                            }
                        }
                        p = p + 1;
                    },
                }
            }
            // move the pair at i into position p; everything between shifts up
            let a = self.aaa.remove(i);
            let b = self.bbb.remove(i);
            proof {
                assert(self@ =~= before.remove(i as int));
            }
            self.aaa.insert(p, a);
            self.bbb.insert(p, b);
            proof {
                let e = before[i as int];
                let mid = before.remove(i as int);
                assert(self@ =~= mid.insert(p as int, e));
                to_multiset_remove(before, i as int);
                to_multiset_insert(mid, p as int, e);
                broadcast use vstd::multiset::group_multiset_axioms;

                before.to_multiset_ensures();
                assert(before.contains(e));
                assert(self@.to_multiset() =~= before.to_multiset());
                let cur = self@;
                assert forall|leq: spec_fn((A, B), (A, B)) -> bool|
                    #[trigger] cmp_decides::<A, B, F>(compare, leq) && total_order_on_pairs::<
                        A,
                        B,
                    >(leq) implies sorted_prefix::<A, B>(leq, cur, i + 1) by {
                    assert(sorted_prefix::<A, B>(leq, before, i as int));
                    assert(all_before_le::<A, B>(leq, before, p as int, e));
                    assert forall|k1: int, k2: int|
                        0 <= k1 < k2 < i + 1 && k2 < len implies leq(cur[k1], cur[k2]) by {
                        if k2 < p {
                            assert(cur[k1] == before[k1] && cur[k2] == before[k2]);
                            assert(leq(before[k1], before[k2]));
                        } else if k2 == p {
                            assert(cur[k1] == before[k1] && cur[k2] == e);
                            assert(leq(before[k1], e));
                        } else if k1 < p {
                            assert(cur[k1] == before[k1] && cur[k2] == before[k2 - 1]);
                            assert(k1 < k2 - 1);
                            assert(leq(before[k1], before[k2 - 1]));
                        } else if k1 == p {
                            assert(cur[k1] == e && cur[k2] == before[k2 - 1]);
                            assert(!scanning);
                            assert(leq(e, before[p as int]));
                            if k2 - 1 > p {
                                assert(leq(before[p as int], before[k2 - 1]));
                            }
                        } else {
                            assert(cur[k1] == before[k1 - 1] && cur[k2] == before[k2 - 1]);
                            assert(leq(before[k1 - 1], before[k2 - 1]));
                        }
                    }
                }
            }
            i = i + 1;
        }
        proof {
            if len == 0 {
                assert(self@ =~= orig);
            }
        }
    }

    /// Reorders all pairs by `compare`: short sequences in place through the
    /// no-allocation insertion path, longer ones drained into a scratch
    /// buffer, merge-sorted, and pushed back in order. On either path pairs
    /// that compare equal keep their original relative order, and the
    /// capacity stays as it was.
    pub fn sort_by<F: Fn((&A, &B), (&A, &B)) -> Ordering>(&mut self, compare: F)
        requires
            old(self).wf(),
            cmp_callable::<A, B, F>(compare),
        ensures
            final(self).wf(),
            final(self)@.to_multiset() == old(self)@.to_multiset(),
            final(self)@.len() == old(self)@.len(),
            final(self).spec_capacity() == old(self).spec_capacity(),
            forall|leq: spec_fn((A, B), (A, B)) -> bool|
                #[trigger] cmp_decides::<A, B, F>(compare, leq) && total_order_on_pairs::<A, B>(
                    leq,
                ) ==> sorted_by::<A, B>(leq, final(self)@),
    {
        if self.aaa.len() <= MAX_INSERTION {
            self.sort_insertion_by(compare);
            return ;
        }
        let ghost orig = self@;
        // drain the pairs, back to front, leaving both columns empty
        let mut drained_rev: Vec<(A, B)> = Vec::with_capacity(self.aaa.len());
        while self.aaa.len() > 0
            invariant
                self.wf(),
                self.spec_capacity() == old(self).spec_capacity(),
                self@ == orig.subrange(0, self@.len() as int),
                self@.len() + drained_rev@.len() == orig.len(),
                forall|k: int|
                    0 <= k < drained_rev@.len() ==> drained_rev@[k] == orig[orig.len() - 1 - k],
            decreases self@.len(),
        {
            match self.pop() {
                Some(p) => drained_rev.push(p),
                None => vstd::pervasive::unreached(),
            }
        }
        let pairs = reversed(drained_rev);
        proof {
            assert(pairs@ =~= orig);
        }
        let sorted_pairs = merge_sort_pairs(pairs, &compare);
        let ghost sseq = sorted_pairs@;
        // put the sorted pairs back, front first; the columns are empty and
        // still hold room for all of them, so no push grows
        let mut rebuild_rev = reversed(sorted_pairs);
        while rebuild_rev.len() > 0
            invariant
                self.wf(),
                self.spec_capacity() == old(self).spec_capacity(),
                sseq.len() == orig.len(),
                orig.len() <= old(self).spec_capacity(),
                self@.len() + rebuild_rev@.len() == sseq.len(),
                self@ == sseq.subrange(0, self@.len() as int),
                forall|k: int|
                    0 <= k < rebuild_rev@.len() ==> rebuild_rev@[k] == sseq[sseq.len() - 1 - k],
                sseq.to_multiset() == orig.to_multiset(),
                forall|leq: spec_fn((A, B), (A, B)) -> bool|
                    #[trigger] cmp_decides::<A, B, F>(compare, leq) && total_order_on_pairs::<
                        A,
                        B,
                    >(leq) ==> sorted_by::<A, B>(leq, sseq),
            decreases rebuild_rev@.len(),
        {
            match rebuild_rev.pop() {
                Some(p) => self.push(p.0, p.1),
                None => vstd::pervasive::unreached(),
            }
        }
        proof {
            assert(self@ =~= sseq);
        }
    }

    /// A fresh borrowing iterator over the pairs, in index order. It can be
    /// taken any number of times and never touches the container.
    pub fn iter(&self) -> (it: Iter<'_, A, B>)
        requires
            self.wf(),
        ensures
            it.wf(),
            it.remaining() == self@,
    {
        let it = Iter { vec: self, pos: 0 };
        proof {
            assert(it.remaining() =~= self@);
        }
        it
    }

    /// Hands the container's pairs to a consuming iterator that yields them
    /// owned, in index order.
    pub fn into_iter(self) -> (it: IntoIter<A, B>)
        requires
            self.wf(),
        ensures
            it.wf(),
            it@ == self@,
    {
        let ghost v = self@;
        let Vec2 { aaa, bbb, cap: _ } = self;
        let it = IntoIter { aaa_rev: reversed(aaa), bbb_rev: reversed(bbb) };
        proof {
            assert(it@ =~= v);
        }
        it
    }

    /// Drops every stored pair; the capacity stays as it was.
    pub fn clear(&mut self)
        requires
            old(self).wf(),
        ensures
            final(self).wf(),
            final(self)@ == Seq::<(A, B)>::empty(),
            final(self).spec_capacity() == old(self).spec_capacity(),
    {
        self.aaa.clear();
        self.bbb.clear();
        proof {
            assert(self@ =~= Seq::<(A, B)>::empty());
        }
    }
}

impl<A, B> Default for Vec2<A, B> {
    /// Same as `new`: empty, no element storage.
    fn default() -> (v: Vec2<A, B>)
        ensures
            v.wf(),
            v@ == Seq::<(A, B)>::empty(),
            v.spec_capacity() == 0,
    {
        Vec2::new()
    }
}

/// Borrowing iterator over a paired vector: yields `(&A, &B)` pairs in index
/// order without consuming or mutating the container.
pub struct Iter<'a, A, B> {
    pub(crate) vec: &'a Vec2<A, B>,
    pub(crate) pos: usize,
}

impl<'a, A, B> Iter<'a, A, B> {
    /// The pairs not yet produced, in the order they will come.
    pub closed spec fn remaining(self) -> Seq<(A, B)> {
        self.vec@.skip(self.pos as int)
    }

    pub closed spec fn wf(self) -> bool {
        &&& self.vec.wf()
        &&& self.pos <= self.vec@.len()
    }

    /// Borrows the next pair, or nothing once every pair has been produced.
    pub fn next(&mut self) -> (r: Option<(&'a A, &'a B)>)
        requires
            old(self).wf(),
        ensures
            final(self).wf(),
            old(self).remaining().len() == 0 ==> r is None && final(self).remaining() == old(
                self,
            ).remaining(),
            old(self).remaining().len() > 0 ==> (r matches Some(p) && *p.0 == old(
                self,
            ).remaining()[0].0 && *p.1 == old(self).remaining()[0].1 && final(self).remaining()
                == old(self).remaining().drop_first()),
    {
        if self.pos < self.vec.aaa.len() {
            let a = vstd::slice::slice_index_get(self.vec.aaa.as_slice(), self.pos);
            let b = vstd::slice::slice_index_get(self.vec.bbb.as_slice(), self.pos);
            self.pos = self.pos + 1;
            proof {
                assert(self.remaining() =~= old(self).remaining().drop_first());
            }
            Some((a, b))
        } else {
            None
        }
    }
}

/// Consuming iterator over a paired vector: owns both columns, stored in
/// reverse so that each step takes the next pair off the vector ends in
/// constant time, and yields owned `(A, B)` pairs in the container's index
/// order. Pairs it never yields are dropped with it.
pub struct IntoIter<A, B> {
    pub(crate) aaa_rev: Vec<A>,
    pub(crate) bbb_rev: Vec<B>,
}

impl<A, B> View for IntoIter<A, B> {
    type V = Seq<(A, B)>;

    closed spec fn view(&self) -> Seq<(A, B)> {
        Seq::new(
            self.aaa_rev@.len(),
            |i: int|
                (
                    self.aaa_rev@[self.aaa_rev@.len() - 1 - i],
                    self.bbb_rev@[self.bbb_rev@.len() - 1 - i],
                ),
        )
    }
}

impl<A, B> IntoIter<A, B> {
    pub closed spec fn wf(self) -> bool {
        self.aaa_rev@.len() == self.bbb_rev@.len()
    }

    /// Yields the next pair owned, or nothing once every pair has been
    /// yielded.
    pub fn next(&mut self) -> (r: Option<(A, B)>)
        requires
            old(self).wf(),
        ensures
            final(self).wf(),
            old(self)@.len() == 0 ==> r is None && final(self)@ == old(self)@,
            old(self)@.len() > 0 ==> r == Some(old(self)@[0]) && final(self)@ == old(
                self,
            )@.drop_first(),
    {
        match self.aaa_rev.pop() {
            Some(a) => match self.bbb_rev.pop() {
                Some(b) => {
                    proof {
                        assert(self@ =~= old(self)@.drop_first());
                    }
                    Some((a, b))
                },
                None => vstd::pervasive::unreached(),
            },
            None => {
                proof {
                    assert(self@ =~= old(self)@);
                }
                None
            },
        }
    }
}

impl<A: Clone, B: Clone> Clone for Vec2<A, B> {
    /// Clones column by column into a copy sized exactly for its pairs: the
    /// copy's capacity is the length, not the source's spare room. Each pair
    /// of the copy is a clone of the original pair at the same index.
    fn clone(&self) -> (r: Self)
        ensures
            r@.len() == self@.len(),
            forall|i: int|
                0 <= i < self@.len() ==> vstd::pervasive::cloned::<A>(
                    self@[i].0,
                    #[trigger] r@[i].0,
                ),
            self.wf() ==> forall|i: int|
                0 <= i < self@.len() ==> vstd::pervasive::cloned::<B>(
                    self@[i].1,
                    #[trigger] r@[i].1,
                ),
            self.wf() ==> r.wf(),
            r.spec_capacity() == self@.len(),
    {
        let len = self.aaa.len();
        Vec2 { aaa: self.aaa.clone(), bbb: self.bbb.clone(), cap: len }
    }
}

/// The view reached when, starting from an empty container, the pairs of `ps`
/// are appended by successive `push` calls, each of which appends its pair to
/// the view.
pub open spec fn view_of_pushes<A, B>(ps: Seq<(A, B)>) -> Seq<(A, B)>
    decreases ps.len(),
{
    if ps.len() == 0 {
        Seq::empty()
    } else {
        view_of_pushes::<A, B>(ps.drop_last()).push(ps.last())
    }
}

/// Law: after `n` pushes into a container that started empty, the length is
/// `n` and the pair at each index is exactly the pair pushed there — the view
/// is the pushed sequence itself, which is what `get` hands back index by
/// index.
pub proof fn lemma_pushes_build_exactly<A, B>(ps: Seq<(A, B)>)
    ensures
        view_of_pushes::<A, B>(ps) == ps,
        view_of_pushes::<A, B>(ps).len() == ps.len(),
        forall|i: int| 0 <= i < ps.len() ==> view_of_pushes::<A, B>(ps)[i] == ps[i],
    decreases ps.len(),
{
    if ps.len() == 0 {
        assert(view_of_pushes::<A, B>(ps) =~= ps);
    } else {
        lemma_pushes_build_exactly::<A, B>(ps.drop_last());
        assert(view_of_pushes::<A, B>(ps) =~= ps);
    }
}

/// Capacity after `n` further `push` calls on a container holding `len`
/// pairs with capacity `cap`, following push's capacity clause step by step.
pub open spec fn capacity_after_pushes<A, B>(n: nat, len: nat, cap: nat) -> nat
    decreases n,
{
    if n == 0 {
        cap
    } else {
        capacity_after_pushes::<A, B>(
            (n - 1) as nat,
            len + 1,
            spec_reserved_capacity::<A, B>(len, cap, 1),
        )
    }
}

/// Law: a container preallocated for `cap` pairs and holding `len` of them
/// keeps capacity `cap` through any run of `n <= cap - len` pushes; in
/// particular `with_capacity(cap)` followed by `cap` pushes never grows.
pub proof fn lemma_pushes_within_capacity<A, B>(n: nat, len: nat, cap: nat)
    requires
        len + n <= cap,
    ensures
        capacity_after_pushes::<A, B>(n, len, cap) == cap,
    decreases n,
{
    if n > 0 {
        lemma_pushes_within_capacity::<A, B>((n - 1) as nat, len + 1, cap);
    }
}

/// The pairs a consuming iterator yields when drained to exhaustion: each
/// `next` takes the front of the remaining view.
pub open spec fn drained<A, B>(s: Seq<(A, B)>) -> Seq<(A, B)>
    decreases s.len(),
{
    if s.len() == 0 {
        Seq::empty()
    } else {
        seq![s[0]] + drained::<A, B>(s.drop_first())
    }
}

/// Law: draining the consuming iterator yields the container's view in index
/// order — the same pairs, in the same order, that `get` returned at indices
/// `0..len` before the container was consumed.
pub proof fn lemma_drain_yields_view<A, B>(s: Seq<(A, B)>)
    ensures
        drained::<A, B>(s) == s,
    decreases s.len(),
{
    if s.len() == 0 {
        assert(drained::<A, B>(s) =~= s);
    } else {
        lemma_drain_yields_view::<A, B>(s.drop_first());
        assert(drained::<A, B>(s) =~= s);
    }
}

/// The vector's elements in reverse order: pops from the result hand back
/// the original front first, in constant time each.
fn reversed<T>(v: Vec<T>) -> (r: Vec<T>)
    ensures
        r@ == v@.reverse(),
{
    let ghost orig = v@;
    let mut v = v;
    let mut r: Vec<T> = Vec::with_capacity(v.len());
    while v.len() > 0
        invariant
            v@ == orig.subrange(0, v@.len() as int),
            r@.len() + v@.len() == orig.len(),
            forall|k: int| 0 <= k < r@.len() ==> r@[k] == orig[orig.len() - 1 - k],
        decreases v@.len(),
    {
        match v.pop() {
            Some(x) => r.push(x),
            None => vstd::pervasive::unreached(),
        }
    }
    proof {
        assert(r@ =~= orig.reverse());
    }
    r
}

/// Sorts a buffer of pairs by merging: the general-purpose comparison sort
/// behind `sort_by`'s long path. The result is ordered by every total order
/// the comparator decides, and merging takes from the left on ties, so pairs
/// that compare equal keep their relative order.
fn merge_sort_pairs<A, B, F: Fn((&A, &B), (&A, &B)) -> Ordering>(
    v: Vec<(A, B)>,
    compare: &F,
) -> (r: Vec<(A, B)>)
    requires
        cmp_callable::<A, B, F>(*compare),
    ensures
        r@.len() == v@.len(),
        r@.to_multiset() == v@.to_multiset(),
        forall|leq: spec_fn((A, B), (A, B)) -> bool|
            #[trigger] cmp_decides::<A, B, F>(*compare, leq) && total_order_on_pairs::<A, B>(leq)
                ==> sorted_by::<A, B>(leq, r@),
    decreases v@.len(),
{
    if v.len() <= 1 {
        v
    } else {
        let ghost whole = v@;
        let mut v = v;
        let mid = v.len() / 2;
        let right = v.split_off(mid);
        proof {
            assert(whole.subrange(0, mid as int) + whole.subrange(mid as int, whole.len() as int)
                =~= whole);
            lemma_multiset_commutative(
                whole.subrange(0, mid as int),
                whole.subrange(mid as int, whole.len() as int),
            );
        }
        let ls = merge_sort_pairs(v, compare);
        let rs = merge_sort_pairs(right, compare);
        let m = merge_pairs(ls, rs, compare);
        proof {
            broadcast use vstd::multiset::group_multiset_axioms;

            assert(m@.to_multiset() =~= whole.to_multiset());
        }
        m
    }
}

/// Merges two buffers, each sorted by every decided total order, into one.
/// Ties take the left pair first.
fn merge_pairs<A, B, F: Fn((&A, &B), (&A, &B)) -> Ordering>(
    left: Vec<(A, B)>,
    right: Vec<(A, B)>,
    compare: &F,
) -> (m: Vec<(A, B)>)
    requires
        cmp_callable::<A, B, F>(*compare),
        left@.len() + right@.len() <= usize::MAX,
        forall|leq: spec_fn((A, B), (A, B)) -> bool|
            #[trigger] cmp_decides::<A, B, F>(*compare, leq) && total_order_on_pairs::<A, B>(leq)
                ==> sorted_by::<A, B>(leq, left@) && sorted_by::<A, B>(leq, right@),
    ensures
        m@.len() == left@.len() + right@.len(),
        m@.to_multiset() == left@.to_multiset().add(right@.to_multiset()),
        forall|leq: spec_fn((A, B), (A, B)) -> bool|
            #[trigger] cmp_decides::<A, B, F>(*compare, leq) && total_order_on_pairs::<A, B>(leq)
                ==> sorted_by::<A, B>(leq, m@),
{
    let ghost lseq = left@;
    let ghost rseq = right@;
    let mut ls = reversed(left);
    let mut rs = reversed(right);
    let mut out: Vec<(A, B)> = Vec::with_capacity(ls.len() + rs.len());
    proof {
        broadcast use vstd::multiset::group_multiset_axioms;

        assert(lseq.subrange(0, 0) =~= Seq::<(A, B)>::empty());
        assert(rseq.subrange(0, 0) =~= Seq::<(A, B)>::empty());
        Seq::<(A, B)>::empty().to_multiset_ensures();
        assert(Seq::<(A, B)>::empty().to_multiset() =~= Multiset::<(A, B)>::empty());
        assert(out@.to_multiset() =~= lseq.subrange(0, 0).to_multiset().add(
            rseq.subrange(0, 0).to_multiset(),
        ));
    }
    while ls.len() > 0 || rs.len() > 0
        invariant
            cmp_callable::<A, B, F>(*compare),
            forall|leq: spec_fn((A, B), (A, B)) -> bool|
                #[trigger] cmp_decides::<A, B, F>(*compare, leq) && total_order_on_pairs::<A, B>(
                    leq,
                ) ==> sorted_by::<A, B>(leq, lseq) && sorted_by::<A, B>(leq, rseq),
            ls@.len() <= lseq.len(),
            rs@.len() <= rseq.len(),
            forall|k: int| 0 <= k < ls@.len() ==> ls@[k] == lseq[lseq.len() - 1 - k],
            forall|k: int| 0 <= k < rs@.len() ==> rs@[k] == rseq[rseq.len() - 1 - k],
            out@.len() + ls@.len() + rs@.len() == lseq.len() + rseq.len(),
            out@.to_multiset() == lseq.subrange(0, lseq.len() - ls@.len()).to_multiset().add(
                rseq.subrange(0, rseq.len() - rs@.len()).to_multiset(),
            ),
            forall|leq: spec_fn((A, B), (A, B)) -> bool|
                #[trigger] cmp_decides::<A, B, F>(*compare, leq) && total_order_on_pairs::<A, B>(
                    leq,
                ) ==> sorted_by::<A, B>(leq, out@) && all_le_from::<A, B>(
                    leq,
                    out@,
                    lseq,
                    lseq.len() - ls@.len(),
                ) && all_le_from::<A, B>(leq, out@, rseq, rseq.len() - rs@.len()),
        decreases ls@.len() + rs@.len(),
    {
        let ghost il = lseq.len() - ls@.len();
        let ghost ir = rseq.len() - rs@.len();
        let ghost out_old = out@;
        if ls.len() == 0 {
            // only right pairs remain
            match rs.pop() {
                Some(e) => {
                    proof {
                        lemma_merge_take_right::<A, B, F>(
                            *compare,
                            lseq,
                            rseq,
                            out_old,
                            il,
                            ir,
                            false,
                            vstd::pervasive::arbitrary(),
                        );
                    }
                    out.push(e);
                },
                None => vstd::pervasive::unreached(),
            }
        } else if rs.len() == 0 {
            // only left pairs remain
            match ls.pop() {
                Some(e) => {
                    proof {
                        lemma_merge_take_left::<A, B, F>(
                            *compare,
                            lseq,
                            rseq,
                            out_old,
                            il,
                            ir,
                            false,
                            vstd::pervasive::arbitrary(),
                        );
                    }
                    out.push(e);
                },
                None => vstd::pervasive::unreached(),
            }
        } else {
            let lf = vstd::slice::slice_index_get(ls.as_slice(), ls.len() - 1);
            let rf = vstd::slice::slice_index_get(rs.as_slice(), rs.len() - 1);
            let verdict = compare((&lf.0, &lf.1), (&rf.0, &rf.1));
            proof {
                let lp = lseq[il];
                let rp = rseq[ir];
                assert(call_ensures(*compare, ((&lp.0, &lp.1), (&rp.0, &rp.1)), verdict));
            }
            match verdict {
                Ordering::Greater => {
                    // the right pair sorts strictly before: it goes first
                    match rs.pop() {
                        Some(e) => {
                            proof {
                                lemma_merge_take_right::<A, B, F>(
                                    *compare,
                                    lseq,
                                    rseq,
                                    out_old,
                                    il,
                                    ir,
                                    true,
                                    verdict,
                                );
                            }
                            out.push(e);
                        },
                        None => vstd::pervasive::unreached(),
                    }
                },
                _ => {
                    // the left pair sorts at or before: ties keep their order
                    match ls.pop() {
                        Some(e) => {
                            proof {
                                lemma_merge_take_left::<A, B, F>(
                                    *compare,
                                    lseq,
                                    rseq,
                                    out_old,
                                    il,
                                    ir,
                                    true,
                                    verdict,
                                );
                            }
                            out.push(e);
                        },
                        None => vstd::pervasive::unreached(),
                    }
                },
            }
        }
    }
    proof {
        assert(lseq.subrange(0, lseq.len() as int) =~= lseq);
        assert(rseq.subrange(0, rseq.len() as int) =~= rseq);
    }
    out
}

/// One merge step that takes the left front `lseq[il]`: the merged prefix
/// stays sorted, stays at or before everything not yet taken, and its
/// multiset grows by exactly that pair. `compared` says whether the step
/// rests on a comparison with the right front (`verdict` at most `Equal`) or
/// on the right side being exhausted.
proof fn lemma_merge_take_left<A, B, F: Fn((&A, &B), (&A, &B)) -> Ordering>(
    f: F,
    lseq: Seq<(A, B)>,
    rseq: Seq<(A, B)>,
    out: Seq<(A, B)>,
    il: int,
    ir: int,
    compared: bool,
    verdict: Ordering,
)
    requires
        0 <= il < lseq.len(),
        0 <= ir <= rseq.len(),
        forall|leq: spec_fn((A, B), (A, B)) -> bool|
            #[trigger] cmp_decides::<A, B, F>(f, leq) && total_order_on_pairs::<A, B>(leq)
                ==> sorted_by::<A, B>(leq, lseq) && sorted_by::<A, B>(leq, rseq),
        forall|leq: spec_fn((A, B), (A, B)) -> bool|
            #[trigger] cmp_decides::<A, B, F>(f, leq) && total_order_on_pairs::<A, B>(leq)
                ==> sorted_by::<A, B>(leq, out) && all_le_from::<A, B>(leq, out, lseq, il)
                && all_le_from::<A, B>(leq, out, rseq, ir),
        out.to_multiset() == lseq.subrange(0, il).to_multiset().add(
            rseq.subrange(0, ir).to_multiset(),
        ),
        compared ==> ir < rseq.len() && call_ensures(
            f,
            ((&lseq[il].0, &lseq[il].1), (&rseq[ir].0, &rseq[ir].1)),
            verdict,
        ) && verdict != Ordering::Greater,
        !compared ==> ir == rseq.len(),
    ensures
        out.push(lseq[il]).to_multiset() == lseq.subrange(0, il + 1).to_multiset().add(
            rseq.subrange(0, ir).to_multiset(),
        ),
        forall|leq: spec_fn((A, B), (A, B)) -> bool|
            #[trigger] cmp_decides::<A, B, F>(f, leq) && total_order_on_pairs::<A, B>(leq)
                ==> sorted_by::<A, B>(leq, out.push(lseq[il])) && all_le_from::<A, B>(
                leq,
                out.push(lseq[il]),
                lseq,
                il + 1,
            ) && all_le_from::<A, B>(leq, out.push(lseq[il]), rseq, ir),
{
    let e = lseq[il];
    broadcast use vstd::multiset::group_multiset_axioms;

    assert(lseq.subrange(0, il + 1) =~= lseq.subrange(0, il).push(e));
    vstd::seq_lib::to_multiset_build(lseq.subrange(0, il), e);
    vstd::seq_lib::to_multiset_build(out, e);
    assert(out.push(e).to_multiset() =~= lseq.subrange(0, il + 1).to_multiset().add(
        rseq.subrange(0, ir).to_multiset(),
    ));
    assert forall|leq: spec_fn((A, B), (A, B)) -> bool|
        #[trigger] cmp_decides::<A, B, F>(f, leq) && total_order_on_pairs::<A, B>(
            leq,
        ) implies sorted_by::<A, B>(leq, out.push(e)) && all_le_from::<A, B>(
        leq,
        out.push(e),
        lseq,
        il + 1,
    ) && all_le_from::<A, B>(leq, out.push(e), rseq, ir) by {
        let new = out.push(e);
        if compared {
            assert(call_ensures(f, ((&e.0, &e.1), (&rseq[ir].0, &rseq[ir].1)), verdict));
            assert(leq(e, rseq[ir]));
        }
        assert forall|i: int, j: int| 0 <= i < j < new.len() implies leq(new[i], new[j]) by {
            if j == out.len() {
                assert(leq(out[i], lseq[il]));
            } else {
                assert(leq(out[i], out[j]));
            }
        }
        assert forall|oi: int, k: int|
            0 <= oi < new.len() && il + 1 <= k < lseq.len() implies leq(new[oi], lseq[k]) by {
            assert(leq(lseq[il], lseq[k]));
            if oi < out.len() {
                assert(leq(out[oi], lseq[il]));
            }
        }
        assert forall|oi: int, k: int|
            0 <= oi < new.len() && ir <= k < rseq.len() implies leq(new[oi], rseq[k]) by {
            if oi < out.len() {
                assert(leq(out[oi], rseq[k]));
            } else {
                assert(compared);
                assert(leq(e, rseq[ir]));
                if k > ir {
                    assert(leq(rseq[ir], rseq[k]));
                }
            }
        }
    }
}

/// One merge step that takes the right front `rseq[ir]`: the mirror of
/// `lemma_merge_take_left`. `compared` says whether the step rests on a
/// `Greater` verdict against the left front or on the left side being
/// exhausted.
proof fn lemma_merge_take_right<A, B, F: Fn((&A, &B), (&A, &B)) -> Ordering>(
    f: F,
    lseq: Seq<(A, B)>,
    rseq: Seq<(A, B)>,
    out: Seq<(A, B)>,
    il: int,
    ir: int,
    compared: bool,
    verdict: Ordering,
)
    requires
        0 <= il <= lseq.len(),
        0 <= ir < rseq.len(),
        forall|leq: spec_fn((A, B), (A, B)) -> bool|
            #[trigger] cmp_decides::<A, B, F>(f, leq) && total_order_on_pairs::<A, B>(leq)
                ==> sorted_by::<A, B>(leq, lseq) && sorted_by::<A, B>(leq, rseq),
        forall|leq: spec_fn((A, B), (A, B)) -> bool|
            #[trigger] cmp_decides::<A, B, F>(f, leq) && total_order_on_pairs::<A, B>(leq)
                ==> sorted_by::<A, B>(leq, out) && all_le_from::<A, B>(leq, out, lseq, il)
                && all_le_from::<A, B>(leq, out, rseq, ir),
        out.to_multiset() == lseq.subrange(0, il).to_multiset().add(
            rseq.subrange(0, ir).to_multiset(),
        ),
        compared ==> il < lseq.len() && call_ensures(
            f,
            ((&lseq[il].0, &lseq[il].1), (&rseq[ir].0, &rseq[ir].1)),
            verdict,
        ) && verdict == Ordering::Greater,
        !compared ==> il == lseq.len(),
    ensures
        out.push(rseq[ir]).to_multiset() == lseq.subrange(0, il).to_multiset().add(
            rseq.subrange(0, ir + 1).to_multiset(),
        ),
        forall|leq: spec_fn((A, B), (A, B)) -> bool|
            #[trigger] cmp_decides::<A, B, F>(f, leq) && total_order_on_pairs::<A, B>(leq)
                ==> sorted_by::<A, B>(leq, out.push(rseq[ir])) && all_le_from::<A, B>(
                leq,
                out.push(rseq[ir]),
                lseq,
                il,
            ) && all_le_from::<A, B>(leq, out.push(rseq[ir]), rseq, ir + 1),
{
    let e = rseq[ir];
    broadcast use vstd::multiset::group_multiset_axioms;

    assert(rseq.subrange(0, ir + 1) =~= rseq.subrange(0, ir).push(e));
    vstd::seq_lib::to_multiset_build(rseq.subrange(0, ir), e);
    vstd::seq_lib::to_multiset_build(out, e);
    assert(out.push(e).to_multiset() =~= lseq.subrange(0, il).to_multiset().add(
        rseq.subrange(0, ir + 1).to_multiset(),
    ));
    assert forall|leq: spec_fn((A, B), (A, B)) -> bool|
        #[trigger] cmp_decides::<A, B, F>(f, leq) && total_order_on_pairs::<A, B>(
            leq,
        ) implies sorted_by::<A, B>(leq, out.push(e)) && all_le_from::<A, B>(
        leq,
        out.push(e),
        lseq,
        il,
    ) && all_le_from::<A, B>(leq, out.push(e), rseq, ir + 1) by {
        let new = out.push(e);
        if compared {
            assert(call_ensures(f, ((&lseq[il].0, &lseq[il].1), (&e.0, &e.1)), verdict));
            assert(!leq(lseq[il], e));
            assert(leq(e, lseq[il]));
        }
        assert forall|i: int, j: int| 0 <= i < j < new.len() implies leq(new[i], new[j]) by {
            if j == out.len() {
                assert(leq(out[i], rseq[ir]));
            } else {
                assert(leq(out[i], out[j]));
            }
        }
        assert forall|oi: int, k: int|
            0 <= oi < new.len() && il <= k < lseq.len() implies leq(new[oi], lseq[k]) by {
            if oi < out.len() {
                assert(leq(out[oi], lseq[k]));
            } else {
                assert(compared);
                assert(leq(e, lseq[il]));
                if k > il {
                    assert(leq(lseq[il], lseq[k]));
                }
            }
        }
        assert forall|oi: int, k: int|
            0 <= oi < new.len() && ir + 1 <= k < rseq.len() implies leq(new[oi], rseq[k]) by {
            assert(leq(rseq[ir], rseq[k]));
            if oi < out.len() {
                assert(leq(out[oi], rseq[ir]));
            }
        }
    }
}

/// Capacity floor for the first allocation, chosen by the pair's size class.
fn min_non_zero_cap<A, B>() -> (r: usize)
    ensures
        r as nat == spec_min_non_zero_cap::<A, B>(),
{
    let size: usize = core::mem::size_of::<(A, B)>();
    if size == 1 {
        8
    } else if size <= 1024 {
        4
    } else {
        1
    }
}

} // verus!
