//! Merging two streams on the union of their indices: the full union
//! combinator with tagged values, the intersecting union over the shared
//! range of two streams, and a sum-combining merge for scalar streams.

use vstd::prelude::*;
use crate::stream_defs::{
    key_passed, sorted_keys, seek_covers, advanced_to, has_key, IndexedStream, seek_fully,
    lemma_advance_refl, lemma_advance_uncons, lemma_advance_prepend, lemma_has_key_uncons,
};
use crate::zip_stream::lemma_sorted_drop_first;

verus! {

/// The tagged outcome of one union step: the key was present on the left,
/// on the right, or on both sides.
#[derive(Debug, Clone, PartialEq, Eq)]
pub enum EitherOrBoth<A, B> {
    Left(A),
    Right(B),
    Both(A, B),
}

impl<A, B> EitherOrBoth<A, B> {
    /// Apply `fa` to a left payload and `fb` to a right payload, keeping the
    /// tag.
    pub fn map<Oa, Ob, Fa: FnOnce(A) -> Oa, Fb: FnOnce(B) -> Ob>(self, fa: Fa, fb: Fb) -> (r:
        EitherOrBoth<Oa, Ob>)
        requires
            self matches EitherOrBoth::Left(a) ==> call_requires(fa, (a,)),
            self matches EitherOrBoth::Right(b) ==> call_requires(fb, (b,)),
            self matches EitherOrBoth::Both(a, b) ==> call_requires(fa, (a,)) && call_requires(
                fb,
                (b,),
            ),
        ensures
            self matches EitherOrBoth::Left(a) ==> (r matches EitherOrBoth::Left(ra)
                && call_ensures(fa, (a,), ra)),
            self matches EitherOrBoth::Right(b) ==> (r matches EitherOrBoth::Right(rb)
                && call_ensures(fb, (b,), rb)),
            self matches EitherOrBoth::Both(a, b) ==> (r matches EitherOrBoth::Both(ra, rb)
                && call_ensures(fa, (a,), ra) && call_ensures(fb, (b,), rb)),
    {
        match self {
            EitherOrBoth::Left(a) => EitherOrBoth::Left(fa(a)),
            EitherOrBoth::Right(b) => EitherOrBoth::Right(fb(b)),
            EitherOrBoth::Both(a, b) => EitherOrBoth::Both(fa(a), fb(b)),
        }
    }
}

/// The merge of two emission sequences on the union of their keys, each pair
/// tagged by the side (or sides) the key came from, in key order.
pub open spec fn merge_pairs<VL, VR>(a: Seq<(usize, VL)>, b: Seq<(usize, VR)>) -> Seq<
    (usize, EitherOrBoth<VL, VR>),
>
    decreases a.len() + b.len(),
{
    if a.len() == 0 && b.len() == 0 {
        Seq::empty()
    } else if b.len() == 0 || (a.len() > 0 && a[0].0 < b[0].0) {
        seq![(a[0].0, EitherOrBoth::Left(a[0].1))] + merge_pairs(a.drop_first(), b)
    } else if a.len() == 0 || b[0].0 < a[0].0 {
        seq![(b[0].0, EitherOrBoth::Right(b[0].1))] + merge_pairs(a, b.drop_first())
    } else {
        seq![(a[0].0, EitherOrBoth::Both(a[0].1, b[0].1))] + merge_pairs(
            a.drop_first(),
            b.drop_first(),
        )
    }
}

/// The merge of sorted sequences is sorted, and every merged key comes from
/// one of the two sides.
pub proof fn lemma_merge_props<VL, VR>(a: Seq<(usize, VL)>, b: Seq<(usize, VR)>)
    requires
        sorted_keys(a),
        sorted_keys(b),
    ensures
        sorted_keys(merge_pairs(a, b)),
        merge_pairs(a, b).len() >= a.len() && merge_pairs(a, b).len() >= b.len(),
        forall|k: int| 0 <= k < merge_pairs(a, b).len() ==> (exists|i: int|
            0 <= i < a.len() && (#[trigger] a[i]).0 == (#[trigger] merge_pairs(a, b)[k]).0)
            || (exists|j: int| 0 <= j < b.len() && (#[trigger] b[j]).0 == merge_pairs(a, b)[k].0),
    decreases a.len() + b.len(),
{
    let s = merge_pairs(a, b);
    if a.len() == 0 && b.len() == 0 {
    } else {
        let a_side = b.len() == 0 || (a.len() > 0 && a[0].0 < b[0].0);
        let b_side = !a_side && (a.len() == 0 || b[0].0 < a[0].0);
        let a1 = if a_side || (!a_side && !b_side) {
            a.drop_first()
        } else {
            a
        };
        let b1 = if b_side || (!a_side && !b_side) {
            b.drop_first()
        } else {
            b
        };
        let head_key: usize = if a_side || (!a_side && !b_side) {
            a[0].0
        } else {
            b[0].0
        };
        assert(sorted_keys(a1)) by {
            if a1.len() < a.len() {
                lemma_sorted_drop_first(a);
            }
        }
        assert(sorted_keys(b1)) by {
            if b1.len() < b.len() {
                lemma_sorted_drop_first(b);
            }
        }
        lemma_merge_props(a1, b1);
        let rest = merge_pairs(a1, b1);
        assert(s.len() == 1 + rest.len());
        assert forall|k: int| 0 <= k < s.len() implies (exists|i: int|
            0 <= i < a.len() && (#[trigger] a[i]).0 == (#[trigger] s[k]).0) || (exists|j: int|
            0 <= j < b.len() && (#[trigger] b[j]).0 == s[k].0) by {
            if k == 0 {
                if a_side || (!a_side && !b_side) {
                    assert(a[0].0 == s[0].0);
                } else {
                    assert(b[0].0 == s[0].0);
                }
            } else {
                assert(s[k] == rest[k - 1]);
                if exists|i: int| 0 <= i < a1.len() && (#[trigger] a1[i]).0 == rest[k - 1].0 {
                    let i0 = choose|i: int| 0 <= i < a1.len() && (#[trigger] a1[i]).0 == rest[k
                        - 1].0;
                    if a1.len() < a.len() {
                        assert(a[i0 + 1].0 == s[k].0);
                    } else {
                        assert(a[i0].0 == s[k].0);
                    }
                } else {
                    let j0 = choose|j: int| 0 <= j < b1.len() && (#[trigger] b1[j]).0 == rest[k
                        - 1].0;
                    if b1.len() < b.len() {
                        assert(b[j0 + 1].0 == s[k].0);
                    } else {
                        assert(b[j0].0 == s[k].0);
                    }
                }
            }
        }
        assert forall|i: int, j: int| 0 <= i < j < s.len() implies (#[trigger] s[i]).0
            < (#[trigger] s[j]).0 by {
            if i == 0 {
                // every key of the rest comes from past the head on its side
                assert(s[j] == rest[j - 1]);
                if exists|w: int| 0 <= w < a1.len() && (#[trigger] a1[w]).0 == rest[j - 1].0 {
                    let w = choose|w: int| 0 <= w < a1.len() && (#[trigger] a1[w]).0 == rest[j
                        - 1].0;
                    if a1.len() < a.len() {
                        assert(a[w + 1].0 == s[j].0);
                        assert(a[0].0 <= head_key);
                    } else {
                        assert(a[w].0 == s[j].0);
                        assert(head_key == b[0].0 && b[0].0 < a[0].0);
                    }
                } else {
                    let w = choose|w: int| 0 <= w < b1.len() && (#[trigger] b1[w]).0 == rest[j
                        - 1].0;
                    if b1.len() < b.len() {
                        assert(b[w + 1].0 == s[j].0);
                        assert(b[0].0 <= head_key);
                    } else {
                        assert(b[w].0 == s[j].0);
                        assert(b[0].0 > head_key || b.len() == 0);
                    }
                }
            } else {
                assert(s[i] == rest[i - 1]);
                assert(s[j] == rest[j - 1]);
            }
        }
    }
}

/// Seeking both sides of a merge to completion advances the merge: only
/// passed keys are dropped, and none remains on either side.
pub proof fn lemma_merge_advance<VL, VR>(
    a: Seq<(usize, VL)>,
    b: Seq<(usize, VR)>,
    a2: Seq<(usize, VL)>,
    b2: Seq<(usize, VR)>,
    target: usize,
    strict: bool,
)
    requires
        sorted_keys(a),
        sorted_keys(b),
        advanced_to(a2, a, target, strict),
        advanced_to(b2, b, target, strict),
        forall|k: int| 0 <= k < a2.len() ==> !key_passed((#[trigger] a2[k]).0, target, strict),
        forall|k: int| 0 <= k < b2.len() ==> !key_passed((#[trigger] b2[k]).0, target, strict),
    ensures
        advanced_to(merge_pairs(a2, b2), merge_pairs(a, b), target, strict),
    decreases a.len() + b.len(),
{
    let ma = merge_pairs(a, b);
    let m2 = merge_pairs(a2, b2);
    if a2.len() == a.len() && b2.len() == b.len() {
        assert(a2 == a.skip(0));
        assert(a.skip(0) =~= a);
        assert(b2 == b.skip(0));
        assert(b.skip(0) =~= b);
        lemma_advance_refl(ma, target, strict);
    } else if a2.len() < a.len() {
        lemma_advance_uncons(a2, a, target, strict);
        lemma_sorted_drop_first(a);
        if b.len() == 0 || a[0].0 < b[0].0 {
            let head = (a[0].0, EitherOrBoth::<VL, VR>::Left(a[0].1));
            assert(ma == seq![head] + merge_pairs(a.drop_first(), b));
            lemma_merge_advance(a.drop_first(), b, a2, b2, target, strict);
            lemma_advance_prepend(head, merge_pairs(a.drop_first(), b), m2, target, strict);
        } else if a[0].0 == b[0].0 {
            // the shared head key is passed, so the right side dropped it too
            assert(key_passed(b[0].0, target, strict));
            if b2.len() == b.len() {
                assert(b2 == b.skip(0));
                assert(b.skip(0) =~= b);
                assert(!key_passed(b2[0].0, target, strict));
                assert(false);
            }
            lemma_advance_uncons(b2, b, target, strict);
            lemma_sorted_drop_first(b);
            let head = (a[0].0, EitherOrBoth::<VL, VR>::Both(a[0].1, b[0].1));
            assert(ma == seq![head] + merge_pairs(a.drop_first(), b.drop_first()));
            lemma_merge_advance(a.drop_first(), b.drop_first(), a2, b2, target, strict);
            lemma_advance_prepend(
                head,
                merge_pairs(a.drop_first(), b.drop_first()),
                m2,
                target,
                strict,
            );
        } else {
            // the right head lies even before the dropped left head
            assert(key_passed(a[0].0, target, strict));
            assert(key_passed(b[0].0, target, strict));
            if b2.len() == b.len() {
                assert(b2 == b.skip(0));
                assert(b.skip(0) =~= b);
                assert(!key_passed(b2[0].0, target, strict));
                assert(false);
            }
            lemma_advance_uncons(b2, b, target, strict);
            lemma_sorted_drop_first(b);
            let head = (b[0].0, EitherOrBoth::<VL, VR>::Right(b[0].1));
            assert(ma == seq![head] + merge_pairs(a, b.drop_first()));
            lemma_merge_advance(a, b.drop_first(), a2, b2, target, strict);
            lemma_advance_prepend(head, merge_pairs(a, b.drop_first()), m2, target, strict);
        }
    } else {
        // only the right side dropped anything
        assert(a2 == a.skip(0));
        assert(a.skip(0) =~= a);
        lemma_advance_uncons(b2, b, target, strict);
        lemma_sorted_drop_first(b);
        assert(key_passed(b[0].0, target, strict));
        if a.len() == 0 || b[0].0 < a[0].0 {
            let head = (b[0].0, EitherOrBoth::<VL, VR>::Right(b[0].1));
            assert(ma == seq![head] + merge_pairs(a, b.drop_first()));
            lemma_merge_advance(a, b.drop_first(), a2, b2, target, strict);
            lemma_advance_prepend(head, merge_pairs(a, b.drop_first()), m2, target, strict);
        } else {
            // the left side would still hold a passed key: impossible
            assert(a[0].0 <= b[0].0);
            assert(key_passed(a[0].0, target, strict));
            assert(!key_passed(a2[0].0, target, strict));
            assert(false);
        }
    }
}

/// Merge two scalar streams, summing values where both sides share a key:
/// valid while either side is, with the smaller frontier as its index. It is
/// ready only when the two frontiers meet, so each operation forwards to
/// both children at once; drive it with the full union when single-sided
/// keys must be emitted as well.
pub struct AddStream<L, R> {
    pub left: L,
    pub right: R,
}

impl<L, R> AddStream<L, R> where L: IndexedStream<V = i64>, R: IndexedStream<V = i64> {
    /// Combine two scalar streams into their index-aligned sum.
    pub fn add(left: L, right: R) -> (r: Self)
        requires
            left.inv(),
            right.inv(),
        ensures
            r == (AddStream { left, right }),
    {
        AddStream { left, right }
    }

    /// Whether either side still has output.
    pub fn valid(&self) -> (r: bool)
        requires
            self.left.inv(),
            self.right.inv(),
        ensures
            r == (self.left.valid_spec() || self.right.valid_spec()),
    {
        self.left.valid() || self.right.valid()
    }

    /// Whether the two frontiers meet (or the surviving side is ready).
    pub fn ready(&self) -> (r: bool)
        requires
            self.left.inv(),
            self.right.inv(),
            self.left.valid_spec() || self.right.valid_spec(),
        ensures
            r == (if self.left.valid_spec() {
                if self.right.valid_spec() {
                    self.left.index_spec() == self.right.index_spec()
                } else {
                    self.left.ready_spec()
                }
            } else {
                self.right.ready_spec()
            }),
    {
        if self.left.valid() {
            if self.right.valid() {
                self.left.index() == self.right.index()
            } else {
                self.left.ready()
            }
        } else {
            self.right.ready()
        }
    }

    /// Forward the request to both children.
    pub fn seek(&mut self, target: usize, strict: bool)
        requires
            old(self).left.inv(),
            old(self).right.inv(),
            old(self).left.valid_spec(),
            old(self).right.valid_spec(),
        ensures
            final(self).left.inv(),
            final(self).right.inv(),
            advanced_to(
                final(self).left.remaining(),
                old(self).left.remaining(),
                target,
                strict,
            ),
            advanced_to(
                final(self).right.remaining(),
                old(self).right.remaining(),
                target,
                strict,
            ),
    {
        self.left.seek(target, strict);
        self.right.seek(target, strict);
    }

    /// The smaller of the two frontiers.
    pub fn index(&self) -> (r: usize)
        requires
            self.left.inv(),
            self.right.inv(),
            self.left.valid_spec(),
            self.right.valid_spec(),
        ensures
            r == (if self.left.index_spec() <= self.right.index_spec() {
                self.left.index_spec()
            } else {
                self.right.index_spec()
            }),
    {
        let li = self.left.index();
        let ri = self.right.index();
        if li <= ri {
            li
        } else {
            ri
        }
    }

    /// The wrapping sum of the two values at the shared frontier.
    pub fn value(&self) -> (r: i64)
        requires
            self.left.inv(),
            self.right.inv(),
            self.left.valid_spec(),
            self.right.valid_spec(),
            self.left.ready_spec(),
            self.right.ready_spec(),
        ensures
            r == self.left.value_spec().wrapping_add(self.right.value_spec()),
    {
        self.left.value().wrapping_add(self.right.value())
    }
}

/// The intersecting prefix of a union: valid only while both sides are, so
/// it emits the merged pairs up to the end of the shorter side. A full union
/// can be decomposed into this stream chained with the leftover tail of the
/// longer side.
#[derive(Debug, Clone)]
pub struct IntersectingUnionStream<L, R> {
    pub left: L,
    pub right: R,
}

impl<L: IndexedStream, R: IndexedStream> IntersectingUnionStream<L, R> {
    /// Merge two streams over their shared range.
    pub fn new(left: L, right: R) -> (r: Self)
        requires
            left.inv(),
            right.inv(),
        ensures
            r == (IntersectingUnionStream { left, right }),
    {
        IntersectingUnionStream { left, right }
    }

    /// Whether both sides still have output.
    pub fn valid(&self) -> (r: bool)
        requires
            self.left.inv(),
            self.right.inv(),
        ensures
            r == (self.left.valid_spec() && self.right.valid_spec()),
    {
        self.left.valid() && self.right.valid()
    }

    /// Whether every side standing at the smaller frontier is ready.
    pub fn ready(&self) -> (r: bool)
        requires
            self.left.inv(),
            self.right.inv(),
            self.left.valid_spec(),
            self.right.valid_spec(),
        ensures
            r == (if self.left.index_spec() < self.right.index_spec() {
                self.left.ready_spec()
            } else if self.right.index_spec() < self.left.index_spec() {
                self.right.ready_spec()
            } else {
                self.left.ready_spec() && self.right.ready_spec()
            }),
    {
        let li = self.left.index();
        let ri = self.right.index();
        if li < ri {
            self.left.ready()
        } else if ri < li {
            self.right.ready()
        } else {
            self.left.ready() && self.right.ready()
        }
    }

    /// Forward the request to both children.
    pub fn seek(&mut self, target: usize, strict: bool)
        requires
            old(self).left.inv(),
            old(self).right.inv(),
            old(self).left.valid_spec(),
            old(self).right.valid_spec(),
        ensures
            final(self).left.inv(),
            final(self).right.inv(),
            advanced_to(
                final(self).left.remaining(),
                old(self).left.remaining(),
                target,
                strict,
            ),
            advanced_to(
                final(self).right.remaining(),
                old(self).right.remaining(),
                target,
                strict,
            ),
    {
        self.left.seek(target, strict);
        self.right.seek(target, strict);
    }

    /// The smaller of the two frontiers.
    pub fn index(&self) -> (r: usize)
        requires
            self.left.inv(),
            self.right.inv(),
            self.left.valid_spec(),
            self.right.valid_spec(),
        ensures
            r == (if self.left.index_spec() <= self.right.index_spec() {
                self.left.index_spec()
            } else {
                self.right.index_spec()
            }),
    {
        let li = self.left.index();
        let ri = self.right.index();
        if li <= ri {
            li
        } else {
            ri
        }
    }

    /// The tagged value at the smaller frontier.
    pub fn value(&self) -> (r: EitherOrBoth<L::V, R::V>)
        requires
            self.left.inv(),
            self.right.inv(),
            self.left.valid_spec(),
            self.right.valid_spec(),
            self.left.index_spec() < self.right.index_spec() ==> self.left.ready_spec(),
            self.right.index_spec() < self.left.index_spec() ==> self.right.ready_spec(),
            self.left.index_spec() == self.right.index_spec() ==> self.left.ready_spec()
                && self.right.ready_spec(),
        ensures
            r == (if self.left.index_spec() < self.right.index_spec() {
                EitherOrBoth::<L::V, R::V>::Left(self.left.value_spec())
            } else if self.right.index_spec() < self.left.index_spec() {
                EitherOrBoth::<L::V, R::V>::Right(self.right.value_spec())
            } else {
                EitherOrBoth::<L::V, R::V>::Both(self.left.value_spec(), self.right.value_spec())
            }),
    {
        let li = self.left.index();
        let ri = self.right.index();
        if li < ri {
            EitherOrBoth::Left(self.left.value())
        } else if ri < li {
            EitherOrBoth::Right(self.right.value())
        } else {
            EitherOrBoth::Both(self.left.value(), self.right.value())
        }
    }
}

/// Merge two streams on the union of their indices: valid while either side
/// is, standing at the smaller frontier; ready when every side at that
/// frontier is ready; the value records which side(s) supplied the key.
#[derive(Debug, Clone)]
pub struct UnionStream<L, R> {
    pub left: L,
    pub right: R,
}

impl<L: IndexedStream, R: IndexedStream> UnionStream<L, R> {
    /// Merge two streams; the result's model is the tagged key-union of the
    /// children's models.
    pub fn new(left: L, right: R) -> (r: Self)
        requires
            left.inv(),
            right.inv(),
        ensures
            r == (UnionStream { left, right }),
            r.inv(),
            r.remaining() == merge_pairs(left.remaining(), right.remaining()),
    {
        UnionStream { left, right }
    }
}

/// Merge two streams on the union of their indices, tagging each emitted
/// value with the side(s) it came from.
pub fn union<L: IndexedStream, R: IndexedStream>(x: L, y: R) -> (r: UnionStream<L, R>)
    requires
        x.inv(),
        y.inv(),
    ensures
        r.inv(),
        r.remaining() == merge_pairs(x.remaining(), y.remaining()),
{
    UnionStream::new(x, y)
}

impl<L: IndexedStream, R: IndexedStream> IndexedStream for UnionStream<L, R> {
    type V = EitherOrBoth<L::V, R::V>;

    open spec fn inv(&self) -> bool {
        self.left.inv() && self.right.inv()
    }

    open spec fn remaining(&self) -> Seq<(usize, EitherOrBoth<L::V, R::V>)> {
        merge_pairs(self.left.remaining(), self.right.remaining())
    }

    open spec fn size(&self) -> nat {
        self.left.size() + self.right.size()
    }

    open spec fn valid_spec(&self) -> bool {
        self.left.valid_spec() || self.right.valid_spec()
    }

    open spec fn ready_spec(&self) -> bool {
        if self.left.valid_spec() && self.right.valid_spec() {
            if self.left.index_spec() < self.right.index_spec() {
                self.left.ready_spec()
            } else if self.right.index_spec() < self.left.index_spec() {
                self.right.ready_spec()
            } else {
                self.left.ready_spec() && self.right.ready_spec()
            }
        } else if self.left.valid_spec() {
            self.left.ready_spec()
        } else {
            self.right.ready_spec()
        }
    }

    open spec fn index_spec(&self) -> usize {
        if self.left.valid_spec() && self.right.valid_spec() {
            if self.left.index_spec() <= self.right.index_spec() {
                self.left.index_spec()
            } else {
                self.right.index_spec()
            }
        } else if self.left.valid_spec() {
            self.left.index_spec()
        } else {
            self.right.index_spec()
        }
    }

    open spec fn value_spec(&self) -> EitherOrBoth<L::V, R::V> {
        if self.left.valid_spec() && self.right.valid_spec() {
            if self.left.index_spec() < self.right.index_spec() {
                EitherOrBoth::Left(self.left.value_spec())
            } else if self.right.index_spec() < self.left.index_spec() {
                EitherOrBoth::Right(self.right.value_spec())
            } else {
                EitherOrBoth::Both(self.left.value_spec(), self.right.value_spec())
            }
        } else if self.left.valid_spec() {
            EitherOrBoth::Left(self.left.value_spec())
        } else {
            EitherOrBoth::Right(self.right.value_spec())
        }
    }

    proof fn lemma_inv(&self) {
        self.left.lemma_inv();
        self.right.lemma_inv();
        let a = self.left.remaining();
        let b = self.right.remaining();
        let s = merge_pairs(a, b);
        lemma_merge_props(a, b);
        if self.valid_spec() {
            assert forall|k: int| 0 <= k < s.len() implies (#[trigger] s[k]).0
                >= self.index_spec() by {
                if exists|i: int| 0 <= i < a.len() && (#[trigger] a[i]).0 == s[k].0 {
                    let i0 = choose|i: int| 0 <= i < a.len() && (#[trigger] a[i]).0 == s[k].0;
                    assert(a[i0].0 >= self.left.index_spec());
                } else {
                    let j0 = choose|j: int| 0 <= j < b.len() && (#[trigger] b[j]).0 == s[k].0;
                    assert(b[j0].0 >= self.right.index_spec());
                }
            }
        }
        if self.valid_spec() && self.ready_spec() {
            if self.left.valid_spec() && self.right.valid_spec() {
                let li = self.left.index_spec();
                let ri = self.right.index_spec();
                if li < ri {
                    assert(a[0] == (li, self.left.value_spec()));
                    if b.len() > 0 {
                        assert(b[0].0 >= ri);
                    }
                    assert(s[0] == (li, EitherOrBoth::<L::V, R::V>::Left(self.left.value_spec())));
                } else if ri < li {
                    assert(b[0] == (ri, self.right.value_spec()));
                    if a.len() > 0 {
                        assert(a[0].0 >= li);
                    }
                    assert(s[0] == (ri, EitherOrBoth::<L::V, R::V>::Right(
                        self.right.value_spec(),
                    )));
                } else {
                    assert(a[0] == (li, self.left.value_spec()));
                    assert(b[0] == (ri, self.right.value_spec()));
                    assert(s[0] == (li, EitherOrBoth::<L::V, R::V>::Both(
                        self.left.value_spec(),
                        self.right.value_spec(),
                    )));
                }
            } else if self.left.valid_spec() {
                assert(b.len() == 0);
                assert(a[0] == (self.left.index_spec(), self.left.value_spec()));
                assert(s[0] == (self.left.index_spec(), EitherOrBoth::<L::V, R::V>::Left(
                    self.left.value_spec(),
                )));
            } else {
                assert(a.len() == 0);
                assert(b[0] == (self.right.index_spec(), self.right.value_spec()));
                assert(s[0] == (self.right.index_spec(), EitherOrBoth::<L::V, R::V>::Right(
                    self.right.value_spec(),
                )));
            }
        }
    }

    fn valid(&self) -> bool {
        self.left.valid() || self.right.valid()
    }

    fn ready(&self) -> bool {
        if self.left.valid() && self.right.valid() {
            let li = self.left.index();
            let ri = self.right.index();
            if li < ri {
                self.left.ready()
            } else if ri < li {
                self.right.ready()
            } else {
                self.left.ready() && self.right.ready()
            }
        } else if self.left.valid() {
            self.left.ready()
        } else {
            self.right.ready()
        }
    }

    fn index(&self) -> usize {
        if self.left.valid() && self.right.valid() {
            let li = self.left.index();
            let ri = self.right.index();
            if li <= ri {
                li
            } else {
                ri
            }
        } else if self.left.valid() {
            self.left.index()
        } else {
            self.right.index()
        }
    }

    fn value(&self) -> EitherOrBoth<L::V, R::V> {
        if self.left.valid() && self.right.valid() {
            let li = self.left.index();
            let ri = self.right.index();
            if li < ri {
                EitherOrBoth::Left(self.left.value())
            } else if ri < li {
                EitherOrBoth::Right(self.right.value())
            } else {
                EitherOrBoth::Both(self.left.value(), self.right.value())
            }
        } else if self.left.valid() {
            EitherOrBoth::Left(self.left.value())
        } else {
            EitherOrBoth::Right(self.right.value())
        }
    }

    #[verifier::rlimit(60)]
    fn seek(&mut self, target: usize, strict: bool) {
        proof {
            old(self).left.lemma_inv();
            old(self).right.lemma_inv();
        }
        // forward the request to every valid side, driving each until the
        // request is exhausted: both sides then agree on which keys are gone,
        // so the tagging of the merged model is unambiguous
        if self.left.valid() {
            seek_fully(&mut self.left, target, strict);
        }
        if self.right.valid() {
            seek_fully(&mut self.right, target, strict);
        }
        proof {
            let pre = *old(self);
            let a = pre.left.remaining();
            let b = pre.right.remaining();
            let a2 = self.left.remaining();
            let b2 = self.right.remaining();
            if !pre.left.valid_spec() {
                assert(a.len() == 0);
                lemma_advance_refl(a, target, strict);
            }
            if !pre.right.valid_spec() {
                assert(b.len() == 0);
                lemma_advance_refl(b, target, strict);
            }
            lemma_merge_advance(a, b, a2, b2, target, strict);
            if seek_covers(target, strict, pre.index_spec(), pre.ready_spec()) {
                // some valid side at the frontier is covered by the request
                if pre.left.valid_spec() && pre.right.valid_spec() {
                    let li = pre.left.index_spec();
                    let ri = pre.right.index_spec();
                    if li < ri {
                        assert(seek_covers(target, strict, li, pre.left.ready_spec()));
                    } else if ri < li {
                        assert(seek_covers(target, strict, ri, pre.right.ready_spec()));
                    } else {
                        if li < target || (li == target && strict) {
                            assert(seek_covers(target, strict, li, pre.left.ready_spec()));
                        } else {
                            assert(!pre.left.ready_spec() || !pre.right.ready_spec());
                        }
                    }
                }
            }
            if strict && pre.ready_spec() && target == pre.index_spec() {
                if pre.left.valid_spec() && pre.right.valid_spec() {
                    let li = pre.left.index_spec();
                    let ri = pre.right.index_spec();
                    if li < ri {
                        assert(a2 == a.drop_first());
                        assert(a[0] == (li, pre.left.value_spec()));
                        let d = b.len() - b2.len();
                        if d > 0 {
                            assert(key_passed(b[0].0, target, strict));
                            assert(b[0].0 >= ri);
                            assert(false);
                        }
                        assert(b2 == b.skip(0));
                        assert(b.skip(0) =~= b);
                        if b.len() > 0 {
                            assert(b[0].0 >= ri);
                        }
                        let head = (a[0].0, EitherOrBoth::<L::V, R::V>::Left(a[0].1));
                        assert(merge_pairs(a, b) == seq![head] + merge_pairs(a.drop_first(), b));
                        assert((seq![head] + merge_pairs(a.drop_first(), b)).drop_first()
                            =~= merge_pairs(a.drop_first(), b));
                    } else if ri < li {
                        assert(b2 == b.drop_first());
                        assert(b[0] == (ri, pre.right.value_spec()));
                        let d = a.len() - a2.len();
                        if d > 0 {
                            assert(key_passed(a[0].0, target, strict));
                            assert(a[0].0 >= li);
                            assert(false);
                        }
                        assert(a2 == a.skip(0));
                        assert(a.skip(0) =~= a);
                        if a.len() > 0 {
                            assert(a[0].0 >= li);
                        }
                        let head = (b[0].0, EitherOrBoth::<L::V, R::V>::Right(b[0].1));
                        assert(merge_pairs(a, b) == seq![head] + merge_pairs(a, b.drop_first()));
                        assert((seq![head] + merge_pairs(a, b.drop_first())).drop_first()
                            =~= merge_pairs(a, b.drop_first()));
                    } else {
                        assert(a2 == a.drop_first());
                        assert(b2 == b.drop_first());
                        assert(a[0] == (li, pre.left.value_spec()));
                        assert(b[0] == (ri, pre.right.value_spec()));
                        let head = (a[0].0, EitherOrBoth::<L::V, R::V>::Both(a[0].1, b[0].1));
                        assert(merge_pairs(a, b) == seq![head] + merge_pairs(
                            a.drop_first(),
                            b.drop_first(),
                        ));
                        assert((seq![head] + merge_pairs(a.drop_first(), b.drop_first()))
                            .drop_first() =~= merge_pairs(a.drop_first(), b.drop_first()));
                    }
                } else if pre.left.valid_spec() {
                    assert(b.len() == 0 && b2.len() == 0);
                    assert(a2 == a.drop_first());
                    assert(a[0] == (pre.left.index_spec(), pre.left.value_spec()));
                    let head = (a[0].0, EitherOrBoth::<L::V, R::V>::Left(a[0].1));
                    assert(merge_pairs(a, b) == seq![head] + merge_pairs(a.drop_first(), b));
                    assert((seq![head] + merge_pairs(a.drop_first(), b)).drop_first()
                        =~= merge_pairs(a.drop_first(), b));
                } else {
                    assert(a.len() == 0 && a2.len() == 0);
                    assert(b2 == b.drop_first());
                    assert(b[0] == (pre.right.index_spec(), pre.right.value_spec()));
                    let head = (b[0].0, EitherOrBoth::<L::V, R::V>::Right(b[0].1));
                    assert(merge_pairs(a, b) == seq![head] + merge_pairs(a, b.drop_first()));
                    assert((seq![head] + merge_pairs(a, b.drop_first())).drop_first()
                        =~= merge_pairs(a, b.drop_first()));
                }
            }
        }
    }
}

/// Union completeness: the merged key sequence is the sorted union of the
/// two key sets, and every emitted value is tagged correctly: `Both` exactly
/// where the key occurs on both sides, `Left`/`Right` exactly where only one
/// side holds it, each payload taken from its own side at that key.
pub proof fn lemma_merge_tags<VL, VR>(a: Seq<(usize, VL)>, b: Seq<(usize, VR)>)
    requires
        sorted_keys(a),
        sorted_keys(b),
    ensures
        forall|i: int| #[trigger] has_key(merge_pairs(a, b), i) <==> has_key(a, i) || has_key(b, i),
        forall|k: int|
            0 <= k < merge_pairs(a, b).len() ==> (((#[trigger] merge_pairs(a, b)[k]).1 is Both)
                <==> has_key(a, merge_pairs(a, b)[k].0 as int) && has_key(
                b,
                merge_pairs(a, b)[k].0 as int,
            )),
        forall|k: int|
            0 <= k < merge_pairs(a, b).len() ==> (((#[trigger] merge_pairs(a, b)[k]).1 is Left)
                <==> has_key(a, merge_pairs(a, b)[k].0 as int) && !has_key(
                b,
                merge_pairs(a, b)[k].0 as int,
            )),
        forall|k: int|
            0 <= k < merge_pairs(a, b).len() ==> (((#[trigger] merge_pairs(a, b)[k]).1 is Right)
                <==> !has_key(a, merge_pairs(a, b)[k].0 as int) && has_key(
                b,
                merge_pairs(a, b)[k].0 as int,
            )),
    decreases a.len() + b.len(),
{
    let s = merge_pairs(a, b);
    lemma_merge_props(a, b);
    if a.len() == 0 && b.len() == 0 {
    } else {
        let a_side = b.len() == 0 || (a.len() > 0 && a[0].0 < b[0].0);
        let b_side = !a_side && (a.len() == 0 || b[0].0 < a[0].0);
        let a1 = if a_side || (!a_side && !b_side) {
            a.drop_first()
        } else {
            a
        };
        let b1 = if b_side || (!a_side && !b_side) {
            b.drop_first()
        } else {
            b
        };
        assert(sorted_keys(a1)) by {
            if a1.len() < a.len() {
                lemma_sorted_drop_first(a);
            }
        }
        assert(sorted_keys(b1)) by {
            if b1.len() < b.len() {
                lemma_sorted_drop_first(b);
            }
        }
        lemma_merge_tags(a1, b1);
        let rest = merge_pairs(a1, b1);
        let h = s[0];
        // the head key is the minimum; every key of the rest lies past it
        assert(forall|k: int| 1 <= k < s.len() ==> (#[trigger] s[k]).0 > h.0);
        assert(forall|k: int| 1 <= k < s.len() ==> s[k] == rest[k - 1]);
        assert(s.drop_first() =~= rest);
        assert forall|i: int| #[trigger] has_key(s, i) <==> has_key(a, i) || has_key(b, i) by {
            lemma_has_key_uncons(s, i);
            assert(has_key(rest, i) <==> has_key(a1, i) || has_key(b1, i));
            if i == h.0 {
                assert(s[0].0 == i);
                if a_side || (!a_side && !b_side) {
                    assert(a[0].0 == i);
                } else {
                    assert(b[0].0 == i);
                }
            } else {
                if a1.len() < a.len() {
                    lemma_has_key_uncons(a, i);
                }
                if b1.len() < b.len() {
                    lemma_has_key_uncons(b, i);
                }
            }
        }
        assert forall|k: int| 0 <= k < s.len() implies {
            &&& (((#[trigger] s[k]).1 is Both) <==> has_key(a, s[k].0 as int) && has_key(
                b,
                s[k].0 as int,
            ))
            &&& ((s[k].1 is Left) <==> has_key(a, s[k].0 as int) && !has_key(b, s[k].0 as int))
            &&& ((s[k].1 is Right) <==> !has_key(a, s[k].0 as int) && has_key(b, s[k].0 as int))
        } by {
            if k == 0 {
                if a_side {
                    assert(h == (a[0].0, EitherOrBoth::<VL, VR>::Left(a[0].1)));
                    assert(has_key(a, h.0 as int));
                    if has_key(b, h.0 as int) {
                        let w = choose|w: int| 0 <= w < b.len() && (#[trigger] b[w]).0 == h.0;
                        assert(b[0].0 <= b[w].0);
                        assert(false);
                    }
                } else if b_side {
                    assert(h == (b[0].0, EitherOrBoth::<VL, VR>::Right(b[0].1)));
                    assert(has_key(b, h.0 as int));
                    if has_key(a, h.0 as int) {
                        let w = choose|w: int| 0 <= w < a.len() && (#[trigger] a[w]).0 == h.0;
                        assert(a[0].0 <= a[w].0);
                        assert(false);
                    }
                } else {
                    assert(h == (a[0].0, EitherOrBoth::<VL, VR>::Both(a[0].1, b[0].1)));
                    assert(has_key(a, h.0 as int));
                    assert(has_key(b, h.0 as int));
                }
            } else {
                let key = s[k].0 as int;
                assert(s[k] == rest[k - 1]);
                assert(key != h.0);
                if a1.len() < a.len() {
                    lemma_has_key_uncons(a, key);
                    assert(a[0].0 == h.0 || (!a_side && !b_side));
                }
                if b1.len() < b.len() {
                    lemma_has_key_uncons(b, key);
                }
                assert(has_key(a, key) <==> has_key(a1, key));
                assert(has_key(b, key) <==> has_key(b1, key));
            }
        }
    }
}

/// The merged pairs a union emits while both sides still hold keys: the
/// model of the intersecting-union prefix.
pub open spec fn merge_shared<VL, VR>(a: Seq<(usize, VL)>, b: Seq<(usize, VR)>) -> Seq<
    (usize, EitherOrBoth<VL, VR>),
>
    decreases a.len() + b.len(),
{
    if a.len() == 0 || b.len() == 0 {
        Seq::empty()
    } else if a[0].0 < b[0].0 {
        seq![(a[0].0, EitherOrBoth::Left(a[0].1))] + merge_shared(a.drop_first(), b)
    } else if b[0].0 < a[0].0 {
        seq![(b[0].0, EitherOrBoth::Right(b[0].1))] + merge_shared(a, b.drop_first())
    } else {
        seq![(a[0].0, EitherOrBoth::Both(a[0].1, b[0].1))] + merge_shared(
            a.drop_first(),
            b.drop_first(),
        )
    }
}

/// What is left on the longer side once the shorter side runs out, tagged by
/// its side: the model of the chained tail of a decomposed union.
pub open spec fn merge_leftover<VL, VR>(a: Seq<(usize, VL)>, b: Seq<(usize, VR)>) -> Seq<
    (usize, EitherOrBoth<VL, VR>),
>
    decreases a.len() + b.len(),
{
    if a.len() == 0 {
        b.map_values(|p: (usize, VR)| (p.0, EitherOrBoth::<VL, VR>::Right(p.1)))
    } else if b.len() == 0 {
        a.map_values(|p: (usize, VL)| (p.0, EitherOrBoth::<VL, VR>::Left(p.1)))
    } else if a[0].0 < b[0].0 {
        merge_leftover(a.drop_first(), b)
    } else if b[0].0 < a[0].0 {
        merge_leftover(a, b.drop_first())
    } else {
        merge_leftover(a.drop_first(), b.drop_first())
    }
}

/// A union may be decomposed as an intersecting union followed by a chained
/// tail of the longer side's remainder: both forms emit the same sequence.
pub proof fn lemma_union_decomposition<VL, VR>(a: Seq<(usize, VL)>, b: Seq<(usize, VR)>)
    ensures
        merge_pairs(a, b) == merge_shared(a, b) + merge_leftover(a, b),
    decreases a.len() + b.len(),
{
    if a.len() == 0 && b.len() == 0 {
        assert(merge_pairs(a, b) =~= merge_shared(a, b) + merge_leftover(a, b));
    } else if a.len() == 0 {
        lemma_union_decomposition(a, b.drop_first());
        assert(merge_leftover(a, b.drop_first()) =~= b.drop_first().map_values(
            |p: (usize, VR)| (p.0, EitherOrBoth::<VL, VR>::Right(p.1)),
        ));
        assert(merge_pairs(a, b) =~= merge_shared(a, b) + merge_leftover(a, b));
    } else if b.len() == 0 {
        lemma_union_decomposition(a.drop_first(), b);
        assert(merge_leftover(a.drop_first(), b) =~= a.drop_first().map_values(
            |p: (usize, VL)| (p.0, EitherOrBoth::<VL, VR>::Left(p.1)),
        ));
        assert(merge_pairs(a, b) =~= merge_shared(a, b) + merge_leftover(a, b));
    } else if a[0].0 < b[0].0 {
        lemma_union_decomposition(a.drop_first(), b);
        assert(merge_pairs(a, b) =~= merge_shared(a, b) + merge_leftover(a, b));
    } else if b[0].0 < a[0].0 {
        lemma_union_decomposition(a, b.drop_first());
        assert(merge_pairs(a, b) =~= merge_shared(a, b) + merge_leftover(a, b));
    } else {
        lemma_union_decomposition(a.drop_first(), b.drop_first());
        assert(merge_pairs(a, b) =~= merge_shared(a, b) + merge_leftover(a, b));
    }
}

/// Union completeness, stated of the combinator itself: the keys a union can
/// still emit are exactly the keys either child can still emit, in strictly
/// increasing order, with each value tagged by the side(s) that hold the
/// key.
pub proof fn lemma_union_completeness<L: IndexedStream, R: IndexedStream>(u: &UnionStream<L, R>)
    requires
        u.inv(),
    ensures
        sorted_keys(u.remaining()),
        forall|i: int|
            #[trigger] has_key(u.remaining(), i) <==> has_key(u.left.remaining(), i) || has_key(
                u.right.remaining(),
                i,
            ),
        forall|k: int|
            0 <= k < u.remaining().len() ==> (((#[trigger] u.remaining()[k]).1 is Both) <==> has_key(
                u.left.remaining(),
                u.remaining()[k].0 as int,
            ) && has_key(u.right.remaining(), u.remaining()[k].0 as int)),
        forall|k: int|
            0 <= k < u.remaining().len() ==> (((#[trigger] u.remaining()[k]).1 is Left) <==> has_key(
                u.left.remaining(),
                u.remaining()[k].0 as int,
            ) && !has_key(u.right.remaining(), u.remaining()[k].0 as int)),
        forall|k: int|
            0 <= k < u.remaining().len() ==> (((#[trigger] u.remaining()[k]).1 is Right)
                <==> !has_key(u.left.remaining(), u.remaining()[k].0 as int) && has_key(
                u.right.remaining(),
                u.remaining()[k].0 as int,
            )),
{
    u.left.lemma_inv();
    u.right.lemma_inv();
    lemma_merge_props(u.left.remaining(), u.right.remaining());
    lemma_merge_tags(u.left.remaining(), u.right.remaining());
}

} // verus!
