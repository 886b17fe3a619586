//! The zip combinator: intersect two streams on equal indices, pairing their
//! values. Its model is the key-intersection of the children's models.

use vstd::prelude::*;
use crate::stream_defs::{
    key_passed, sorted_keys, seek_covers, advanced_to, has_key, IndexedStream,
    lemma_advance_refl, lemma_advance_uncons, lemma_advance_prepend,
};

verus! {

/// The merge-join of two emission sequences: the pairs whose key occurs in
/// both, values combined pointwise, in key order.
pub open spec fn intersect_pairs<VL, VR>(a: Seq<(usize, VL)>, b: Seq<(usize, VR)>) -> Seq<
    (usize, (VL, VR)),
>
    decreases a.len() + b.len(),
{
    if a.len() == 0 || b.len() == 0 {
        Seq::empty()
    } else if a[0].0 < b[0].0 {
        intersect_pairs(a.drop_first(), b)
    } else if b[0].0 < a[0].0 {
        intersect_pairs(a, b.drop_first())
    } else {
        seq![(a[0].0, (a[0].1, b[0].1))] + intersect_pairs(a.drop_first(), b.drop_first())
    }
}

/// Dropping the head keeps the keys strictly increasing.
pub proof fn lemma_sorted_drop_first<W>(s: Seq<(usize, W)>)
    requires
        sorted_keys(s),
        s.len() > 0,
    ensures
        sorted_keys(s.drop_first()),
{
    assert forall|i: int, j: int| 0 <= i < j < s.drop_first().len() implies (#[trigger] s
        .drop_first()[i]).0 < (#[trigger] s.drop_first()[j]).0 by {
        assert(s.drop_first()[i] == s[i + 1]);
        assert(s.drop_first()[j] == s[j + 1]);
    }
}

/// The intersection of sorted sequences is sorted, and every one of its
/// entries takes its key (with the respective value half) from each side.
pub proof fn lemma_intersect_props<VL, VR>(a: Seq<(usize, VL)>, b: Seq<(usize, VR)>)
    requires
        sorted_keys(a),
        sorted_keys(b),
    ensures
        sorted_keys(intersect_pairs(a, b)),
        forall|k: int| 0 <= k < intersect_pairs(a, b).len() ==> exists|i: int|
            0 <= i < a.len() && #[trigger] a[i] == ((#[trigger] intersect_pairs(a, b)[k]).0,
            intersect_pairs(a, b)[k].1.0),
        forall|k: int| 0 <= k < intersect_pairs(a, b).len() ==> exists|j: int|
            0 <= j < b.len() && #[trigger] b[j] == ((#[trigger] intersect_pairs(a, b)[k]).0,
            intersect_pairs(a, b)[k].1.1),
    decreases a.len() + b.len(),
{
    let s = intersect_pairs(a, b);
    if a.len() == 0 || b.len() == 0 {
    } else if a[0].0 < b[0].0 {
        lemma_sorted_drop_first(a);
        lemma_intersect_props(a.drop_first(), b);
        assert forall|k: int| 0 <= k < s.len() implies exists|i: int|
            0 <= i < a.len() && #[trigger] a[i] == ((#[trigger] s[k]).0, s[k].1.0) by {
            let i0 = choose|i: int|
                0 <= i < a.drop_first().len() && #[trigger] a.drop_first()[i] == (s[k].0,
                s[k].1.0);
            assert(a[i0 + 1] == (s[k].0, s[k].1.0));
        }
    } else if b[0].0 < a[0].0 {
        lemma_sorted_drop_first(b);
        lemma_intersect_props(a, b.drop_first());
        assert forall|k: int| 0 <= k < s.len() implies exists|j: int|
            0 <= j < b.len() && #[trigger] b[j] == ((#[trigger] s[k]).0, s[k].1.1) by {
            let j0 = choose|j: int|
                0 <= j < b.drop_first().len() && #[trigger] b.drop_first()[j] == (s[k].0,
                s[k].1.1);
            assert(b[j0 + 1] == (s[k].0, s[k].1.1));
        }
    } else {
        lemma_sorted_drop_first(a);
        lemma_sorted_drop_first(b);
        lemma_intersect_props(a.drop_first(), b.drop_first());
        let rest = intersect_pairs(a.drop_first(), b.drop_first());
        assert(s == seq![(a[0].0, (a[0].1, b[0].1))] + rest);
        assert forall|k: int| 0 <= k < s.len() implies exists|i: int|
            0 <= i < a.len() && #[trigger] a[i] == ((#[trigger] s[k]).0, s[k].1.0) by {
            if k == 0 {
                assert(a[0] == (s[0].0, s[0].1.0));
            } else {
                assert(s[k] == rest[k - 1]);
                let i0 = choose|i: int|
                    0 <= i < a.drop_first().len() && #[trigger] a.drop_first()[i] == (rest[k
                        - 1].0, rest[k - 1].1.0);
                assert(a[i0 + 1] == (s[k].0, s[k].1.0));
            }
        }
        assert forall|k: int| 0 <= k < s.len() implies exists|j: int|
            0 <= j < b.len() && #[trigger] b[j] == ((#[trigger] s[k]).0, s[k].1.1) by {
            if k == 0 {
                assert(b[0] == (s[0].0, s[0].1.1));
            } else {
                assert(s[k] == rest[k - 1]);
                let j0 = choose|j: int|
                    0 <= j < b.drop_first().len() && #[trigger] b.drop_first()[j] == (rest[k
                        - 1].0, rest[k - 1].1.1);
                assert(b[j0 + 1] == (s[k].0, s[k].1.1));
            }
        }
        assert forall|i: int, j: int| 0 <= i < j < s.len() implies (#[trigger] s[i]).0
            < (#[trigger] s[j]).0 by {
            if i == 0 {
                // every entry of `rest` takes its key from past a's head
                let w = choose|w: int|
                    0 <= w < a.drop_first().len() && #[trigger] a.drop_first()[w] == (rest[j
                        - 1].0, rest[j - 1].1.0);
                assert(a[w + 1].0 == s[j].0);
                assert(a[0].0 < a[w + 1].0);
            } else {
                assert(s[i] == rest[i - 1]);
                assert(s[j] == rest[j - 1]);
            }
        }
    }
}

/// Seeking both sides of an intersection advances the intersection: only
/// passed keys are dropped from the joint model.
pub proof fn lemma_intersect_advance<VL, VR>(
    a: Seq<(usize, VL)>,
    b: Seq<(usize, VR)>,
    a2: Seq<(usize, VL)>,
    b2: Seq<(usize, VR)>,
    target: usize,
    strict: bool,
)
    requires
        sorted_keys(a),
        sorted_keys(b),
        advanced_to(a2, a, target, strict),
        advanced_to(b2, b, target, strict),
    ensures
        advanced_to(intersect_pairs(a2, b2), intersect_pairs(a, b), target, strict),
    decreases a.len() + b.len(),
{
    let ia = intersect_pairs(a, b);
    let i2 = intersect_pairs(a2, b2);
    if a2.len() == a.len() && b2.len() == b.len() {
        assert(a2 == a.skip(0));
        assert(a.skip(0) =~= a);
        assert(b2 == b.skip(0));
        assert(b.skip(0) =~= b);
        lemma_advance_refl(ia, target, strict);
    } else if a2.len() < a.len() {
        lemma_advance_uncons(a2, a, target, strict);
        lemma_sorted_drop_first(a);
        if b.len() == 0 {
            assert(b2.len() == 0);
            assert(ia == Seq::<(usize, (VL, VR))>::empty());
            assert(i2 == Seq::<(usize, (VL, VR))>::empty());
            lemma_advance_refl(ia, target, strict);
        } else if a[0].0 < b[0].0 {
            lemma_intersect_advance(a.drop_first(), b, a2, b2, target, strict);
        } else if a[0].0 == b[0].0 {
            assert(key_passed(b[0].0, target, strict));
            lemma_sorted_drop_first(b);
            let head = (a[0].0, (a[0].1, b[0].1));
            let rest = intersect_pairs(a.drop_first(), b.drop_first());
            assert(ia == seq![head] + rest);
            if b2.len() < b.len() {
                lemma_advance_uncons(b2, b, target, strict);
                lemma_intersect_advance(a.drop_first(), b.drop_first(), a2, b2, target, strict);
                lemma_advance_prepend(head, rest, i2, target, strict);
            } else {
                // b kept its head, but every key left in a2 lies past it
                assert(b2 == b.skip(0));
                assert(b.skip(0) =~= b);
                if a2.len() == 0 {
                    assert(i2 == Seq::<(usize, (VL, VR))>::empty());
                } else {
                    let d = a.len() - a2.len();
                    assert(a2[0] == a[d]);
                    assert(a[0].0 < a[d].0);
                    assert(i2 == intersect_pairs(a2, b.drop_first()));
                }
                lemma_advance_refl(b.drop_first(), target, strict);
                lemma_intersect_advance(
                    a.drop_first(),
                    b.drop_first(),
                    a2,
                    b.drop_first(),
                    target,
                    strict,
                );
                lemma_advance_prepend(head, rest, i2, target, strict);
            }
        } else {
            // b's head lies before a's dropped head, hence it is passed too
            assert(key_passed(a[0].0, target, strict));
            assert(key_passed(b[0].0, target, strict));
            lemma_sorted_drop_first(b);
            assert(ia == intersect_pairs(a, b.drop_first()));
            if b2.len() < b.len() {
                lemma_advance_uncons(b2, b, target, strict);
                lemma_intersect_advance(a, b.drop_first(), a2, b2, target, strict);
            } else {
                assert(b2 == b.skip(0));
                assert(b.skip(0) =~= b);
                if a2.len() == 0 {
                    assert(i2 == Seq::<(usize, (VL, VR))>::empty());
                } else {
                    let d = a.len() - a2.len();
                    assert(a2[0] == a[d]);
                    assert(b[0].0 < a[0].0);
                    if d > 0 {
                        assert(a[0].0 <= a[d].0);
                    }
                    assert(i2 == intersect_pairs(a2, b.drop_first()));
                }
                lemma_advance_refl(b.drop_first(), target, strict);
                lemma_intersect_advance(a, b.drop_first(), a2, b.drop_first(), target, strict);
            }
        }
    } else {
        // only b dropped something
        assert(a2 == a.skip(0));
        assert(a.skip(0) =~= a);
        lemma_advance_uncons(b2, b, target, strict);
        lemma_sorted_drop_first(b);
        if a.len() == 0 {
            assert(ia == Seq::<(usize, (VL, VR))>::empty());
            assert(i2 == Seq::<(usize, (VL, VR))>::empty());
            lemma_advance_refl(ia, target, strict);
        } else if b[0].0 < a[0].0 {
            lemma_intersect_advance(a, b.drop_first(), a2, b2, target, strict);
        } else if a[0].0 == b[0].0 {
            assert(key_passed(a[0].0, target, strict));
            lemma_sorted_drop_first(a);
            let head = (a[0].0, (a[0].1, b[0].1));
            let rest = intersect_pairs(a.drop_first(), b.drop_first());
            assert(ia == seq![head] + rest);
            // a kept its head, but every key left in b2 lies past it
            if b2.len() == 0 {
                assert(i2 == Seq::<(usize, (VL, VR))>::empty());
            } else {
                let d = b.len() - b2.len();
                assert(b2[0] == b[d]);
                assert(b[0].0 < b[d].0);
                assert(i2 == intersect_pairs(a.drop_first(), b2));
            }
            lemma_advance_refl(a.drop_first(), target, strict);
            lemma_intersect_advance(a.drop_first(), b.drop_first(), a.drop_first(), b2, target, strict);
            lemma_advance_prepend(head, rest, i2, target, strict);
        } else {
            // a's head lies before b's dropped head, hence it is passed too
            assert(key_passed(b[0].0, target, strict));
            assert(key_passed(a[0].0, target, strict));
            lemma_sorted_drop_first(a);
            assert(ia == intersect_pairs(a.drop_first(), b));
            if b2.len() == 0 {
                assert(i2 == Seq::<(usize, (VL, VR))>::empty());
                assert(advanced_to(i2, intersect_pairs(a.drop_first(), b2), target, strict))
                    by {
                    lemma_advance_refl(i2, target, strict);
                }
            } else {
                let d = b.len() - b2.len();
                assert(b2[0] == b[d]);
                if d > 0 {
                    assert(b[0].0 <= b[d].0);
                }
                assert(i2 == intersect_pairs(a.drop_first(), b2));
            }
            lemma_advance_refl(a.drop_first(), target, strict);
            lemma_intersect_advance(a.drop_first(), b, a.drop_first(), b2, target, strict);
        }
    }
}

/// Zip is set intersection: a key survives the intersection of two sorted
/// models exactly when it occurs in both, so the zipped key sequence is the
/// sorted intersection of the two key sets.
pub proof fn lemma_intersect_keys<VL, VR>(a: Seq<(usize, VL)>, b: Seq<(usize, VR)>)
    requires
        sorted_keys(a),
        sorted_keys(b),
    ensures
        forall|i: int|
            #[trigger] has_key(intersect_pairs(a, b), i) <==> has_key(a, i) && has_key(b, i),
    decreases a.len() + b.len(),
{
    let s = intersect_pairs(a, b);
    if a.len() == 0 || b.len() == 0 {
        assert forall|i: int| !has_key(s, i) by {}
    } else if a[0].0 < b[0].0 {
        lemma_sorted_drop_first(a);
        lemma_intersect_keys(a.drop_first(), b);
        assert forall|i: int| #[trigger] has_key(s, i) <==> has_key(a, i) && has_key(b, i) by {
            assert(has_key(intersect_pairs(a.drop_first(), b), i) <==> has_key(a.drop_first(), i)
                && has_key(b, i));
            assert(has_key(a, i) <==> (a[0].0 == i || has_key(a.drop_first(), i))) by {
                if has_key(a, i) && a[0].0 != i {
                    let k = choose|k: int| 0 <= k < a.len() && (#[trigger] a[k]).0 == i;
                    assert(a.drop_first()[k - 1].0 == i);
                }
                if has_key(a.drop_first(), i) {
                    let k = choose|k: int|
                        0 <= k < a.drop_first().len() && (#[trigger] a.drop_first()[k]).0 == i;
                    assert(a[k + 1].0 == i);
                }
            }
            if a[0].0 == i && has_key(b, i) {
                let k = choose|k: int| 0 <= k < b.len() && (#[trigger] b[k]).0 == i;
                assert(b[0].0 <= b[k].0);
            }
        }
    } else if b[0].0 < a[0].0 {
        lemma_sorted_drop_first(b);
        lemma_intersect_keys(a, b.drop_first());
        assert forall|i: int| #[trigger] has_key(s, i) <==> has_key(a, i) && has_key(b, i) by {
            assert(has_key(intersect_pairs(a, b.drop_first()), i) <==> has_key(a, i) && has_key(
                b.drop_first(),
                i,
            ));
            assert(has_key(b, i) <==> (b[0].0 == i || has_key(b.drop_first(), i))) by {
                if has_key(b, i) && b[0].0 != i {
                    let k = choose|k: int| 0 <= k < b.len() && (#[trigger] b[k]).0 == i;
                    assert(b.drop_first()[k - 1].0 == i);
                }
                if has_key(b.drop_first(), i) {
                    let k = choose|k: int|
                        0 <= k < b.drop_first().len() && (#[trigger] b.drop_first()[k]).0 == i;
                    assert(b[k + 1].0 == i);
                }
            }
            if b[0].0 == i && has_key(a, i) {
                let k = choose|k: int| 0 <= k < a.len() && (#[trigger] a[k]).0 == i;
                assert(a[0].0 <= a[k].0);
            }
        }
    } else {
        lemma_sorted_drop_first(a);
        lemma_sorted_drop_first(b);
        lemma_intersect_keys(a.drop_first(), b.drop_first());
        let rest = intersect_pairs(a.drop_first(), b.drop_first());
        assert(s == seq![(a[0].0, (a[0].1, b[0].1))] + rest);
        assert forall|i: int| #[trigger] has_key(s, i) <==> has_key(a, i) && has_key(b, i) by {
            assert(has_key(rest, i) <==> has_key(a.drop_first(), i) && has_key(
                b.drop_first(),
                i,
            ));
            assert(has_key(s, i) <==> (s[0].0 == i || has_key(rest, i))) by {
                if has_key(s, i) && s[0].0 != i {
                    let k = choose|k: int| 0 <= k < s.len() && (#[trigger] s[k]).0 == i;
                    assert(rest[k - 1].0 == i);
                }
                if has_key(rest, i) {
                    let k = choose|k: int|
                        0 <= k < rest.len() && (#[trigger] rest[k]).0 == i;
                    assert(s[k + 1].0 == i);
                }
            }
            assert(has_key(a, i) <==> (a[0].0 == i || has_key(a.drop_first(), i))) by {
                if has_key(a, i) && a[0].0 != i {
                    let k = choose|k: int| 0 <= k < a.len() && (#[trigger] a[k]).0 == i;
                    assert(a.drop_first()[k - 1].0 == i);
                }
                if has_key(a.drop_first(), i) {
                    let k = choose|k: int|
                        0 <= k < a.drop_first().len() && (#[trigger] a.drop_first()[k]).0 == i;
                    assert(a[k + 1].0 == i);
                }
            }
            assert(has_key(b, i) <==> (b[0].0 == i || has_key(b.drop_first(), i))) by {
                if has_key(b, i) && b[0].0 != i {
                    let k = choose|k: int| 0 <= k < b.len() && (#[trigger] b[k]).0 == i;
                    assert(b.drop_first()[k - 1].0 == i);
                }
                if has_key(b.drop_first(), i) {
                    let k = choose|k: int|
                        0 <= k < b.drop_first().len() && (#[trigger] b.drop_first()[k]).0 == i;
                    assert(b[k + 1].0 == i);
                }
            }
            if a[0].0 == i {
                assert(s[0].0 == i);
            }
            if has_key(a.drop_first(), i) && has_key(b, i) && b[0].0 == i {
                let k = choose|k: int|
                    0 <= k < a.drop_first().len() && (#[trigger] a.drop_first()[k]).0 == i;
                assert(a[k + 1].0 == i);
                assert(a[0].0 < a[k + 1].0);
            }
            if has_key(b.drop_first(), i) && b.drop_first().len() > 0 && has_key(a, i)
                && a[0].0 == i {
            }
        }
    }
}

/// Intersect two streams on equal indices: valid while both children are,
/// standing at the larger frontier, ready exactly when both children are
/// ready at the same index; the value is the pair of the children's values.
#[derive(Debug, Clone)]
pub struct ZipStream<L, R> {
    pub left: L,
    pub right: R,
}

impl<L: IndexedStream, R: IndexedStream> ZipStream<L, R> {
    /// Zip two streams; the result's model is the key-intersection of the
    /// children's models.
    pub fn new(left: L, right: R) -> (r: Self)
        requires
            left.inv(),
            right.inv(),
        ensures
            r == (ZipStream { left, right }),
            r.inv(),
            r.remaining() == intersect_pairs(left.remaining(), right.remaining()),
    {
        ZipStream { left, right }
    }
}

impl<L: IndexedStream, R: IndexedStream> IndexedStream for ZipStream<L, R> {
    type V = (L::V, R::V);

    open spec fn inv(&self) -> bool {
        self.left.inv() && self.right.inv()
    }

    open spec fn remaining(&self) -> Seq<(usize, (L::V, R::V))> {
        intersect_pairs(self.left.remaining(), self.right.remaining())
    }

    open spec fn size(&self) -> nat {
        self.left.size() + self.right.size()
    }

    open spec fn valid_spec(&self) -> bool {
        self.left.valid_spec() && self.right.valid_spec()
    }

    open spec fn ready_spec(&self) -> bool {
        self.left.ready_spec() && self.right.ready_spec() && self.left.index_spec()
            == self.right.index_spec()
    }

    open spec fn index_spec(&self) -> usize {
        if self.left.index_spec() >= self.right.index_spec() {
            self.left.index_spec()
        } else {
            self.right.index_spec()
        }
    }

    open spec fn value_spec(&self) -> (L::V, R::V) {
        (self.left.value_spec(), self.right.value_spec())
    }

    proof fn lemma_inv(&self) {
        self.left.lemma_inv();
        self.right.lemma_inv();
        let a = self.left.remaining();
        let b = self.right.remaining();
        let s = intersect_pairs(a, b);
        lemma_intersect_props(a, b);
        if self.valid_spec() {
            assert forall|k: int| 0 <= k < s.len() implies (#[trigger] s[k]).0
                >= self.index_spec() by {
                let i0 = choose|i: int| 0 <= i < a.len() && #[trigger] a[i] == (s[k].0, s[k].1.0);
                let j0 = choose|j: int| 0 <= j < b.len() && #[trigger] b[j] == (s[k].0, s[k].1.1);
                assert(a[i0].0 >= self.left.index_spec());
                assert(b[j0].0 >= self.right.index_spec());
            }
        }
        if self.valid_spec() && self.ready_spec() {
            assert(a[0] == (self.left.index_spec(), self.left.value_spec()));
            assert(b[0] == (self.right.index_spec(), self.right.value_spec()));
            assert(s == seq![(a[0].0, (a[0].1, b[0].1))] + intersect_pairs(
                a.drop_first(),
                b.drop_first(),
            ));
            assert(s[0] == (self.index_spec(), self.value_spec()));
        }
    }

    fn valid(&self) -> bool {
        self.left.valid() && self.right.valid()
    }

    fn ready(&self) -> bool {
        self.left.ready() && self.right.ready() && self.left.index() == self.right.index()
    }

    fn index(&self) -> usize {
        let li = self.left.index();
        let ri = self.right.index();
        if li >= ri {
            li
        } else {
            ri
        }
    }

    fn value(&self) -> (L::V, R::V) {
        (self.left.value(), self.right.value())
    }

    fn seek(&mut self, target: usize, strict: bool) {
        proof {
            old(self).left.lemma_inv();
            old(self).right.lemma_inv();
        }
        self.left.seek(target, strict);
        self.right.seek(target, strict);
        proof {
            let pre = *old(self);
            let a = pre.left.remaining();
            let b = pre.right.remaining();
            let a2 = self.left.remaining();
            let b2 = self.right.remaining();
            lemma_intersect_advance(a, b, a2, b2, target, strict);
            if seek_covers(target, strict, pre.index_spec(), pre.ready_spec()) {
                // at least one child is covered by the same request
                let li = pre.left.index_spec();
                let ri = pre.right.index_spec();
                if li < ri {
                    assert(seek_covers(target, strict, li, pre.left.ready_spec()));
                } else if ri < li {
                    assert(seek_covers(target, strict, ri, pre.right.ready_spec()));
                } else {
                    if li < target || (li == target && strict) {
                        assert(seek_covers(target, strict, li, pre.left.ready_spec()));
                    } else {
                        // non-strict request at the shared index: some child is not ready
                        assert(!pre.left.ready_spec() || !pre.right.ready_spec());
                    }
                }
            }
            if strict && pre.ready_spec() && target == pre.index_spec() {
                assert(a2 == a.drop_first());
                assert(b2 == b.drop_first());
                assert(a[0] == (pre.left.index_spec(), pre.left.value_spec()));
                assert(b[0] == (pre.right.index_spec(), pre.right.value_spec()));
                let head = (a[0].0, (a[0].1, b[0].1));
                let rest = intersect_pairs(a.drop_first(), b.drop_first());
                assert(intersect_pairs(a, b) == seq![head] + rest);
                assert((seq![head] + rest).drop_first() =~= rest);
            }
        }
    }
}

/// Zip is set intersection, stated of the combinator itself: the keys a zip
/// can still emit are exactly the keys both of its children can still emit,
/// in strictly increasing order.
pub proof fn lemma_zip_is_intersection<L: IndexedStream, R: IndexedStream>(z: &ZipStream<L, R>)
    requires
        z.inv(),
    ensures
        sorted_keys(z.remaining()),
        forall|i: int|
            #[trigger] has_key(z.remaining(), i) <==> has_key(z.left.remaining(), i) && has_key(
                z.right.remaining(),
                i,
            ),
{
    z.lemma_inv();
    z.left.lemma_inv();
    z.right.lemma_inv();
    lemma_intersect_keys(z.left.remaining(), z.right.remaining());
}

} // verus!
