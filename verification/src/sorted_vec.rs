//! Pure set streams over sorted key arrays: a galloping cursor and a linear
//! cursor. Both are always ready while valid and emit `()` values.

use vstd::prelude::*;
use crate::binary_search::{binary_search, lt_or_possibly_eq, sorted_slice};
use crate::stream_defs::{
    key_passed, seek_covers, advanced_to, keys_of, IndexedStream, EagerStream, collect_indices,
};
use crate::zip_stream::{intersect_pairs, ZipStream};

verus! {

/// A strictly increasing run of keys.
pub open spec fn strict_sorted(s: Seq<usize>) -> bool {
    forall|i: int, j: int| 0 <= i < j < s.len() ==> #[trigger] s[i] < #[trigger] s[j]
}

/// The emission model shared by cursors over a sorted key array: the keys
/// from `cur` on, each carrying the unit value.
pub open spec fn key_stream_model(inds: Seq<usize>, cur: usize) -> Seq<(usize, ())> {
    Seq::new((inds.len() - cur) as nat, |k: int| (inds[cur + k], ()))
}

/// A sorted-key cursor whose seek gallops: exponential probe, then binary
/// search, in O(log of the distance moved). Copying it duplicates only the
/// offset state.
#[derive(Debug, Clone, Copy)]
pub struct SortedVecGalloper<'a> {
    pub inds: &'a [usize],
    pub cur: usize,
}

/// A sorted-key cursor whose seek advances one step at a time. Copying it
/// duplicates only the offset state.
#[derive(Debug, Clone, Copy)]
pub struct SortedVecLinear<'a> {
    pub inds: &'a [usize],
    pub cur: usize,
}

impl<'a> SortedVecGalloper<'a> {
    /// Wrap a strictly sorted key array as a galloping stream positioned at
    /// its first key.
    pub fn new(inds: &'a [usize]) -> (r: Self)
        requires
            strict_sorted(inds@),
        ensures
            r.inv(),
            r.remaining() == key_stream_model(inds@, 0),
    {
        SortedVecGalloper { inds, cur: 0 }
    }
}

impl<'a> SortedVecLinear<'a> {
    /// Wrap a strictly sorted key array as a linear stream positioned at its
    /// first key.
    pub fn new(inds: &'a [usize]) -> (r: Self)
        requires
            strict_sorted(inds@),
        ensures
            r.inv(),
            r.remaining() == key_stream_model(inds@, 0),
    {
        SortedVecLinear { inds, cur: 0 }
    }
}

impl<'a> IndexedStream for SortedVecGalloper<'a> {
    type V = ();

    open spec fn inv(&self) -> bool {
        self.cur <= self.inds@.len() && strict_sorted(self.inds@)
    }

    open spec fn remaining(&self) -> Seq<(usize, ())> {
        key_stream_model(self.inds@, self.cur)
    }

    open spec fn size(&self) -> nat {
        (self.inds@.len() - self.cur) as nat
    }

    open spec fn valid_spec(&self) -> bool {
        self.cur < self.inds@.len()
    }

    open spec fn ready_spec(&self) -> bool {
        true
    }

    open spec fn index_spec(&self) -> usize {
        self.inds@[self.cur as int]
    }

    open spec fn value_spec(&self) -> () {
        ()
    }

    proof fn lemma_inv(&self) {
        assert forall|k: int| 0 <= k < self.remaining().len() implies (#[trigger] self
            .remaining()[k]).0 >= self.index_spec() by {
            if k > 0 {
                assert(self.inds@[self.cur as int] < self.inds@[self.cur + k]);
            }
        }
    }

    fn valid(&self) -> bool {
        self.cur < self.inds.len()
    }

    fn ready(&self) -> bool {
        true
    }

    fn index(&self) -> usize {
        *vstd::slice::slice_index_get(self.inds, self.cur)
    }

    fn value(&self) -> () {
    }

    fn seek(&mut self, target: usize, strict: bool) {
        proof {
            lemma_strict_sorted_slice(self.inds@);
        }
        let sub = vstd::slice::slice_subrange(self.inds, self.cur, self.inds.len());
        let k = binary_search(sub, target, strict);
        let ghost pre = *self;
        self.cur = self.cur + k;
        proof {
            assert(forall|j: int|
                0 <= j < sub@.len() ==> #[trigger] sub@[j] == pre.inds@[pre.cur + j]);
            assert forall|j: int| pre.cur <= j < self.cur implies key_passed(
                #[trigger] pre.inds@[j],
                target,
                strict,
            ) by {
                assert(sub@[j - pre.cur] == pre.inds@[j]);
            }
            if self.cur == pre.cur {
                assert(sub@[0] == pre.inds@[pre.cur as int]);
            }
            lemma_key_cursor_seek(pre.inds@, pre.cur, self.cur, target, strict);
        }
    }
}

impl<'a> EagerStream for SortedVecGalloper<'a> {
    proof fn lemma_eager(&self) {
    }
}

impl<'a> IndexedStream for SortedVecLinear<'a> {
    type V = ();

    open spec fn inv(&self) -> bool {
        self.cur <= self.inds@.len() && strict_sorted(self.inds@)
    }

    open spec fn remaining(&self) -> Seq<(usize, ())> {
        key_stream_model(self.inds@, self.cur)
    }

    open spec fn size(&self) -> nat {
        (self.inds@.len() - self.cur) as nat
    }

    open spec fn valid_spec(&self) -> bool {
        self.cur < self.inds@.len()
    }

    open spec fn ready_spec(&self) -> bool {
        true
    }

    open spec fn index_spec(&self) -> usize {
        self.inds@[self.cur as int]
    }

    open spec fn value_spec(&self) -> () {
        ()
    }

    proof fn lemma_inv(&self) {
        assert forall|k: int| 0 <= k < self.remaining().len() implies (#[trigger] self
            .remaining()[k]).0 >= self.index_spec() by {
            if k > 0 {
                assert(self.inds@[self.cur as int] < self.inds@[self.cur + k]);
            }
        }
    }

    fn valid(&self) -> bool {
        self.cur < self.inds.len()
    }

    fn ready(&self) -> bool {
        true
    }

    fn index(&self) -> usize {
        *vstd::slice::slice_index_get(self.inds, self.cur)
    }

    fn value(&self) -> () {
    }

    fn seek(&mut self, target: usize, strict: bool) {
        let ghost pre = *self;
        // read the length once so its machine bound is in scope
        let _n = self.inds.len();
        if lt_or_possibly_eq(*vstd::slice::slice_index_get(self.inds, self.cur), target, strict) {
            self.cur = self.cur + 1;
        }
        proof {
            lemma_key_cursor_seek(pre.inds@, pre.cur, self.cur, target, strict);
        }
    }
}

impl<'a> EagerStream for SortedVecLinear<'a> {
    proof fn lemma_eager(&self) {
    }
}

/// A strictly sorted run is in particular sorted.
pub proof fn lemma_strict_sorted_slice(s: Seq<usize>)
    requires
        strict_sorted(s),
    ensures
        sorted_slice(s),
{
}

/// Moving a sorted-key cursor from `cur` to `cur2` over passed positions
/// meets the seek contract: the model loses exactly the dropped prefix, all
/// of it passed, and a covered request moves at least one step.
proof fn lemma_key_cursor_seek(inds: Seq<usize>, cur: usize, cur2: usize, target: usize, strict: bool)
    requires
        strict_sorted(inds),
        cur < inds.len(),
        cur <= cur2 <= inds.len(),
        forall|j: int| cur <= j < cur2 ==> key_passed(#[trigger] inds[j], target, strict),
        cur2 == cur ==> !key_passed(inds[cur as int], target, strict),
    ensures
        advanced_to(
            key_stream_model(inds, cur2),
            key_stream_model(inds, cur),
            target,
            strict,
        ),
        seek_covers(target, strict, inds[cur as int], true) ==> cur2 > cur,
        strict && target == inds[cur as int] ==> key_stream_model(inds, cur2)
            == key_stream_model(inds, cur).drop_first(),
{
    let prev = key_stream_model(inds, cur);
    let next = key_stream_model(inds, cur2);
    let k: int = cur2 - cur;
    assert(next == prev.skip(k)) by {
        assert forall|j: int| 0 <= j < next.len() implies next[j] == prev.skip(k)[j] by {
            assert(next[j] == (inds[cur2 + j], ()));
            assert(prev.skip(k)[j] == prev[k + j]);
        }
        assert(next =~= prev.skip(k));
    }
    assert(forall|j: int| 0 <= j < k ==> key_passed((#[trigger] prev[j]).0, target, strict));
    if seek_covers(target, strict, inds[cur as int], true) {
        // the head itself is passed, so at least it is dropped
        assert(key_passed(inds[cur as int], target, strict));
    }
    if strict && target == inds[cur as int] {
        assert(key_passed(inds[cur as int], target, strict));
        if k >= 2 {
            assert(inds[cur as int] < inds[cur + 1]);
            assert(key_passed(inds[cur + 1], target, strict));
            assert(false);
        }
        assert(next =~= prev.drop_first());
    }
}

/// The sorted intersection of two strictly sorted key runs: the keys of the
/// merge-join of their set streams.
pub open spec fn key_intersection(x: Seq<usize>, y: Seq<usize>) -> Seq<usize> {
    keys_of(intersect_pairs(key_stream_model(x, 0), key_stream_model(y, 0)))
}

/// Intersect two strictly sorted key vectors by a two-pointer merge; the
/// baseline the stream pipelines are held against.
pub fn vec_intersect_manual(x: &Vec<usize>, y: &Vec<usize>) -> (r: Vec<usize>)
    requires
        strict_sorted(x@),
        strict_sorted(y@),
    ensures
        r@ == key_intersection(x@, y@),
{
    let mut result: Vec<usize> = Vec::new();
    let mut i: usize = 0;
    let mut j: usize = 0;
    let xn = x.len();
    let yn = y.len();
    while i < xn && j < yn
        invariant
            strict_sorted(x@),
            strict_sorted(y@),
            xn == x@.len(),
            yn == y@.len(),
            i <= xn,
            j <= yn,
            result@ + keys_of(
                intersect_pairs(key_stream_model(x@, i), key_stream_model(y@, j)),
            ) == key_intersection(x@, y@),
        decreases xn - i + yn - j,
    {
        let ghost a = key_stream_model(x@, i);
        let ghost b = key_stream_model(y@, j);
        proof {
            assert(a[0].0 == x@[i as int]);
            assert(b[0].0 == y@[j as int]);
        }
        if x[i] < y[j] {
            proof {
                assert(a.drop_first() =~= key_stream_model(x@, (i + 1) as usize));
                assert(intersect_pairs(a, b) == intersect_pairs(
                    key_stream_model(x@, (i + 1) as usize),
                    b,
                ));
            }
            i = i + 1;
        } else if x[i] > y[j] {
            proof {
                assert(b.drop_first() =~= key_stream_model(y@, (j + 1) as usize));
                assert(intersect_pairs(a, b) == intersect_pairs(
                    a,
                    key_stream_model(y@, (j + 1) as usize),
                ));
            }
            j = j + 1;
        } else {
            result.push(x[i]);
            proof {
                assert(a.drop_first() =~= key_stream_model(x@, (i + 1) as usize));
                assert(b.drop_first() =~= key_stream_model(y@, (j + 1) as usize));
                let rest = intersect_pairs(
                    key_stream_model(x@, (i + 1) as usize),
                    key_stream_model(y@, (j + 1) as usize),
                );
                assert(intersect_pairs(a, b) == seq![(a[0].0, (a[0].1, b[0].1))] + rest);
                assert(keys_of(intersect_pairs(a, b)) =~= seq![a[0].0] + keys_of(rest));
                assert(result@ + keys_of(rest) =~= key_intersection(x@, y@));
            }
            i = i + 1;
            j = j + 1;
        }
    }
    proof {
        let a = key_stream_model(x@, i);
        let b = key_stream_model(y@, j);
        assert(a.len() == 0 || b.len() == 0);
        assert(keys_of(intersect_pairs(a, b)) =~= Seq::<usize>::empty());
        assert(result@ + keys_of(intersect_pairs(a, b)) =~= result@);
    }
    result
}

/// Intersect two strictly sorted key vectors with galloping streams: the
/// fused pipeline agrees with the two-pointer baseline on every input.
pub fn vec_intersect_streams_gallop(x: &Vec<usize>, y: &Vec<usize>) -> (r: Vec<usize>)
    requires
        strict_sorted(x@),
        strict_sorted(y@),
    ensures
        r@ == key_intersection(x@, y@),
{
    let zipped = ZipStream::new(
        SortedVecGalloper::new(x.as_slice()),
        SortedVecGalloper::new(y.as_slice()),
    );
    collect_indices(zipped)
}

/// Intersect two strictly sorted key vectors with linear streams: the fused
/// pipeline agrees with the two-pointer baseline on every input.
pub fn vec_intersect_streams_linear(x: &Vec<usize>, y: &Vec<usize>) -> (r: Vec<usize>)
    requires
        strict_sorted(x@),
        strict_sorted(y@),
    ensures
        r@ == key_intersection(x@, y@),
{
    let zipped = ZipStream::new(
        SortedVecLinear::new(x.as_slice()),
        SortedVecLinear::new(y.as_slice()),
    );
    collect_indices(zipped)
}

} // verus!
