//! Sorted sparse vectors: two parallel arrays, keys strictly increasing, and
//! the galloping / linear cursors that stream them, plus the collector that
//! materializes a stream back into a sparse vector.

use vstd::prelude::*;
use crate::binary_search::{binary_search, lt_or_possibly_eq};
use crate::sorted_vec::{strict_sorted, lemma_strict_sorted_slice};
use crate::stream_defs::{
    key_passed, sorted_keys, seek_covers, advanced_to, IndexedStream, EagerStream, stream_next,
};

verus! {

/// The emission model of a cursor over parallel key/value arrays: the pairs
/// from `cur` on.
pub open spec fn pair_stream_model<T>(inds: Seq<usize>, vals: Seq<T>, cur: usize) -> Seq<
    (usize, T),
> {
    Seq::new((inds.len() - cur) as nat, |k: int| (inds[cur + k], vals[cur + k]))
}

/// The emission model of a cursor over a window `[cur, end)` of parallel
/// key/value arrays.
pub open spec fn pair_window_model<T>(
    inds: Seq<usize>,
    vals: Seq<T>,
    cur: usize,
    end: usize,
) -> Seq<(usize, T)> {
    Seq::new((end - cur) as nat, |k: int| (inds[cur + k], vals[cur + k]))
}

/// Keys strictly increasing within the window `[lo, hi)`.
pub open spec fn window_sorted(inds: Seq<usize>, lo: usize, hi: usize) -> bool {
    forall|i: int, j: int| lo <= i < j < hi ==> #[trigger] inds[i] < #[trigger] inds[j]
}

/// A sparse vector: strictly increasing keys in `inds`, the matching values
/// in `vals`.
#[derive(Debug, Clone, Default, PartialEq, Eq)]
pub struct SparseVec<T> {
    pub inds: Vec<usize>,
    pub vals: Vec<T>,
}

impl<T> SparseVec<T> {
    /// Well-formedness: equally long arrays, keys strictly increasing.
    pub open spec fn wf(&self) -> bool {
        self.inds@.len() == self.vals@.len() && strict_sorted(self.inds@)
    }

    /// The (key, value) pairs held, in key order.
    pub open spec fn pairs(&self) -> Seq<(usize, T)> {
        pair_stream_model(self.inds@, self.vals@, 0)
    }

    /// The number of stored entries.
    pub fn len(&self) -> (r: usize)
        ensures
            r == self.pairs().len(),
    {
        self.inds.len()
    }

    /// Creates an empty sparse vector.
    pub fn empty() -> (r: Self)
        ensures
            r.wf(),
            r.pairs().len() == 0,
    {
        SparseVec { inds: Vec::new(), vals: Vec::new() }
    }

    /// Creates an empty sparse vector with room for `capacity` entries.
    pub fn with_capacity(capacity: usize) -> (r: Self)
        ensures
            r.wf(),
            r.pairs().len() == 0,
    {
        SparseVec { inds: Vec::with_capacity(capacity), vals: Vec::with_capacity(capacity) }
    }
}

impl<T: Copy> SparseVec<T> {
    /// Build a sparse vector from entries already sorted by strictly
    /// increasing key.
    pub fn from_iter(entries: Vec<(usize, T)>) -> (r: Self)
        requires
            sorted_keys(entries@),
        ensures
            r.wf(),
            r.pairs() == entries@,
    {
        let mut inds: Vec<usize> = Vec::new();
        let mut vals: Vec<T> = Vec::new();
        let n = entries.len();
        let mut k: usize = 0;
        while k < n
            invariant
                n == entries@.len(),
                k <= n,
                inds@.len() == k,
                vals@.len() == k,
                sorted_keys(entries@),
                forall|j: int| 0 <= j < k ==> #[trigger] inds@[j] == entries@[j].0,
                forall|j: int| 0 <= j < k ==> #[trigger] vals@[j] == entries@[j].1,
            decreases n - k,
        {
            let (i, v) = entries[k];
            inds.push(i);
            vals.push(v);
            k = k + 1;
        }
        let r = SparseVec { inds, vals };
        proof {
            assert(r.pairs() =~= entries@);
        }
        r
    }

    /// The stored pairs, materialized in key order.
    pub fn iter(&self) -> (r: Vec<(usize, T)>)
        requires
            self.wf(),
        ensures
            r@ == self.pairs(),
    {
        let mut out: Vec<(usize, T)> = Vec::new();
        let n = self.inds.len();
        let mut k: usize = 0;
        while k < n
            invariant
                self.wf(),
                n == self.inds@.len(),
                k <= n,
                out@.len() == k,
                forall|j: int|
                    0 <= j < k ==> #[trigger] out@[j] == (self.inds@[j], self.vals@[j]),
            decreases n - k,
        {
            let i = self.inds[k];
            let v = self.vals[k];
            out.push((i, v));
            k = k + 1;
        }
        proof {
            assert(out@ =~= self.pairs());
        }
        out
    }

    /// Look the value stored under `index` up by binary search.
    pub fn get(&self, index: usize) -> (r: Option<&T>)
        requires
            self.wf(),
        ensures
            r matches Some(v) ==> exists|k: int|
                0 <= k < self.inds@.len() && self.inds@[k] == index && *v == self.vals@[k],
            r is None ==> forall|k: int| 0 <= k < self.inds@.len() ==> #[trigger] self.inds@[k] != index,
    {
        proof {
            lemma_strict_sorted_slice(self.inds@);
        }
        let pos = binary_search(self.inds.as_slice(), index, false);
        if pos < self.inds.len() && self.inds[pos] == index {
            Some(&self.vals[pos])
        } else {
            proof {
                assert forall|k: int| 0 <= k < self.inds@.len() implies #[trigger] self.inds@[k]
                    != index by {
                    if k < pos {
                        assert(key_passed(self.inds@[k], index, false));
                    } else {
                        assert(!key_passed(self.inds@[k], index, false));
                    }
                }
            }
            None
        }
    }

    /// A galloping stream over this vector's pairs.
    pub fn stream_iter(&self) -> (r: SparseVecGalloper<'_, T>)
        requires
            self.wf(),
        ensures
            r.inv(),
            r.remaining() == self.pairs(),
    {
        let r = SparseVecGalloper {
            inds: self.inds.as_slice(),
            vals: self.vals.as_slice(),
            cur: 0,
            end: self.inds.len(),
        };
        proof {
            assert(r.remaining() =~= self.pairs());
        }
        r
    }

    /// A linear-scanning stream over this vector's pairs.
    pub fn stream_iter_linear(&self) -> (r: SparseVecIterator<'_, T>)
        requires
            self.wf(),
        ensures
            r.inv(),
            r.remaining() == self.pairs(),
    {
        SparseVecIterator { inds: self.inds.as_slice(), vals: self.vals.as_slice(), cur: 0 }
    }

    /// Materialize a whole stream as a sparse vector: the result holds
    /// exactly the stream's model.
    pub fn from_stream_iterator<S: IndexedStream<V = T>>(s: S) -> (r: Self)
        requires
            s.inv(),
        ensures
            r.wf(),
            r.pairs() == s.remaining(),
    {
        let mut r = SparseVec::empty();
        r.extend_from_stream_iterator(s);
        r
    }

    /// Drain a stream onto the end of this vector. Every streamed key must
    /// lie strictly beyond the keys already stored.
    pub fn extend_from_stream_iterator<S: IndexedStream<V = T>>(&mut self, s: S)
        requires
            old(self).wf(),
            s.inv(),
            forall|i: int, k: int|
                0 <= i < old(self).pairs().len() && 0 <= k < s.remaining().len()
                    ==> (#[trigger] old(self).pairs()[i]).0 < (#[trigger] s.remaining()[k]).0,
        ensures
            final(self).wf(),
            final(self).pairs() == old(self).pairs() + s.remaining(),
    {
        let ghost orig = s.remaining();
        let ghost base = old(self).pairs();
        proof {
            s.lemma_inv();
            assert forall|i: int, j: int| 0 <= i < j < (base + orig).len() implies (#[trigger] (base
                + orig)[i]).0 < (#[trigger] (base + orig)[j]).0 by {
                if j < base.len() {
                    assert(base[i].0 == old(self).inds@[i]);
                    assert(base[j].0 == old(self).inds@[j]);
                } else if i >= base.len() {
                    assert((base + orig)[i] == orig[i - base.len()]);
                    assert((base + orig)[j] == orig[j - base.len()]);
                } else {
                    assert((base + orig)[i] == base[i]);
                    assert((base + orig)[j] == orig[j - base.len()]);
                }
            }
        }
        let mut st = s;
        while st.valid()
            invariant
                st.inv(),
                self.inds@.len() == self.vals@.len(),
                sorted_keys(base + orig),
                self.pairs() + st.remaining() == base + orig,
            decreases st.size(),
        {
            proof {
                st.lemma_inv();
            }
            if st.ready() {
                let i = st.index();
                let v = st.value();
                stream_next(&mut st);
                self.inds.push(i);
                self.vals.push(v);
                proof {
                    assert(self.pairs() + st.remaining() =~= base + orig);
                }
            } else {
                stream_next(&mut st);
            }
        }
        proof {
            st.lemma_inv();
            assert(self.pairs() + st.remaining() =~= self.pairs());
            assert(self.pairs() == base + orig);
            assert forall|i: int, j: int|
                0 <= i < j < self.inds@.len() implies #[trigger] self.inds@[i]
                < #[trigger] self.inds@[j] by {
                assert(self.pairs()[i].0 == self.inds@[i]);
                assert(self.pairs()[j].0 == self.inds@[j]);
            }
        }
    }
}

/// The entries of `s` whose value is non-zero, in order.
pub open spec fn nonzero_entries(s: Seq<(usize, i64)>) -> Seq<(usize, i64)> {
    s.filter(|p: (usize, i64)| p.1 != 0i64)
}

impl SparseVec<i64> {
    /// Equality modulo explicitly stored zeros: both vectors hold the same
    /// non-zero entries.
    pub fn eq_ignoring_zeros(&self, other: &Self) -> (r: bool)
        requires
            self.wf(),
            other.wf(),
        ensures
            r == (nonzero_entries(self.pairs()) == nonzero_entries(other.pairs())),
    {
        let a = self.nonzero_pairs();
        let b = other.nonzero_pairs();
        let fa = Ghost(nonzero_entries(self.pairs()));
        let fb = Ghost(nonzero_entries(other.pairs()));
        if a.len() != b.len() {
            proof {
                assert(fa@.len() != fb@.len());
            }
            return false;
        }
        let n = a.len();
        let mut k: usize = 0;
        while k < n
            invariant
                n == a@.len(),
                n == b@.len(),
                a@ == fa@,
                b@ == fb@,
                fa@ == nonzero_entries(self.pairs()),
                fb@ == nonzero_entries(other.pairs()),
                k <= n,
                forall|j: int| 0 <= j < k ==> #[trigger] a@[j] == b@[j],
            decreases n - k,
        {
            let (ia, va) = a[k];
            let (ib, vb) = b[k];
            if ia != ib || va != vb {
                proof {
                    assert(fa@[k as int] != fb@[k as int]);
                }
                return false;
            }
            k = k + 1;
        }
        proof {
            assert(fa@ =~= fb@);
        }
        true
    }

    /// The entries whose value is non-zero, in key order.
    fn nonzero_pairs(&self) -> (r: Vec<(usize, i64)>)
        requires
            self.wf(),
        ensures
            r@ == nonzero_entries(self.pairs()),
    {
        let mut out: Vec<(usize, i64)> = Vec::new();
        let n = self.inds.len();
        let mut k: usize = 0;
        proof {
            reveal_with_fuel(Seq::filter, 1);
            assert(self.pairs().take(0).len() == 0);
        }
        while k < n
            invariant
                self.wf(),
                n == self.inds@.len(),
                k <= n,
                out@ == nonzero_entries(self.pairs().take(k as int)),
            decreases n - k,
        {
            let i = self.inds[k];
            let v = self.vals[k];
            proof {
                let pre = self.pairs().take(k as int);
                let nxt = self.pairs().take(k + 1);
                assert(nxt.drop_last() =~= pre);
                assert(nxt.last() == (self.inds@[k as int], self.vals@[k as int]));
                reveal_with_fuel(Seq::filter, 1);
                assert(nonzero_entries(nxt) == if v != 0i64 {
                    nonzero_entries(pre).push((i, v))
                } else {
                    nonzero_entries(pre)
                });
            }
            if v != 0 {
                out.push((i, v));
            }
            k = k + 1;
        }
        proof {
            assert(self.pairs().take(n as int) =~= self.pairs());
        }
        out
    }
}

/// A galloping cursor over a window of borrowed key/value arrays; the keys
/// need only be sorted inside the window, so a row slice of a larger matrix
/// can be streamed in place. Copying it duplicates only the window offsets,
/// giving an independent cursor over the same data.
#[derive(Debug, Clone, Copy)]
pub struct SparseVecGalloper<'a, T> {
    pub inds: &'a [usize],
    pub vals: &'a [T],
    pub cur: usize,
    pub end: usize,
}

/// A linear-scanning cursor over borrowed key/value arrays. Copying it
/// duplicates only the offset state.
#[derive(Debug, Clone, Copy)]
pub struct SparseVecIterator<'a, T> {
    pub inds: &'a [usize],
    pub vals: &'a [T],
    pub cur: usize,
}

impl<'a, T> SparseVecIterator<'a, T> {
    /// Wrap sorted parallel arrays as a linear stream at their first pair.
    pub fn new(inds: &'a [usize], vals: &'a [T]) -> (r: Self)
        requires
            strict_sorted(inds@),
            inds@.len() <= vals@.len(),
        ensures
            r == (SparseVecIterator { inds, vals, cur: 0usize }),
    {
        SparseVecIterator { inds, vals, cur: 0 }
    }
}

impl<'a, T> SparseVecGalloper<'a, T> {
    /// Wrap sorted parallel arrays as a galloping stream over all their
    /// pairs.
    pub fn new(inds: &'a [usize], vals: &'a [T]) -> (r: Self)
        requires
            strict_sorted(inds@),
            inds@.len() <= vals@.len(),
        ensures
            r == (SparseVecGalloper { inds, vals, cur: 0usize, end: inds@.len() as usize }),
    {
        SparseVecGalloper { inds, vals, cur: 0, end: inds.len() }
    }
}

impl<'a, T: Copy> IndexedStream for SparseVecGalloper<'a, T> {
    type V = T;

    open spec fn inv(&self) -> bool {
        self.cur <= self.end && self.end <= self.inds@.len() && self.end <= self.vals@.len()
            && window_sorted(self.inds@, self.cur, self.end)
    }

    open spec fn remaining(&self) -> Seq<(usize, T)> {
        pair_window_model(self.inds@, self.vals@, self.cur, self.end)
    }

    open spec fn size(&self) -> nat {
        (self.end - self.cur) as nat
    }

    open spec fn valid_spec(&self) -> bool {
        self.cur < self.end
    }

    open spec fn ready_spec(&self) -> bool {
        true
    }

    open spec fn index_spec(&self) -> usize {
        self.inds@[self.cur as int]
    }

    open spec fn value_spec(&self) -> T {
        self.vals@[self.cur as int]
    }

    proof fn lemma_inv(&self) {
        assert forall|k: int| 0 <= k < self.remaining().len() implies (#[trigger] self
            .remaining()[k]).0 >= self.index_spec() by {
            if k > 0 {
                assert(self.inds@[self.cur as int] < self.inds@[self.cur + k]);
            }
        }
    }

    fn valid(&self) -> bool {
        self.cur < self.end
    }

    fn ready(&self) -> bool {
        true
    }

    fn index(&self) -> usize {
        *vstd::slice::slice_index_get(self.inds, self.cur)
    }

    fn value(&self) -> T {
        *vstd::slice::slice_index_get(self.vals, self.cur)
    }

    fn seek(&mut self, target: usize, strict: bool) {
        let sub = vstd::slice::slice_subrange(self.inds, self.cur, self.end);
        let k = binary_search(sub, target, strict);
        let ghost pre = *self;
        self.cur = self.cur + k;
        proof {
            assert(forall|j: int|
                0 <= j < sub@.len() ==> #[trigger] sub@[j] == pre.inds@[pre.cur + j]);
            assert forall|j: int| pre.cur <= j < self.cur implies key_passed(
                #[trigger] pre.inds@[j],
                target,
                strict,
            ) by {
                assert(sub@[j - pre.cur] == pre.inds@[j]);
            }
            if self.cur == pre.cur {
                assert(sub@[0] == pre.inds@[pre.cur as int]);
            }
            lemma_window_cursor_seek(
                pre.inds@,
                pre.vals@,
                pre.cur,
                self.cur,
                pre.end,
                target,
                strict,
            );
        }
    }
}

impl<'a, T: Copy> EagerStream for SparseVecGalloper<'a, T> {
    proof fn lemma_eager(&self) {
    }
}

impl<'a, T: Copy> IndexedStream for SparseVecIterator<'a, T> {
    type V = T;

    open spec fn inv(&self) -> bool {
        self.cur <= self.inds@.len() && self.inds@.len() <= self.vals@.len() && strict_sorted(
            self.inds@,
        )
    }

    open spec fn remaining(&self) -> Seq<(usize, T)> {
        pair_stream_model(self.inds@, self.vals@, self.cur)
    }

    open spec fn size(&self) -> nat {
        (self.inds@.len() - self.cur) as nat
    }

    open spec fn valid_spec(&self) -> bool {
        self.cur < self.inds@.len()
    }

    open spec fn ready_spec(&self) -> bool {
        true
    }

    open spec fn index_spec(&self) -> usize {
        self.inds@[self.cur as int]
    }

    open spec fn value_spec(&self) -> T {
        self.vals@[self.cur as int]
    }

    proof fn lemma_inv(&self) {
        assert forall|k: int| 0 <= k < self.remaining().len() implies (#[trigger] self
            .remaining()[k]).0 >= self.index_spec() by {
            if k > 0 {
                assert(self.inds@[self.cur as int] < self.inds@[self.cur + k]);
            }
        }
    }

    fn valid(&self) -> bool {
        self.cur < self.inds.len()
    }

    fn ready(&self) -> bool {
        true
    }

    fn index(&self) -> usize {
        *vstd::slice::slice_index_get(self.inds, self.cur)
    }

    fn value(&self) -> T {
        *vstd::slice::slice_index_get(self.vals, self.cur)
    }

    fn seek(&mut self, target: usize, strict: bool) {
        let ghost pre = *self;
        let n = self.inds.len();
        while self.cur < n && lt_or_possibly_eq(
            *vstd::slice::slice_index_get(self.inds, self.cur),
            target,
            strict,
        )
            invariant
                pre.inv(),
                self.inds == pre.inds,
                self.vals == pre.vals,
                n == self.inds@.len(),
                pre.cur <= self.cur <= n,
                forall|j: int| pre.cur <= j < self.cur ==> key_passed(
                    #[trigger] pre.inds@[j],
                    target,
                    strict,
                ),
            decreases n - self.cur,
        {
            self.cur = self.cur + 1;
        }
        proof {
            lemma_pair_cursor_seek(pre.inds@, pre.vals@, pre.cur, self.cur, target, strict);
        }
    }
}

impl<'a, T: Copy> EagerStream for SparseVecIterator<'a, T> {
    proof fn lemma_eager(&self) {
    }
}

/// Moving a pair cursor from `cur` to `cur2` over passed positions meets the
/// seek contract.
proof fn lemma_pair_cursor_seek<T>(
    inds: Seq<usize>,
    vals: Seq<T>,
    cur: usize,
    cur2: usize,
    target: usize,
    strict: bool,
)
    requires
        strict_sorted(inds),
        cur < inds.len(),
        cur <= cur2 <= inds.len(),
        forall|j: int| cur <= j < cur2 ==> key_passed(#[trigger] inds[j], target, strict),
        cur2 == cur ==> !key_passed(inds[cur as int], target, strict),
    ensures
        advanced_to(
            pair_stream_model(inds, vals, cur2),
            pair_stream_model(inds, vals, cur),
            target,
            strict,
        ),
        seek_covers(target, strict, inds[cur as int], true) ==> cur2 > cur,
        strict && target == inds[cur as int] ==> pair_stream_model(inds, vals, cur2)
            == pair_stream_model(inds, vals, cur).drop_first(),
{
    let prev = pair_stream_model(inds, vals, cur);
    let next = pair_stream_model(inds, vals, cur2);
    let k: int = cur2 - cur;
    assert(next == prev.skip(k)) by {
        assert forall|j: int| 0 <= j < next.len() implies next[j] == prev.skip(k)[j] by {
            assert(next[j] == (inds[cur2 + j], vals[cur2 + j]));
            assert(prev.skip(k)[j] == prev[k + j]);
        }
        assert(next =~= prev.skip(k));
    }
    assert(forall|j: int| 0 <= j < k ==> key_passed((#[trigger] prev[j]).0, target, strict));
    if seek_covers(target, strict, inds[cur as int], true) {
        assert(key_passed(inds[cur as int], target, strict));
    }
    if strict && target == inds[cur as int] {
        assert(key_passed(inds[cur as int], target, strict));
        if k >= 2 {
            assert(inds[cur as int] < inds[cur + 1]);
            assert(key_passed(inds[cur + 1], target, strict));
            assert(false);
        }
        assert(next =~= prev.drop_first());
    }
}

/// Moving a windowed pair cursor from `cur` to `cur2` over passed positions
/// meets the seek contract.
proof fn lemma_window_cursor_seek<T>(
    inds: Seq<usize>,
    vals: Seq<T>,
    cur: usize,
    cur2: usize,
    end: usize,
    target: usize,
    strict: bool,
)
    requires
        window_sorted(inds, cur, end),
        cur < end,
        end <= inds.len(),
        cur <= cur2 <= end,
        forall|j: int| cur <= j < cur2 ==> key_passed(#[trigger] inds[j], target, strict),
        cur2 == cur ==> !key_passed(inds[cur as int], target, strict),
    ensures
        advanced_to(
            pair_window_model(inds, vals, cur2, end),
            pair_window_model(inds, vals, cur, end),
            target,
            strict,
        ),
        seek_covers(target, strict, inds[cur as int], true) ==> cur2 > cur,
        strict && target == inds[cur as int] ==> pair_window_model(inds, vals, cur2, end)
            == pair_window_model(inds, vals, cur, end).drop_first(),
{
    let prev = pair_window_model(inds, vals, cur, end);
    let next = pair_window_model(inds, vals, cur2, end);
    let k: int = cur2 - cur;
    assert(next == prev.skip(k)) by {
        assert forall|j: int| 0 <= j < next.len() implies next[j] == prev.skip(k)[j] by {
            assert(next[j] == (inds[cur2 + j], vals[cur2 + j]));
            assert(prev.skip(k)[j] == prev[k + j]);
        }
        assert(next =~= prev.skip(k));
    }
    assert(forall|j: int| 0 <= j < k ==> key_passed((#[trigger] prev[j]).0, target, strict));
    if seek_covers(target, strict, inds[cur as int], true) {
        assert(key_passed(inds[cur as int], target, strict));
    }
    if strict && target == inds[cur as int] {
        assert(key_passed(inds[cur as int], target, strict));
        if k >= 2 {
            assert(inds[cur as int] < inds[cur + 1]);
            assert(key_passed(inds[cur + 1], target, strict));
            assert(false);
        }
        assert(next =~= prev.drop_first());
    }
}

} // verus!
