//! Pointwise products: a scalar multiplication trait, the multiplying zip of
//! two scalar streams, and the product of a scalar stream with a functional
//! (broadcast) stream.

use vstd::prelude::*;
use crate::fun_stream::{FunStream, Broadcast};
use crate::csr_mat::{SparseCSRMat, nested_model, lemma_csr_rows_wf};
use crate::sparse_vec::SparseVec;
use crate::stream_defs::{
    key_passed, seek_covers, IndexedStream, sum_values, contract, stream_next,
};
use crate::zip_stream::{ZipStream, intersect_pairs, lemma_intersect_props, lemma_intersect_advance};

verus! {

/// Multiplication as streams use it: wrapping, with a specification function
/// that pins the product.
pub trait StreamMul<Rhs>: Sized {
    type Output;

    /// The product this multiplication yields.
    spec fn mul_spec(self, rhs: Rhs) -> Self::Output;

    /// Multiply.
    fn mul(self, rhs: Rhs) -> (r: Self::Output)
        ensures
            r == self.mul_spec(rhs),
    ;
}

impl StreamMul<i64> for i64 {
    type Output = i64;

    open spec fn mul_spec(self, rhs: i64) -> i64 {
        self.wrapping_mul(rhs)
    }

    fn mul(self, rhs: i64) -> i64 {
        self.wrapping_mul(rhs)
    }
}

/// The key-intersection of two scalar models with wrapping products as
/// values.
pub open spec fn mul_pairs(a: Seq<(usize, i64)>, b: Seq<(usize, i64)>) -> Seq<(usize, i64)> {
    intersect_pairs(a, b).map_values(|p: (usize, (i64, i64))| (p.0, p.1.0.wrapping_mul(p.1.1)))
}

proof fn lemma_mul_pairs_skip(a: Seq<(usize, (i64, i64))>, d: int)
    requires
        0 <= d <= a.len(),
    ensures
        a.skip(d).map_values(|p: (usize, (i64, i64))| (p.0, p.1.0.wrapping_mul(p.1.1))) == a
            .map_values(|p: (usize, (i64, i64))| (p.0, p.1.0.wrapping_mul(p.1.1))).skip(d),
{
    let g = |p: (usize, (i64, i64))| (p.0, p.1.0.wrapping_mul(p.1.1));
    assert(a.skip(d).map_values(g) =~= a.map_values(g).skip(d));
}

/// Multiply two scalar streams on equal indices: the intersection of their
/// keys carries the wrapping products of their values.
#[derive(Debug, Clone)]
pub struct MulStream<L, R> {
    pub left: L,
    pub right: R,
}

impl<L, R> MulStream<L, R> where L: IndexedStream<V = i64>, R: IndexedStream<V = i64> {
    /// Multiply two scalar streams pointwise on their shared keys.
    pub fn mul(left: L, right: R) -> (r: Self)
        requires
            left.inv(),
            right.inv(),
        ensures
            r == (MulStream { left, right }),
            r.inv(),
            r.remaining() == mul_pairs(left.remaining(), right.remaining()),
    {
        MulStream { left, right }
    }
}

impl<L, R> IndexedStream for MulStream<L, R> where
    L: IndexedStream<V = i64>,
    R: IndexedStream<V = i64>,
 {
    type V = i64;

    open spec fn inv(&self) -> bool {
        self.left.inv() && self.right.inv()
    }

    open spec fn remaining(&self) -> Seq<(usize, i64)> {
        mul_pairs(self.left.remaining(), self.right.remaining())
    }

    open spec fn size(&self) -> nat {
        self.left.size() + self.right.size()
    }

    open spec fn valid_spec(&self) -> bool {
        self.left.valid_spec() && self.right.valid_spec()
    }

    open spec fn ready_spec(&self) -> bool {
        self.left.ready_spec() && self.right.ready_spec() && self.left.index_spec()
            == self.right.index_spec()
    }

    open spec fn index_spec(&self) -> usize {
        if self.left.index_spec() >= self.right.index_spec() {
            self.left.index_spec()
        } else {
            self.right.index_spec()
        }
    }

    open spec fn value_spec(&self) -> i64 {
        self.left.value_spec().wrapping_mul(self.right.value_spec())
    }

    proof fn lemma_inv(&self) {
        self.left.lemma_inv();
        self.right.lemma_inv();
        let a = self.left.remaining();
        let b = self.right.remaining();
        let i = intersect_pairs(a, b);
        let s = self.remaining();
        lemma_intersect_props(a, b);
        assert(s.len() == i.len());
        assert(forall|k: int| 0 <= k < s.len() ==> (#[trigger] s[k]).0 == i[k].0);
        if self.valid_spec() {
            assert forall|k: int| 0 <= k < s.len() implies (#[trigger] s[k]).0
                >= self.index_spec() by {
                let i0 = choose|w: int| 0 <= w < a.len() && #[trigger] a[w] == (i[k].0, i[k].1.0);
                let j0 = choose|w: int| 0 <= w < b.len() && #[trigger] b[w] == (i[k].0, i[k].1.1);
                assert(a[i0].0 >= self.left.index_spec());
                assert(b[j0].0 >= self.right.index_spec());
            }
        }
        if self.valid_spec() && self.ready_spec() {
            assert(a[0] == (self.left.index_spec(), self.left.value_spec()));
            assert(b[0] == (self.right.index_spec(), self.right.value_spec()));
            assert(i == seq![(a[0].0, (a[0].1, b[0].1))] + intersect_pairs(
                a.drop_first(),
                b.drop_first(),
            ));
            assert(i[0] == (a[0].0, (a[0].1, b[0].1)));
            assert(s[0] == (self.index_spec(), self.value_spec()));
        }
    }

    fn valid(&self) -> bool {
        self.left.valid() && self.right.valid()
    }

    fn ready(&self) -> bool {
        self.left.ready() && self.right.ready() && self.left.index() == self.right.index()
    }

    fn index(&self) -> usize {
        let li = self.left.index();
        let ri = self.right.index();
        if li >= ri {
            li
        } else {
            ri
        }
    }

    fn value(&self) -> i64 {
        self.left.value().wrapping_mul(self.right.value())
    }

    fn seek(&mut self, target: usize, strict: bool) {
        proof {
            old(self).left.lemma_inv();
            old(self).right.lemma_inv();
        }
        self.left.seek(target, strict);
        self.right.seek(target, strict);
        proof {
            let pre = *old(self);
            let a = pre.left.remaining();
            let b = pre.right.remaining();
            let a2 = self.left.remaining();
            let b2 = self.right.remaining();
            lemma_intersect_advance(a, b, a2, b2, target, strict);
            let d = intersect_pairs(a, b).len() - intersect_pairs(a2, b2).len();
            assert(intersect_pairs(a2, b2) == intersect_pairs(a, b).skip(d));
            lemma_mul_pairs_skip(intersect_pairs(a, b), d);
            assert(forall|j: int|
                0 <= j < d ==> key_passed(
                    (#[trigger] intersect_pairs(a, b)[j]).0,
                    target,
                    strict,
                ));
            assert(forall|j: int|
                0 <= j < d ==> (#[trigger] mul_pairs(a, b)[j]).0 == intersect_pairs(a, b)[j].0);
            if seek_covers(target, strict, pre.index_spec(), pre.ready_spec()) {
                let li = pre.left.index_spec();
                let ri = pre.right.index_spec();
                if li < ri {
                    assert(seek_covers(target, strict, li, pre.left.ready_spec()));
                } else if ri < li {
                    assert(seek_covers(target, strict, ri, pre.right.ready_spec()));
                } else {
                    if li < target || (li == target && strict) {
                        assert(seek_covers(target, strict, li, pre.left.ready_spec()));
                    } else {
                        assert(!pre.left.ready_spec() || !pre.right.ready_spec());
                    }
                }
            }
            if strict && pre.ready_spec() && target == pre.index_spec() {
                assert(a2 == a.drop_first());
                assert(b2 == b.drop_first());
                assert(a[0] == (pre.left.index_spec(), pre.left.value_spec()));
                assert(b[0] == (pre.right.index_spec(), pre.right.value_spec()));
                let head = (a[0].0, (a[0].1, b[0].1));
                let rest = intersect_pairs(a.drop_first(), b.drop_first());
                assert(intersect_pairs(a, b) == seq![head] + rest);
                assert((seq![head] + rest).drop_first() =~= rest);
                lemma_mul_pairs_skip(intersect_pairs(a, b), 1);
                assert(intersect_pairs(a, b).skip(1) =~= rest);
                assert(mul_pairs(a, b).skip(1) =~= mul_pairs(a, b).drop_first());
            }
        }
    }
}

/// The left model with every value multiplied by what the functional stream
/// holds at its key.
pub open spec fn mul_fun_pairs<R: FunStream<V = i64>>(a: Seq<(usize, i64)>, f: R) -> Seq<
    (usize, i64),
> {
    a.map_values(|p: (usize, i64)| (p.0, p.1.wrapping_mul(f.value_spec(p.0))))
}

proof fn lemma_mul_fun_pairs_skip<R: FunStream<V = i64>>(a: Seq<(usize, i64)>, f: R, d: int)
    requires
        0 <= d <= a.len(),
    ensures
        mul_fun_pairs(a.skip(d), f) == mul_fun_pairs(a, f).skip(d),
{
    assert(mul_fun_pairs(a.skip(d), f) =~= mul_fun_pairs(a, f).skip(d));
}

/// Multiply a scalar stream with a functional stream: the left stream drives
/// the iteration, and each value is scaled by the functional stream's value
/// at the same index.
#[derive(Debug, Clone)]
pub struct MulFunStream<L, R> {
    pub left: L,
    pub right: R,
}

impl<L, R> MulFunStream<L, R> where L: IndexedStream<V = i64>, R: FunStream<V = i64> {
    /// Scale a scalar stream by a functional stream.
    pub fn mul(left: L, right: R) -> (r: Self)
        requires
            left.inv(),
        ensures
            r == (MulFunStream { left, right }),
            r.inv(),
            r.remaining() == mul_fun_pairs(left.remaining(), right),
    {
        MulFunStream { left, right }
    }
}

impl<L, R> IndexedStream for MulFunStream<L, R> where
    L: IndexedStream<V = i64>,
    R: FunStream<V = i64>,
 {
    type V = i64;

    open spec fn inv(&self) -> bool {
        self.left.inv()
    }

    open spec fn remaining(&self) -> Seq<(usize, i64)> {
        mul_fun_pairs(self.left.remaining(), self.right)
    }

    open spec fn size(&self) -> nat {
        self.left.size()
    }

    open spec fn valid_spec(&self) -> bool {
        self.left.valid_spec()
    }

    open spec fn ready_spec(&self) -> bool {
        self.left.ready_spec()
    }

    open spec fn index_spec(&self) -> usize {
        self.left.index_spec()
    }

    open spec fn value_spec(&self) -> i64 {
        self.left.value_spec().wrapping_mul(self.right.value_spec(self.left.index_spec()))
    }

    proof fn lemma_inv(&self) {
        self.left.lemma_inv();
        let a = self.left.remaining();
        let s = self.remaining();
        assert(forall|k: int| 0 <= k < s.len() ==> (#[trigger] s[k]).0 == a[k].0);
        if self.valid_spec() && self.ready_spec() {
            assert(a[0] == (self.left.index_spec(), self.left.value_spec()));
            assert(s[0] == (self.index_spec(), self.value_spec()));
        }
    }

    fn valid(&self) -> bool {
        self.left.valid()
    }

    fn ready(&self) -> bool {
        self.left.ready()
    }

    fn index(&self) -> usize {
        self.left.index()
    }

    fn value(&self) -> i64 {
        let i = self.left.index();
        self.left.value().wrapping_mul(self.right.value(&i))
    }

    fn seek(&mut self, target: usize, strict: bool) {
        proof {
            old(self).left.lemma_inv();
        }
        self.left.seek(target, strict);
        proof {
            let pre = *old(self);
            let a = pre.left.remaining();
            let a2 = self.left.remaining();
            let d = a.len() - a2.len();
            assert(self.right == pre.right);
            lemma_mul_fun_pairs_skip(a, pre.right, d);
            assert(a2 == a.skip(d));
            assert(mul_fun_pairs(a2, pre.right) == mul_fun_pairs(a, pre.right).skip(d));
            assert(forall|j: int|
                0 <= j < d ==> (#[trigger] mul_fun_pairs(a, pre.right)[j]).0 == a[j].0);
            if strict && pre.ready_spec() && target == pre.index_spec() {
                assert(a2 == a.drop_first());
                lemma_mul_fun_pairs_skip(a, pre.right, 1);
                assert(a.skip(1) =~= a.drop_first());
                assert(mul_fun_pairs(a, pre.right).skip(1) =~= mul_fun_pairs(
                    a,
                    pre.right,
                ).drop_first());
            }
        }
    }
}

/// Every entry of `s` with its value multiplied (wrapping) by `v1`.
pub open spec fn scaled_values(s: Seq<(usize, i64)>, v1: i64) -> Seq<(usize, i64)> {
    s.map_values(|p: (usize, i64)| (p.0, p.1.wrapping_mul(v1)))
}

/// The reference sum of products of one row pair, accumulated onto `acc`:
/// each left value contributes the sum of all right values scaled by it.
pub open spec fn cross_sum_from(acc: i64, ra: Seq<(usize, i64)>, rb: Seq<(usize, i64)>) -> i64
    decreases ra.len(),
{
    if ra.len() == 0 {
        acc
    } else {
        cross_sum_from(
            acc.wrapping_add(sum_values(scaled_values(rb, ra[0].1))),
            ra.drop_first(),
            rb,
        )
    }
}

/// The reference sum of products over row-aligned row pairs, accumulated in
/// row order.
pub open spec fn matmul_sum_from(
    acc: i64,
    m: Seq<(usize, (Seq<(usize, i64)>, Seq<(usize, i64)>))>,
) -> i64
    decreases m.len(),
{
    if m.len() == 0 {
        acc
    } else {
        matmul_sum_from(cross_sum_from(acc, m[0].1.0, m[0].1.1), m.drop_first())
    }
}

/// The rows of a CSR matrix, each row id paired with its (column, value)
/// pairs.
pub open spec fn csr_rows_model<T>(m: SparseCSRMat<T>) -> Seq<(usize, Seq<(usize, T)>)> {
    Seq::new((m.nrows()) as nat, |r: int| ((r) as usize, m.row_pairs(r)))
}

/// The models of a zipped pair of nested streams: each pair of row cursors
/// taken to the pair of their models.
pub open spec fn zipped_rows_model<SA: IndexedStream, SB: IndexedStream>(
    s: Seq<(usize, (SA, SB))>,
) -> Seq<(usize, (Seq<(usize, SA::V)>, Seq<(usize, SB::V)>))> {
    s.map_values(|p: (usize, (SA, SB))| (p.0, (p.1.0.remaining(), p.1.1.remaining())))
}

/// Taking row models commutes with zipping: the model of an intersection of
/// nested streams is the intersection of their models.
proof fn lemma_zipped_rows_model<SA: IndexedStream, SB: IndexedStream>(
    a: Seq<(usize, SA)>,
    b: Seq<(usize, SB)>,
)
    ensures
        zipped_rows_model(intersect_pairs(a, b)) == intersect_pairs(
            nested_model(a),
            nested_model(b),
        ),
    decreases a.len() + b.len(),
{
    let na = nested_model(a);
    let nb = nested_model(b);
    if a.len() == 0 || b.len() == 0 {
        assert(zipped_rows_model(intersect_pairs(a, b)) =~= intersect_pairs(na, nb));
    } else if a[0].0 < b[0].0 {
        lemma_zipped_rows_model(a.drop_first(), b);
        assert(na.drop_first() =~= nested_model(a.drop_first()));
        assert(intersect_pairs(na, nb) == intersect_pairs(nested_model(a.drop_first()), nb));
    } else if b[0].0 < a[0].0 {
        lemma_zipped_rows_model(a, b.drop_first());
        assert(nb.drop_first() =~= nested_model(b.drop_first()));
        assert(intersect_pairs(na, nb) == intersect_pairs(na, nested_model(b.drop_first())));
    } else {
        lemma_zipped_rows_model(a.drop_first(), b.drop_first());
        assert(na.drop_first() =~= nested_model(a.drop_first()));
        assert(nb.drop_first() =~= nested_model(b.drop_first()));
        assert(zipped_rows_model(intersect_pairs(a, b)) =~= seq![
            (a[0].0, (a[0].1.remaining(), b[0].1.remaining())),
        ] + zipped_rows_model(intersect_pairs(a.drop_first(), b.drop_first())));
        assert(intersect_pairs(na, nb) == seq![(na[0].0, (na[0].1, nb[0].1))] + intersect_pairs(
            nested_model(a.drop_first()),
            nested_model(b.drop_first()),
        ));
    }
}

/// Matmul correctness: the fused pipeline over two CSR matrices — rows
/// joined on their id, every pair of shared rows contracted by multiplying
/// each left value with the broadcast-scaled right row — equals the
/// reference sum of products over the matrices' row models.
pub fn matmul_contract(a: &SparseCSRMat<i64>, b: &SparseCSRMat<i64>) -> (r: i64)
    requires
        a.wf(),
        b.wf(),
    ensures
        r == matmul_sum_from(
            0i64,
            intersect_pairs(csr_rows_model(*a), csr_rows_model(*b)),
        ),
{
    let ita = a.into_stream_iterator();
    let itb = b.into_stream_iterator();
    proof {
        lemma_csr_rows_wf(ita);
        lemma_csr_rows_wf(itb);
        assert(nested_model(ita.remaining()) =~= csr_rows_model(*a));
        assert(nested_model(itb.remaining()) =~= csr_rows_model(*b));
        lemma_zipped_rows_model(ita.remaining(), itb.remaining());
    }
    let mut z = ZipStream::new(ita, itb);
    let ghost orig = zipped_rows_model(z.remaining());
    let mut acc: i64 = 0;
    while z.valid()
        invariant
            z.inv(),
            matmul_sum_from(acc, zipped_rows_model(z.remaining())) == matmul_sum_from(0i64, orig),
        decreases z.size(),
    {
        proof {
            z.lemma_inv();
        }
        if z.ready() {
            let (ra, rb) = z.value();
            let ghost zm = zipped_rows_model(z.remaining());
            proof {
                assert(z.remaining()[0] == (z.index_spec(), z.value_spec()));
                assert(zm[0] == (z.index_spec(), (ra.remaining(), rb.remaining())));
                z.left.lemma_inv();
                z.right.lemma_inv();
            }
            let ghost rbm = rb.remaining();
            let ghost ra0 = ra.remaining();
            let mut rs = ra;
            let mut acc2: i64 = acc;
            proof {
                assert(cross_sum_from(acc2, rs.remaining(), rbm) == cross_sum_from(
                    acc,
                    ra0,
                    rbm,
                ));
            }
            while rs.valid()
                invariant
                    rs.inv(),
                    rb.inv(),
                    rbm == rb.remaining(),
                    cross_sum_from(acc2, rs.remaining(), rbm) == cross_sum_from(acc, ra0, rbm),
                decreases rs.size(),
            {
                proof {
                    rs.lemma_inv();
                }
                if rs.ready() {
                    let v1 = rs.value();
                    let ghost rsm = rs.remaining();
                    stream_next(&mut rs);
                    let scaled = MulFunStream::mul(rb, Broadcast::new(v1));
                    let part = contract(scaled);
                    proof {
                        assert(mul_fun_pairs(rbm, Broadcast { value: v1 }) =~= scaled_values(
                            rbm,
                            v1,
                        ));
                        assert(rsm[0].1 == v1);
                    }
                    acc2 = acc2.wrapping_add(part);
                } else {
                    stream_next(&mut rs);
                }
            }
            proof {
                rs.lemma_inv();
                assert(rs.remaining().len() == 0);
            }
            acc = acc2;
            stream_next(&mut z);
            proof {
                assert(zipped_rows_model(z.remaining()) =~= zm.drop_first());
            }
        } else {
            stream_next(&mut z);
        }
    }
    proof {
        z.lemma_inv();
        assert(zipped_rows_model(z.remaining()).len() == 0);
    }
    acc
}

/// Matrix–vector product, densely padded: entry `row` of the result is the
/// contraction of row `row` multiplied pointwise with the vector.
pub fn csr_matvec(a: &SparseCSRMat<i64>, x: &SparseVec<i64>) -> (r: Vec<i64>)
    requires
        a.wf(),
        x.wf(),
    ensures
        r@.len() == a.nrows(),
        forall|row: int|
            0 <= row < a.nrows() ==> #[trigger] r@[row] == sum_values(
                mul_pairs(a.row_pairs(row), x.pairs()),
            ),
{
    let mut out: Vec<i64> = Vec::new();
    let mut it = a.into_stream_iterator();
    proof {
        lemma_csr_rows_wf(it);
        assert(nested_model(it.remaining()) =~= csr_rows_model(*a));
    }
    while it.valid()
        invariant
            x.wf(),
            it.inv(),
            out@.len() + it.remaining().len() == a.nrows(),
            nested_model(it.remaining()) == csr_rows_model(*a).skip(out@.len() as int),
            forall|k: int|
                0 <= k < it.remaining().len() ==> (#[trigger] it.remaining()[k]).1.inv(),
            forall|row: int|
                0 <= row < out@.len() ==> #[trigger] out@[row] == sum_values(
                    mul_pairs(a.row_pairs(row), x.pairs()),
                ),
        decreases it.size(),
    {
        proof {
            it.lemma_inv();
        }
        let g = it.value();
        let ghost row = out@.len() as int;
        proof {
            assert(it.remaining()[0] == (it.index_spec(), it.value_spec()));
            assert(nested_model(it.remaining())[0] == (it.index_spec(), g.remaining()));
            assert(csr_rows_model(*a)[row] == ((row) as usize, a.row_pairs(row)));
            assert(g.remaining() == a.row_pairs(row));
            assert(g.inv());
        }
        let ms = MulStream::mul(g, x.stream_iter());
        let v = contract(ms);
        out.push(v);
        let ghost pre = it.remaining();
        stream_next(&mut it);
        proof {
            assert(nested_model(it.remaining()) =~= nested_model(pre).drop_first());
            assert(nested_model(pre).drop_first() =~= csr_rows_model(*a).skip(out@.len() as int));
        }
    }
    proof {
        it.lemma_inv();
    }
    out
}

} // verus!
