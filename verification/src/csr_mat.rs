//! Compressed sparse row matrices: a row-pointer array, flat column and
//! value arrays, a stream of (row, row-cursor) pairs over them, and the
//! collector that materializes such a nested stream back into a matrix.

use vstd::prelude::*;
use crate::sparse_vec::{SparseVecGalloper, pair_window_model, window_sorted};
use crate::stream_defs::{key_passed, keys_of, IndexedStream, EagerStream, stream_next};

verus! {

/// The values of an emission sequence, in order.
pub open spec fn vals_of<T>(s: Seq<(usize, T)>) -> Seq<T> {
    s.map_values(|p: (usize, T)| p.1)
}

/// Entries strictly sorted by row, then column.
pub open spec fn triples_sorted<T>(s: Seq<(usize, usize, T)>) -> bool {
    forall|i: int, j: int|
        0 <= i < j < s.len() ==> (#[trigger] s[i]).0 < (#[trigger] s[j]).0 || (s[i].0 == s[j].0
            && s[i].1 < s[j].1)
}

/// How many leading entries lie in rows strictly below `r`; for row-sorted
/// entries this is where row `r` starts in the flat arrays.
pub open spec fn count_rows_below<T>(s: Seq<(usize, usize, T)>, r: int) -> int
    decreases s.len(),
{
    if s.len() == 0 {
        0
    } else if s[0].0 < r {
        1 + count_rows_below(s.drop_first(), r)
    } else {
        0
    }
}

proof fn lemma_count_split<T>(s: Seq<(usize, usize, T)>, r: int, k: int)
    requires
        0 <= k <= s.len(),
        forall|j: int| 0 <= j < k ==> (#[trigger] s[j]).0 < r,
        forall|j: int| k <= j < s.len() ==> (#[trigger] s[j]).0 >= r,
    ensures
        count_rows_below(s, r) == k,
    decreases s.len(),
{
    if s.len() == 0 {
    } else if s[0].0 < r {
        assert(k >= 1);
        lemma_count_split(s.drop_first(), r, k - 1);
    } else {
        assert(k == 0);
    }
}

/// A sorted CSR matrix: `rows` holds the running entry count at the start of
/// each row plus a final sentinel; `cols` and `vals` hold the entries, with
/// columns strictly increasing inside each row.
#[derive(Debug, Clone, PartialEq, Eq)]
pub struct SparseCSRMat<T> {
    pub rows: Vec<usize>,
    pub cols: Vec<usize>,
    pub vals: Vec<T>,
}

impl<T> SparseCSRMat<T> {
    /// Well-formedness of the CSR layout.
    pub open spec fn wf(&self) -> bool {
        &&& self.rows@.len() >= 1
        &&& self.rows@[0] == 0
        &&& self.rows@.last() == self.cols@.len()
        &&& self.cols@.len() == self.vals@.len()
        &&& forall|r: int|
            0 <= r < self.rows@.len() - 1 ==> #[trigger] self.rows@[r] <= self.rows@[r + 1]
        &&& forall|r: int| 0 <= r < self.rows@.len() ==> #[trigger] self.rows@[r] <= self.cols@.len()
        &&& forall|r: int|
            0 <= r < self.rows@.len() - 1 ==> window_sorted(
                self.cols@,
                #[trigger] self.rows@[r],
                self.rows@[r + 1],
            )
    }

    /// The number of rows.
    pub open spec fn nrows(&self) -> int {
        self.rows@.len() - 1
    }

    /// The (column, value) pairs of row `r`.
    pub open spec fn row_pairs(&self, r: int) -> Seq<(usize, T)> {
        pair_window_model(self.cols@, self.vals@, self.rows@[r], self.rows@[r + 1])
    }

    /// The number of rows.
    pub fn rows(&self) -> (r: usize)
        requires
            self.wf(),
        ensures
            r == self.nrows(),
    {
        self.rows.len() - 1
    }

    /// A CSR matrix with no rows and no entries.
    pub fn empty() -> (r: Self)
        ensures
            r.wf(),
            r.nrows() == 0,
            r.rows@ == seq![0usize],
            r.cols@ == Seq::<usize>::empty(),
            r.vals@ == Seq::<T>::empty(),
    {
        let mut rows: Vec<usize> = Vec::new();
        rows.push(0);
        proof {
            assert(rows@ =~= seq![0usize]);
        }
        SparseCSRMat { rows, cols: Vec::new(), vals: Vec::new() }
    }

    /// A CSR matrix with no rows yet, with room reserved for `rows` rows and
    /// `capacity` entries.
    pub fn with_capacity(rows: usize, capacity: usize) -> (r: Self)
        ensures
            r.wf(),
            r.nrows() == 0,
            r.rows@ == seq![0usize],
            r.cols@ == Seq::<usize>::empty(),
            r.vals@ == Seq::<T>::empty(),
    {
        let cap = if rows < usize::MAX {
            rows + 1
        } else {
            rows
        };
        let mut row_ptrs: Vec<usize> = Vec::with_capacity(cap);
        row_ptrs.push(0);
        proof {
            assert(row_ptrs@ =~= seq![0usize]);
        }
        SparseCSRMat {
            rows: row_ptrs,
            cols: Vec::with_capacity(capacity),
            vals: Vec::with_capacity(capacity),
        }
    }
}

impl<T: Copy> SparseCSRMat<T> {
    /// Build a CSR matrix from (row, column, value) triples sorted by row,
    /// then column: `rows[i]` records the prefix count at the start of row
    /// `i`, closed by a final sentinel.
    pub fn from_iter(entries: Vec<(usize, usize, T)>) -> (r: Self)
        requires
            triples_sorted(entries@),
        ensures
            r.wf(),
            r.nrows() == (if entries@.len() == 0 {
                0int
            } else {
                entries@.last().0 + 1
            }),
            r.cols@ == entries@.map_values(|e: (usize, usize, T)| e.1),
            r.vals@ == entries@.map_values(|e: (usize, usize, T)| e.2),
            forall|rr: int|
                0 <= rr < r.rows@.len() ==> #[trigger] r.rows@[rr] == count_rows_below(
                    entries@,
                    rr,
                ),
    {
        let mut rows: Vec<usize> = Vec::new();
        let mut cols: Vec<usize> = Vec::new();
        let mut vals: Vec<T> = Vec::new();
        let n = entries.len();
        let mut k: usize = 0;
        while k < n
            invariant
                n == entries@.len(),
                k <= n,
                triples_sorted(entries@),
                cols@.len() == k,
                vals@.len() == k,
                forall|j: int| 0 <= j < k ==> #[trigger] cols@[j] == entries@[j].1,
                forall|j: int| 0 <= j < k ==> #[trigger] vals@[j] == entries@[j].2,
                rows@.len() == (if k == 0 {
                    0int
                } else {
                    entries@[k - 1].0 + 1
                }),
                forall|rr: int|
                    0 <= rr < rows@.len() ==> #[trigger] rows@[rr] == count_rows_below(
                        entries@,
                        rr,
                    ),
            decreases n - k,
        {
            let (row, col, val) = entries[k];
            while rows.len() <= row
                invariant
                    n == entries@.len(),
                    k < n,
                    triples_sorted(entries@),
                    cols@.len() == k,
                    (entries@[k as int].0, entries@[k as int].1) == (row, col),
                    rows@.len() <= row + 1,
                    k > 0 ==> rows@.len() >= entries@[k - 1].0 + 1,
                    forall|rr: int|
                        0 <= rr < rows@.len() ==> #[trigger] rows@[rr] == count_rows_below(
                            entries@,
                            rr,
                        ),
                decreases row + 1 - rows.len(),
            {
                let c = cols.len();
                let ghost rr = rows@.len() as int;
                rows.push(c);
                proof {
                    assert forall|j: int| 0 <= j < k implies (#[trigger] entries@[j]).0 < rr by {
                        if k > 0 && j < k {
                            assert(entries@[j].0 < entries@[k - 1].0 || (entries@[j].0
                                == entries@[k - 1].0 && j <= k - 1));
                            assert(entries@[j].0 <= entries@[k - 1].0);
                        }
                    }
                    assert forall|j: int| k <= j < n implies (#[trigger] entries@[j]).0 >= rr by {
                        assert(entries@[k as int].0 <= entries@[j].0);
                    }
                    lemma_count_split(entries@, rr, k as int);
                }
            }
            cols.push(col);
            vals.push(val);
            k = k + 1;
        }
        let c = cols.len();
        let ghost rr_last = rows@.len() as int;
        rows.push(c);
        proof {
            assert forall|j: int| 0 <= j < n implies (#[trigger] entries@[j]).0 < rr_last by {
                if n > 0 {
                    assert(entries@[j].0 <= entries@[n - 1].0);
                }
            }
            lemma_count_split(entries@, rr_last, n as int);
        }
        let r = SparseCSRMat { rows, cols, vals };
        proof {
            assert(r.cols@ =~= entries@.map_values(|e: (usize, usize, T)| e.1));
            assert(r.vals@ =~= entries@.map_values(|e: (usize, usize, T)| e.2));
            lemma_counts_give_wf(entries@, r);
        }
        r
    }

    /// A stream of (row id, row cursor) pairs over this matrix.
    pub fn into_stream_iterator(&self) -> (r: SparseCSRMatIterator<'_, T>)
        requires
            self.wf(),
        ensures
            r.inv(),
            r.cur == 0,
            r.rows@ == self.rows@,
            r.cols@ == self.cols@,
            r.vals@ == self.vals@,
    {
        // read the length once so its machine bound is in scope
        let _n = self.rows.len();
        SparseCSRMatIterator {
            rows: self.rows.as_slice(),
            cols: self.cols.as_slice(),
            vals: self.vals.as_slice(),
            cur: 0,
        }
    }

    /// Materialize a nested stream of (row, column-value stream) pairs as a
    /// CSR matrix.
    pub fn from_stream_iterator<SV, S>(s: S) -> (r: Self) where
        SV: IndexedStream<V = T>,
        S: IndexedStream<V = SV>,

        requires
            s.inv(),
            forall|k: int| 0 <= k < s.remaining().len() ==> (#[trigger] s.remaining()[k]).1.inv(),
        ensures
            (r.rows@, r.cols@, r.vals@) == csr_extend(
                nested_model(s.remaining()),
                seq![0usize],
                Seq::<usize>::empty(),
                Seq::<T>::empty(),
            ),
    {
        let mut r = SparseCSRMat::empty();
        r.extend_from_stream_iterator(s);
        r
    }

    /// Drain a nested stream of (row, column-value stream) pairs onto this
    /// matrix: gaps before each streamed row are filled with repeated prefix
    /// counts, each row's entries go to the flat arrays, and a sentinel
    /// closes each row.
    pub fn extend_from_stream_iterator<SV, S>(&mut self, s: S) where
        SV: IndexedStream<V = T>,
        S: IndexedStream<V = SV>,

        requires
            old(self).rows@.len() >= 1,
            old(self).rows@.last() == old(self).cols@.len(),
            old(self).cols@.len() == old(self).vals@.len(),
            s.inv(),
            forall|k: int| 0 <= k < s.remaining().len() ==> (#[trigger] s.remaining()[k]).1.inv(),
        ensures
            (final(self).rows@, final(self).cols@, final(self).vals@) == csr_extend(
                nested_model(s.remaining()),
                old(self).rows@,
                old(self).cols@,
                old(self).vals@,
            ),
    {
        let ghost orig = nested_model(s.remaining());
        let ghost rows0 = old(self).rows@;
        let ghost cols0 = old(self).cols@;
        let ghost vals0 = old(self).vals@;
        proof {
            s.lemma_inv();
        }
        let mut st = s;
        while st.valid()
            invariant
                st.inv(),
                self.rows@.len() >= 1,
                self.cols@.len() == self.vals@.len(),
                forall|k: int|
                    0 <= k < st.remaining().len() ==> (#[trigger] st.remaining()[k]).1.inv(),
                csr_extend(nested_model(st.remaining()), self.rows@, self.cols@, self.vals@)
                    == csr_extend(orig, rows0, cols0, vals0),
            decreases st.size(),
        {
            proof {
                st.lemma_inv();
            }
            if st.ready() {
                let ghost pre_model = nested_model(st.remaining());
                let ghost rows_in = self.rows@;
                let ghost cols_in = self.cols@;
                let ghost vals_in = self.vals@;
                let i = st.index();
                let v = st.value();
                proof {
                    assert(st.remaining()[0] == (st.index_spec(), st.value_spec()));
                    assert(pre_model[0] == (i, v.remaining()));
                }
                stream_next(&mut st);
                proof {
                    assert(nested_model(st.remaining()) =~= pre_model.drop_first());
                }
                // fill skipped rows with the running prefix count
                let cnt_e = self.cols.len();
                while self.rows.len() <= i
                    invariant
                        self.cols@ == cols_in,
                        self.vals@ == vals_in,
                        cnt_e == cols_in.len(),
                        rows_in.len() >= 1,
                        rows_in.len() <= self.rows@.len(),
                        self.rows@.len() <= i + 1 || self.rows@ == rows_in,
                        self.rows@ == pad_rows(rows_in, self.rows@.len() as int, cnt_e),
                    decreases i + 1 - self.rows.len(),
                {
                    self.rows.push(cnt_e);
                    proof {
                        assert(self.rows@ =~= pad_rows(rows_in, self.rows@.len() as int, cnt_e));
                    }
                }
                proof {
                    assert(self.rows@ =~= pad_rows(rows_in, i + 1, cnt_e));
                    assert((cols_in.len()) as usize == cnt_e);
                }
                // drain the row's entries into the flat arrays
                let ghost inner_orig = v.remaining();
                let ghost cols_pad = self.cols@;
                let ghost vals_pad = self.vals@;
                let mut inner = v;
                proof {
                    inner.lemma_inv();
                }
                while inner.valid()
                    invariant
                        inner.inv(),
                        cnt_e == cols_in.len(),
                        rows_in.len() >= 1,
                        self.rows@ == pad_rows(rows_in, i + 1, cnt_e),
                        cols_pad == cols_in,
                        vals_pad == vals_in,
                        self.cols@ + keys_of(inner.remaining()) == cols_pad + keys_of(inner_orig),
                        self.vals@ + vals_of(inner.remaining()) == vals_pad + vals_of(inner_orig),
                    decreases inner.size(),
                {
                    proof {
                        inner.lemma_inv();
                    }
                    if inner.ready() {
                        let ghost prem = inner.remaining();
                        let ghost cols_prev = self.cols@;
                        let ghost vals_prev = self.vals@;
                        let j = inner.index();
                        let x = inner.value();
                        proof {
                            assert(prem[0] == (j, x));
                        }
                        stream_next(&mut inner);
                        self.cols.push(j);
                        self.vals.push(x);
                        proof {
                            assert(keys_of(inner.remaining()) =~= keys_of(prem).drop_first());
                            assert(keys_of(prem)[0] == j);
                            assert(self.cols@ + keys_of(inner.remaining()) =~= cols_prev + keys_of(
                                prem,
                            ));
                            assert(vals_of(inner.remaining()) =~= vals_of(prem).drop_first());
                            assert(vals_of(prem)[0] == x);
                            assert(self.vals@ + vals_of(inner.remaining()) =~= vals_prev + vals_of(
                                prem,
                            ));
                        }
                    } else {
                        stream_next(&mut inner);
                    }
                }
                proof {
                    inner.lemma_inv();
                    assert(self.cols@ =~= cols_pad + keys_of(inner_orig));
                    assert(self.vals@ =~= vals_pad + vals_of(inner_orig));
                }
                // close the row with its sentinel
                let c = self.cols.len();
                self.rows.push(c);
                proof {
                    let stepped = csr_extend_step(pre_model[0], rows_in, cols_in, vals_in);
                    assert(self.rows@ =~= stepped.0);
                    assert(self.cols@ =~= stepped.1);
                    assert(self.vals@ =~= stepped.2);
                    assert(csr_extend(pre_model, rows_in, cols_in, vals_in) == csr_extend(
                        pre_model.drop_first(),
                        stepped.0,
                        stepped.1,
                        stepped.2,
                    ));
                }
            } else {
                stream_next(&mut st);
            }
        }
        proof {
            st.lemma_inv();
            assert(nested_model(st.remaining()).len() == 0);
        }
    }
}

/// The outer model of a nested stream: each (row, inner stream) pair taken
/// to (row, inner model).
pub open spec fn nested_model<SV: IndexedStream>(s: Seq<(usize, SV)>) -> Seq<
    (usize, Seq<(usize, SV::V)>),
> {
    s.map_values(|p: (usize, SV)| (p.0, p.1.remaining()))
}

/// `rows` extended with copies of `cnt` until it has `upto` entries.
pub open spec fn pad_rows(rows: Seq<usize>, upto: int, cnt: usize) -> Seq<usize> {
    if rows.len() >= upto {
        rows
    } else {
        rows + Seq::new((upto - rows.len()) as nat, |x: int| cnt)
    }
}

/// One collector step: pad up to the row, append its entries, close it with
/// a sentinel.
pub open spec fn csr_extend_step<T>(
    entry: (usize, Seq<(usize, T)>),
    rows: Seq<usize>,
    cols: Seq<usize>,
    vals: Seq<T>,
) -> (Seq<usize>, Seq<usize>, Seq<T>) {
    let padded = pad_rows(rows, entry.0 + 1, cols.len() as usize);
    (
        padded.push((cols.len() + entry.1.len()) as usize),
        cols + keys_of(entry.1),
        vals + vals_of(entry.1),
    )
}

/// What draining a nested stream model does to a CSR accumulator.
pub open spec fn csr_extend<T>(
    model: Seq<(usize, Seq<(usize, T)>)>,
    rows: Seq<usize>,
    cols: Seq<usize>,
    vals: Seq<T>,
) -> (Seq<usize>, Seq<usize>, Seq<T>)
    decreases model.len(),
{
    if model.len() == 0 {
        (rows, cols, vals)
    } else {
        let stepped = csr_extend_step(model[0], rows, cols, vals);
        csr_extend(model.drop_first(), stepped.0, stepped.1, stepped.2)
    }
}

/// A CSR matrix whose row pointers are the prefix counts of sorted triples
/// is well-formed.
proof fn lemma_counts_give_wf<T>(entries: Seq<(usize, usize, T)>, m: SparseCSRMat<T>)
    requires
        triples_sorted(entries),
        m.cols@ == entries.map_values(|e: (usize, usize, T)| e.1),
        m.vals@ == entries.map_values(|e: (usize, usize, T)| e.2),
        m.rows@.len() >= 1,
        forall|rr: int|
            0 <= rr < m.rows@.len() ==> #[trigger] m.rows@[rr] == count_rows_below(entries, rr),
        m.rows@.last() == entries.len(),
    ensures
        m.wf(),
{
    assert forall|rr: int| 0 <= rr < m.rows@.len() implies {
        &&& 0 <= #[trigger] m.rows@[rr] <= entries.len()
        &&& forall|j: int| 0 <= j < m.rows@[rr] ==> (#[trigger] entries[j]).0 < rr
        &&& forall|j: int| m.rows@[rr] <= j < entries.len() ==> (#[trigger] entries[j]).0 >= rr
    } by {
        lemma_count_bounds(entries, rr);
    }
    assert(m.rows@[0] == 0) by {
        lemma_count_bounds(entries, 0);
        if m.rows@[0] > 0 {
            assert(entries[0].0 < 0);
        }
    }
    assert forall|r: int| 0 <= r < m.rows@.len() - 1 implies #[trigger] m.rows@[r] <= m.rows@[r
        + 1] by {
        if m.rows@[r] > m.rows@[r + 1] {
            let j = m.rows@[r + 1] as int;
            assert(entries[j].0 < r);
            assert(entries[j].0 >= r + 1);
        }
    }
    assert forall|r: int| 0 <= r < m.rows@.len() - 1 implies window_sorted(
        m.cols@,
        #[trigger] m.rows@[r],
        m.rows@[r + 1],
    ) by {
        assert forall|i: int, j: int|
            m.rows@[r] <= i < j < m.rows@[r + 1] implies #[trigger] m.cols@[i]
            < #[trigger] m.cols@[j] by {
            assert(entries[i].0 >= r && entries[i].0 < r + 1);
            assert(entries[j].0 >= r && entries[j].0 < r + 1);
            assert(entries[i].0 == r && entries[j].0 == r);
            assert(m.cols@[i] == entries[i].1 && m.cols@[j] == entries[j].1);
        }
    }
}

/// The two-sided characterization of the prefix count over row-sorted
/// entries.
proof fn lemma_count_bounds<T>(entries: Seq<(usize, usize, T)>, r: int)
    requires
        triples_sorted(entries),
    ensures
        0 <= count_rows_below(entries, r) <= entries.len(),
        forall|j: int| 0 <= j < count_rows_below(entries, r) ==> (#[trigger] entries[j]).0 < r,
        forall|j: int|
            count_rows_below(entries, r) <= j < entries.len() ==> (#[trigger] entries[j]).0 >= r,
    decreases entries.len(),
{
    if entries.len() == 0 {
    } else if entries[0].0 < r {
        assert(triples_sorted(entries.drop_first())) by {
            assert(forall|i: int, j: int|
                0 <= i < j < entries.drop_first().len() ==> (#[trigger] entries.drop_first()[i])
                    == entries[i + 1] && (#[trigger] entries.drop_first()[j]) == entries[j + 1]);
        }
        lemma_count_bounds(entries.drop_first(), r);
        let c = count_rows_below(entries, r);
        assert forall|j: int| 0 <= j < c implies (#[trigger] entries[j]).0 < r by {
            if j > 0 {
                assert(entries.drop_first()[j - 1] == entries[j]);
            }
        }
        assert forall|j: int| c <= j < entries.len() implies (#[trigger] entries[j]).0 >= r by {
            assert(entries.drop_first()[j - 1] == entries[j]);
        }
    } else {
        assert forall|j: int| 0 <= j < entries.len() implies (#[trigger] entries[j]).0 >= r by {
            assert(entries[0].0 <= entries[j].0);
        }
    }
}

/// A stream of (row id, row cursor) pairs over a CSR matrix. Row ids are
/// contiguous, so seeking clamps the cursor directly.
#[derive(Debug, Clone)]
pub struct SparseCSRMatIterator<'a, T> {
    pub rows: &'a [usize],
    pub cols: &'a [usize],
    pub vals: &'a [T],
    pub cur: usize,
}

impl<'a, T> SparseCSRMatIterator<'a, T> {
    /// The row cursor this stream hands out for row `r`.
    pub open spec fn row_cursor(&self, r: int) -> SparseVecGalloper<'a, T> {
        SparseVecGalloper {
            inds: self.cols,
            vals: self.vals,
            cur: self.rows@[r],
            end: self.rows@[r + 1],
        }
    }
}

impl<'a, T: Copy> IndexedStream for SparseCSRMatIterator<'a, T> {
    type V = SparseVecGalloper<'a, T>;

    open spec fn inv(&self) -> bool {
        &&& 1 <= self.rows@.len() <= usize::MAX
        &&& self.cur <= self.rows@.len() - 1
        &&& self.rows@.last() == self.cols@.len()
        &&& self.cols@.len() == self.vals@.len()
        &&& forall|r: int|
            0 <= r < self.rows@.len() - 1 ==> #[trigger] self.rows@[r] <= self.rows@[r + 1]
        &&& forall|r: int| 0 <= r < self.rows@.len() ==> #[trigger] self.rows@[r] <= self.cols@.len()
        &&& forall|r: int|
            0 <= r < self.rows@.len() - 1 ==> window_sorted(
                self.cols@,
                #[trigger] self.rows@[r],
                self.rows@[r + 1],
            )
    }

    open spec fn remaining(&self) -> Seq<(usize, SparseVecGalloper<'a, T>)> {
        Seq::new(
            (self.rows@.len() - 1 - self.cur) as nat,
            |k: int| ((self.cur + k) as usize, self.row_cursor(self.cur + k)),
        )
    }

    open spec fn size(&self) -> nat {
        (self.rows@.len() - 1 - self.cur) as nat
    }

    open spec fn valid_spec(&self) -> bool {
        self.cur < self.rows@.len() - 1
    }

    open spec fn ready_spec(&self) -> bool {
        true
    }

    open spec fn index_spec(&self) -> usize {
        self.cur
    }

    open spec fn value_spec(&self) -> SparseVecGalloper<'a, T> {
        self.row_cursor(self.cur as int)
    }

    proof fn lemma_inv(&self) {
        assert(forall|k: int|
            0 <= k < self.remaining().len() ==> (#[trigger] self.remaining()[k]).0 == self.cur
                + k);
    }

    fn valid(&self) -> bool {
        self.cur < self.rows.len() - 1
    }

    fn ready(&self) -> bool {
        true
    }

    fn index(&self) -> usize {
        self.cur
    }

    fn value(&self) -> SparseVecGalloper<'a, T> {
        // read the length once so its machine bound is in scope
        let _n = self.rows.len();
        let start = *vstd::slice::slice_index_get(self.rows, self.cur);
        let end = *vstd::slice::slice_index_get(self.rows, self.cur + 1);
        SparseVecGalloper { inds: self.cols, vals: self.vals, cur: start, end }
    }

    #[verifier::rlimit(50)]
    fn seek(&mut self, target: usize, strict: bool) {
        let ghost pre = *self;
        let r_count = self.rows.len() - 1;
        if strict && target == self.cur {
            self.cur = target + 1;
        } else {
            let m = if self.cur >= target {
                self.cur
            } else {
                target
            };
            self.cur = if m <= r_count {
                m
            } else {
                r_count
            };
        }
        proof {
            let d = self.cur - pre.cur;
            assert(self.remaining() == pre.remaining().skip(d)) by {
                assert forall|k: int| 0 <= k < self.remaining().len() implies self.remaining()[k]
                    == pre.remaining().skip(d)[k] by {
                    assert(pre.remaining().skip(d)[k] == pre.remaining()[d + k]);
                }
                assert(self.remaining() =~= pre.remaining().skip(d));
            }
            assert forall|j: int| 0 <= j < d implies key_passed(
                (#[trigger] pre.remaining()[j]).0,
                target,
                strict,
            ) by {
                assert(pre.remaining()[j].0 == pre.cur + j);
            }
            if strict && target == pre.cur {
                assert(self.remaining() =~= pre.remaining().drop_first());
            }
        }
    }
}

impl<'a, T: Copy> EagerStream for SparseCSRMatIterator<'a, T> {
    proof fn lemma_eager(&self) {
    }
}

/// Every row cursor handed out by a CSR stream is itself a well-formed
/// stream whose model is that row's (column, value) pairs.
pub proof fn lemma_csr_rows_wf<'a, T: Copy>(it: SparseCSRMatIterator<'a, T>)
    requires
        it.inv(),
    ensures
        forall|k: int| 0 <= k < it.remaining().len() ==> (#[trigger] it.remaining()[k]).1.inv(),
        forall|k: int| 0 <= k < it.remaining().len() ==> (#[trigger] it.remaining()[k]).1.remaining()
            == pair_window_model(
            it.cols@,
            it.vals@,
            it.rows@[it.cur + k],
            it.rows@[it.cur + k + 1],
        ),
{
    assert forall|k: int| 0 <= k < it.remaining().len() implies (#[trigger] it.remaining()[k]).1.inv()
        && (it.remaining()[k]).1.remaining() == pair_window_model(
        it.cols@,
        it.vals@,
        it.rows@[it.cur + k],
        it.rows@[it.cur + k + 1],
    ) by {
        let g = it.remaining()[k].1;
        assert(g == it.row_cursor(it.cur + k));
        assert(it.rows@[it.cur + k] <= it.rows@[it.cur + k + 1]);
    }
}

/// One collector step over a matrix's own row stream rebuilds exactly the
/// next prefix of its arrays.
proof fn lemma_csr_rebuild_step<'a, T: Copy>(it: SparseCSRMatIterator<'a, T>)
    requires
        it.inv(),
        it.cur < it.rows@.len() - 1,
    ensures
        csr_extend_step(
            (it.cur, it.row_cursor(it.cur as int).remaining()),
            it.rows@.take(it.cur + 1),
            it.cols@.take(it.rows@[it.cur as int] as int),
            it.vals@.take(it.rows@[it.cur as int] as int),
        ) == (
            it.rows@.take(it.cur + 2),
            it.cols@.take(it.rows@[it.cur + 1] as int),
            it.vals@.take(it.rows@[it.cur + 1] as int),
        ),
{
    let rowsv = it.rows@;
    let colsv = it.cols@;
    let valsv = it.vals@;
    let cur = it.cur as int;
    let rowm = it.row_cursor(cur).remaining();
    assert(rowm.len() == rowsv[cur + 1] - rowsv[cur]);
    let rows_in = rowsv.take(cur + 1);
    let cols_in = colsv.take(rowsv[cur] as int);
    let vals_in = valsv.take(rowsv[cur] as int);
    let stepped = csr_extend_step((it.cur, rowm), rows_in, cols_in, vals_in);
    assert(pad_rows(rows_in, cur + 1, cols_in.len() as usize) == rows_in);
    assert(stepped.0 =~= rowsv.take(cur + 2)) by {
        assert(cols_in.len() == rowsv[cur]);
        assert((cols_in.len() + rowm.len()) as usize == rowsv[cur + 1]);
    }
    assert(stepped.1 =~= colsv.take(rowsv[cur + 1] as int)) by {
        assert(keys_of(rowm).len() == rowm.len());
        assert(forall|x: int|
            0 <= x < rowm.len() ==> (#[trigger] keys_of(rowm)[x]) == colsv[rowsv[cur] + x]);
    }
    assert(stepped.2 =~= valsv.take(rowsv[cur + 1] as int)) by {
        assert(vals_of(rowm).len() == rowm.len());
        assert(forall|x: int|
            0 <= x < rowm.len() ==> (#[trigger] vals_of(rowm)[x]) == valsv[rowsv[cur] + x]);
    }
}

/// One induction step of the round trip: rebuilding from row `cur` onward,
/// on top of the prefix already rebuilt, reproduces the matrix's arrays.
#[verifier::rlimit(100)]
proof fn lemma_csr_rebuild_from<'a, T: Copy>(it: SparseCSRMatIterator<'a, T>)
    requires
        it.inv(),
    ensures
        csr_extend(
            nested_model(it.remaining()),
            it.rows@.take(it.cur + 1),
            it.cols@.take(it.rows@[it.cur as int] as int),
            it.vals@.take(it.rows@[it.cur as int] as int),
        ) == (it.rows@, it.cols@, it.vals@),
    decreases it.rows@.len() - 1 - it.cur,
{
    let rowsv = it.rows@;
    let colsv = it.cols@;
    let valsv = it.vals@;
    let cur = it.cur as int;
    let model = nested_model(it.remaining());
    if it.cur >= rowsv.len() - 1 {
        assert(model.len() == 0);
        assert(rowsv.take(cur + 1) =~= rowsv);
        assert(rowsv[cur] == colsv.len());
        assert(colsv.take(rowsv[cur] as int) =~= colsv);
        assert(valsv.take(rowsv[cur] as int) =~= valsv);
    } else {
        let it2 = SparseCSRMatIterator { rows: it.rows, cols: it.cols, vals: it.vals, cur: (it.cur
            + 1) as usize };
        assert(it2.inv());
        lemma_csr_rebuild_from(it2);
        lemma_csr_rebuild_step(it);
        let rowm = it.row_cursor(cur).remaining();
        assert(model[0] == (it.cur, rowm));
        let rows_in = rowsv.take(cur + 1);
        let cols_in = colsv.take(rowsv[cur] as int);
        let vals_in = valsv.take(rowsv[cur] as int);
        let stepped = csr_extend_step(model[0], rows_in, cols_in, vals_in);
        assert(csr_extend(model, rows_in, cols_in, vals_in) == csr_extend(
            model.drop_first(),
            stepped.0,
            stepped.1,
            stepped.2,
        ));
        assert(model.drop_first() =~= nested_model(it2.remaining()));
    }
}

/// Collector round-trip: streaming a well-formed CSR matrix row by row and
/// collecting the nested stream back rebuilds exactly the same row-pointer,
/// column and value arrays.
pub proof fn lemma_csr_round_trip<'a, T: Copy>(m: SparseCSRMat<T>, it: SparseCSRMatIterator<'a, T>)
    requires
        m.wf(),
        it.inv(),
        it.cur == 0,
        it.rows@ == m.rows@,
        it.cols@ == m.cols@,
        it.vals@ == m.vals@,
    ensures
        csr_extend(
            nested_model(it.remaining()),
            seq![0usize],
            Seq::<usize>::empty(),
            Seq::<T>::empty(),
        ) == (m.rows@, m.cols@, m.vals@),
{
    lemma_csr_rebuild_from(it);
    assert(it.rows@.take(1) =~= seq![0usize]);
    assert(it.cols@.take(0) =~= Seq::<usize>::empty());
    assert(it.vals@.take(0) =~= Seq::<T>::empty());
}

} // verus!
