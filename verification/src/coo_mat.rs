//! A coordinate-list matrix: three parallel arrays of row ids, column ids
//! and values, sorted by row then column.

use vstd::prelude::*;

verus! {

/// A sparse matrix in coordinate form.
#[derive(Debug, Clone)]
pub struct SparseCOOMat<T> {
    pub rows: Vec<usize>,
    pub cols: Vec<usize>,
    pub vals: Vec<T>,
}

impl<T> SparseCOOMat<T> {
    /// Well-formedness: equally long arrays, entries strictly sorted by row,
    /// then column.
    pub open spec fn wf(&self) -> bool {
        &&& self.rows@.len() == self.cols@.len()
        &&& self.cols@.len() == self.vals@.len()
        &&& forall|i: int, j: int|
            0 <= i < j < self.rows@.len() ==> #[trigger] self.rows@[i] < #[trigger] self.rows@[j]
                || (self.rows@[i] == self.rows@[j] && self.cols@[i] < self.cols@[j])
    }
}

} // verus!
