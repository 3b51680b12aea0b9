//! The dense row-major matrix that a load produces.

use vstd::prelude::*;
use crate::field::is_numeric_field;

verus! {

/// A dense, row-major, rectangular matrix of numeric fields, as loaded
/// from an embedding file. Entry (i, j) holds the text of line i, field j;
/// every entry is a numeric literal, so a caller can convert each to a
/// machine number without re-validating.
#[derive(Debug, PartialEq, Eq)]
pub struct EmbeddingMatrix {
    /// The number of rows.
    pub rows: usize,
    /// The number of columns; zero when there are no rows.
    pub cols: usize,
    /// The fields in row-major order: entry (i, j) is `data[i * cols + j]`.
    pub data: Vec<Vec<u8>>,
}

impl EmbeddingMatrix {
    /// Well-formedness: the flat buffer holds exactly `rows * cols`
    /// fields, a matrix with no rows has no columns, and every field is
    /// numeric.
    pub open spec fn wf(self) -> bool {
        &&& self.data@.len() == self.rows * self.cols
        &&& (self.rows == 0 ==> self.cols == 0)
        &&& forall|k: int|
            0 <= k < self.data@.len() ==> is_numeric_field(#[trigger] self.data@[k]@)
    }

    /// The field at row `i`, column `j`.
    pub open spec fn spec_entry(self, i: int, j: int) -> Seq<u8> {
        self.data@[i * self.cols + j]@
    }

    /// The number of rows.
    pub fn rows(&self) -> (r: usize)
        ensures
            r == self.rows,
    {
        self.rows
    }

    /// The number of columns.
    pub fn cols(&self) -> (r: usize)
        ensures
            r == self.cols,
    {
        self.cols
    }

    /// Borrows the field at row `i`, column `j`.
    pub fn entry(&self, i: usize, j: usize) -> (r: &Vec<u8>)
        requires
            self.wf(),
            i < self.rows,
            j < self.cols,
        ensures
            r@ == self.spec_entry(i as int, j as int),
            is_numeric_field(r@),
    {
        let n = self.data.len();
        proof {
            assert((i as int) * (self.cols as int) + (j as int) < (self.rows as int) * (
            self.cols as int)) by (nonlinear_arith)
                requires
                    (i as int) < (self.rows as int),
                    (j as int) < (self.cols as int),
                    0 <= i as int,
                    0 <= j as int,
                    0 <= self.cols as int,
            ;
        }
        let idx = i * self.cols + j;
        &self.data[idx]
    }
}

} // verus!
