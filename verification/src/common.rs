//! What the two kinds of matrix storage have in common.

use crate::model::Matrix;
use vstd::prelude::*;

verus! {

/// The position of an entry: row, then column, both counted from zero.
pub type MatIndex = (usize, usize);

/// Why an operation on a matrix failed.
#[derive(Debug, Clone, Copy, PartialEq, Eq, Structural)]
pub enum MatrixError {
    /// The index lies inside the shape, but no entry was ever stored there.
    EntryNotFound,
    /// The index lies outside the shape.
    IndexOutOfBounds,
    /// The shapes of the operands do not fit the operation.
    ShapeMismatch,
    /// The matrix has no inverse.
    Singular,
}

/// Whether `r` is the failure `e`.
pub open spec fn failed<T>(r: Result<T, MatrixError>, e: MatrixError) -> bool {
    r is Err && r->Err_0 == e
}

/// The key under which the entry at `(row, col)` is stored.
pub open spec fn key_of(row: int, col: int) -> u128 {
    (row * 0x1_0000_0000_0000_0000 + col) as u128
}

/// The key under which the entry at `(row, col)` is stored.
pub fn key(row: usize, col: usize) -> (k: u128)
    ensures
        k == key_of(row as int, col as int),
{
    (row as u128) * 0x1_0000_0000_0000_0000u128 + (col as u128)
}

/// In a row-major list of `rows * cols` entries, the entry at `(i, j)` has
/// an index inside the list.
pub proof fn lemma_flat_index(i: int, j: int, rows: int, cols: int)
    requires
        0 <= i < rows,
        0 <= j < cols,
    ensures
        0 <= i * cols + j < rows * cols,
        0 <= i * cols <= rows * cols,
{
    assert(0 <= i * cols && i * cols + cols <= rows * cols) by (nonlinear_arith)
        requires
            0 <= i < rows,
            0 < cols,
    ;
}

/// Access to the entries of a matrix, whatever its storage.
pub trait MatOps<E: View<V = real>>: Sized {
    /// The type of a transposed matrix.
    type Output;

    /// The matrix that the storage stands for.
    spec fn model(&self) -> Matrix;

    /// The matrix that a transposed matrix stands for.
    spec fn output_model(out: &Self::Output) -> Matrix;

    /// Storage never holds an entry outside the shape.
    proof fn lemma_model_bounded(&self)
        ensures
            self.model().bounded(),
    ;

    /// The transpose.
    fn t(&self) -> (r: Self::Output)
        requires
            self.model().complete(),
        ensures
            Self::output_model(&r) == self.model().transpose(),
    ;

    /// Stores `v` at `(row, col)`; an index outside the shape is ignored.
    fn set_v(&mut self, row: usize, col: usize, v: E)
        ensures
            old(self).model().in_bounds(row as int, col as int) ==> final(self).model() == old(
                self,
            ).model().with(row as int, col as int, v@),
            !old(self).model().in_bounds(row as int, col as int) ==> final(self).model() == old(
                self,
            ).model(),
    ;

    /// Reads the entry at `(row, col)`.
    fn get_v(&self, row: usize, col: usize) -> (r: Result<E, MatrixError>)
        ensures
            !self.model().in_bounds(row as int, col as int) ==> r == Err::<E, MatrixError>(
                MatrixError::IndexOutOfBounds,
            ),
            self.model().in_bounds(row as int, col as int) && !self.model().has(
                row as int,
                col as int,
            ) ==> r == Err::<E, MatrixError>(MatrixError::EntryNotFound),
            self.model().in_bounds(row as int, col as int) && self.model().has(
                row as int,
                col as int,
            ) ==> r is Ok && r->Ok_0@ == self.model().at(row as int, col as int),
    ;

    /// The number of rows.
    fn row(&self) -> (n: usize)
        ensures
            n == self.model().rows,
    ;

    /// The number of columns.
    fn col(&self) -> (n: usize)
        ensures
            n == self.model().cols,
    ;
}

} // verus!
