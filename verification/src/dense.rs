//! Dense matrices: storage meant to hold an entry at every index.

use crate::adjugate::lemma_adjoint_inverse;
use crate::common::MatOps;
use crate::common::MatrixError;
use crate::common::failed;
use crate::common::key;
use crate::common::key_of;
use crate::common::lemma_flat_index;
use crate::fill::Rule;
use crate::fill::all_present;
use crate::fill::fill;
use crate::fill::read;
use crate::fill::signed_one;
use crate::fill::trace_of;
use crate::gauss::backward;
use crate::gauss::det_reduce;
use crate::gauss::echelon;
use crate::gauss::forward;
use crate::gauss::put;
use crate::iterative::lemma_inverse_two_sided;
use crate::iterative::right_inverse;
use crate::kernel::singular;
use crate::model::Matrix;
use crate::model::dot;
use crate::model::expansion;
use crate::model::lemma_equal;
use crate::model::lemma_tabulate;
use crate::model::sign;
use crate::rational::Rational;
use crate::regular::lemma_singular_iff_det_zero;
use crate::rowops::lemma_kernel_chain;
use crate::solution::lemma_concat_left;
use crate::solution::lemma_reduced_is_regular;
use crate::solution::lemma_reduced_solves;
use crate::solution::lemma_stuck_is_singular;
use crate::text::page_text;
use crate::text::render;
use std::collections::HashMap;
use vstd::prelude::*;

verus! {

/// A matrix of fixed shape that is filled entry by entry. Reading an entry
/// that was never stored is an error, not a zero.
pub struct DenseMatrix {
    row_num: usize,
    col_num: usize,
    elements: HashMap<u128, Rational>,
}

impl View for DenseMatrix {
    type V = Matrix;

    closed spec fn view(&self) -> Matrix {
        Matrix {
            rows: self.row_num as nat,
            cols: self.col_num as nat,
            cells: Map::new(
                |p: (int, int)|
                    0 <= p.0 < self.row_num && 0 <= p.1 < self.col_num
                        && self.elements@.contains_key(key_of(p.0, p.1)),
                |p: (int, int)| self.elements@[key_of(p.0, p.1)]@,
            ),
        }
    }
}

impl DenseMatrix {
    /// A matrix of the given shape without any entry.
    pub fn new(row_num: usize, col_num: usize) -> (r: DenseMatrix)
        ensures
            r@ == Matrix::blank(row_num as nat, col_num as nat),
    {
        let r = DenseMatrix { row_num, col_num, elements: HashMap::new() };
        assert(r@.cells =~= Map::empty());
        r
    }

    /// Stores `v` at `(row, col)`; an index outside the shape is ignored.
    pub fn set_v(&mut self, row: usize, col: usize, v: Rational)
        ensures
            old(self)@.in_bounds(row as int, col as int) ==> final(self)@ == old(self)@.with(
                row as int,
                col as int,
                v@,
            ),
            !old(self)@.in_bounds(row as int, col as int) ==> final(self)@ == old(self)@,
    {
        if row < self.row_num && col < self.col_num {
            let ghost before = self.elements@;
            let ghost value = v@;
            self.elements.insert(key(row, col), v);
            assert(self.elements@ == before.insert(key_of(row as int, col as int), v));
            assert(self@.cells =~= old(self)@.with(row as int, col as int, value).cells) by {
                assert forall|p: (int, int)|
                    0 <= p.0 < self.row_num && 0 <= p.1 < self.col_num implies (key_of(p.0, p.1)
                    == key_of(row as int, col as int) <==> p == (row as int, col as int)) by {}
            }
        }
    }

    /// Reads the entry at `(row, col)`.
    pub fn get_v(&self, row: usize, col: usize) -> (r: Result<Rational, MatrixError>)
        ensures
            !self@.in_bounds(row as int, col as int) ==> r == Err::<Rational, MatrixError>(
                MatrixError::IndexOutOfBounds,
            ),
            self@.in_bounds(row as int, col as int) && !self@.has(row as int, col as int) ==> r
                == Err::<Rational, MatrixError>(MatrixError::EntryNotFound),
            self@.in_bounds(row as int, col as int) && self@.has(row as int, col as int) ==> r is Ok
                && r->Ok_0@ == self@.at(row as int, col as int),
    {
        if row >= self.row_num || col >= self.col_num {
            return Err(MatrixError::IndexOutOfBounds);
        }
        let k = key(row, col);
        match self.elements.get(&k) {
            Some(v) => Ok(v.clone()),
            None => Err(MatrixError::EntryNotFound),
        }
    }

    /// The transpose.
    pub fn t(&self) -> (r: DenseMatrix)
        requires
            self@.complete(),
        ensures
            r@ == self@.transpose(),
    {
        let rows = self.row_num;
        let cols = self.col_num;
        let mut out = DenseMatrix::new(cols, rows);
        let mut i: usize = 0;
        while i < rows
            invariant
                i <= rows,
                rows == self.row_num,
                cols == self.col_num,
                self@.complete(),
                out@.rows == cols,
                out@.cols == rows,
                forall|x: int, y: int|
                    0 <= x < i && 0 <= y < cols ==> #[trigger] out@.has(y, x) && out@.at(y, x)
                        == self@.at(x, y),
            decreases rows - i,
        {
            let mut j: usize = 0;
            while j < cols
                invariant
                    i < rows,
                    j <= cols,
                    rows == self.row_num,
                    cols == self.col_num,
                    self@.complete(),
                    out@.rows == cols,
                    out@.cols == rows,
                    forall|x: int, y: int|
                        0 <= x < i && 0 <= y < cols ==> #[trigger] out@.has(y, x) && out@.at(y, x)
                            == self@.at(x, y),
                    forall|y: int|
                        0 <= y < j ==> #[trigger] out@.has(y, i as int) && out@.at(y, i as int)
                            == self@.at(i as int, y),
                decreases cols - j,
            {
                let ghost before = out@;
                assert(self@.has(i as int, j as int) <==> self@.in_bounds(i as int, j as int));
                match self.get_v(i, j) {
                    Ok(v) => {
                        out.set_v(j, i, v);
                    },
                    Err(_) => {
                        assert(false);
                    },
                }
                proof {
                    assert forall|x: int, y: int| 0 <= x < i && 0 <= y < cols implies #[trigger]
                        out@.has(y, x) && out@.at(y, x) == self@.at(x, y) by {
                        assert(before.has(y, x));
                    }
                    assert forall|y: int| 0 <= y < j + 1 implies #[trigger] out@.has(y, i as int)
                        && out@.at(y, i as int) == self@.at(i as int, y) by {
                        if y < j {
                            assert(before.has(y, i as int));
                        }
                    }
                }
                j = j + 1;
            }
            proof {
                let now = out@;
                assert forall|x: int, y: int| 0 <= x < i + 1 && 0 <= y < cols implies #[trigger]
                    now.has(y, x) && now.at(y, x) == self@.at(x, y) by {
                    if x == i {
                        assert(now.has(y, i as int));
                    }
                }
            }
            i = i + 1;
        }
        proof {
            let got = out@;
            let want = self@.transpose();
            assert forall|x: int, y: int| #[trigger] got.has(x, y) <==> got.in_bounds(x, y) by {
                if got.in_bounds(x, y) {
                    assert(got.has(x, y));
                }
            }
            assert forall|x: int, y: int| got.in_bounds(x, y) implies #[trigger] got.at(x, y)
                == want.at(x, y) by {
                assert(got.has(x, y));
            }
            lemma_equal(got, want);
        }
        out
    }

    /// Whether an entry is stored at every index inside the shape.
    pub fn is_complete(&self) -> (b: bool)
        ensures
            b == self@.complete(),
    {
        all_present(self)
    }

    /// Rows `row_from..=row_to` and columns `col_from..=col_to`, indexed
    /// again from zero.
    pub fn slice(&self, row_from: usize, row_to: usize, col_from: usize, col_to: usize) -> (r:
        DenseMatrix)
        requires
            self@.complete(),
            row_from <= row_to < self@.rows,
            col_from <= col_to < self@.cols,
        ensures
            r@ == self@.slice(row_from as int, row_to as int, col_from as int, col_to as int),
    {
        let mut out = DenseMatrix::new(row_to - row_from + 1, col_to - col_from + 1);
        fill(&mut out, &Rule::Sliced { r0: row_from, c0: col_from }, self, self, &Rational::zero());
        assert(out@ =~= self@.slice(
            row_from as int,
            row_to as int,
            col_from as int,
            col_to as int,
        ));
        out
    }

    /// The slice, after checking that the ranges lie inside the shape and
    /// that every entry is stored.
    pub fn safe_slice(&self, row_from: usize, row_to: usize, col_from: usize, col_to: usize) -> (r:
        Result<DenseMatrix, MatrixError>)
        ensures
            !(row_from <= row_to < self@.rows && col_from <= col_to < self@.cols) ==> failed(
                r,
                MatrixError::IndexOutOfBounds,
            ),
            row_from <= row_to < self@.rows && col_from <= col_to < self@.cols
                && !self@.complete() ==> failed(r, MatrixError::EntryNotFound),
            row_from <= row_to < self@.rows && col_from <= col_to < self@.cols && self@.complete()
                ==> r is Ok && r->Ok_0@ == self@.slice(
                row_from as int,
                row_to as int,
                col_from as int,
                col_to as int,
            ),
    {
        if !(row_from <= row_to && row_to < self.row_num && col_from <= col_to && col_to
            < self.col_num) {
            Err(MatrixError::IndexOutOfBounds)
        } else if !self.is_complete() {
            Err(MatrixError::EntryNotFound)
        } else {
            Ok(self.slice(row_from, row_to, col_from, col_to))
        }
    }

    /// Every entry multiplied by `k`.
    pub fn scalar_mul(&self, k: Rational) -> (r: DenseMatrix)
        requires
            self@.complete(),
        ensures
            r@ == self@.scale(k@),
    {
        let mut out = DenseMatrix::new(self.row_num, self.col_num);
        fill(&mut out, &Rule::Scaled, self, self, &k);
        assert(out@ =~= self@.scale(k@));
        out
    }

    /// `mat` appended to the right of `self`.
    pub fn concat(&self, mat: &DenseMatrix) -> (r: DenseMatrix)
        requires
            self@.complete(),
            mat@.complete(),
            self@.rows == mat@.rows,
            self@.cols + mat@.cols <= usize::MAX,
        ensures
            r@ == self@.concat(mat@),
    {
        let mut out = DenseMatrix::new(self.row_num, self.col_num + mat.col_num);
        fill(&mut out, &Rule::Joined, self, mat, &Rational::zero());
        assert(out@ =~= self@.concat(mat@));
        out
    }

    /// The matrix product `self * mat`.
    pub fn dot_mul(&self, mat: &DenseMatrix) -> (r: DenseMatrix)
        requires
            self@.complete(),
            mat@.complete(),
            self@.cols == mat@.rows,
        ensures
            r@ == self@.product(mat@),
    {
        let mut out = DenseMatrix::new(self.row_num, mat.col_num);
        fill(&mut out, &Rule::Product, self, mat, &Rational::zero());
        assert(out@ =~= self@.product(mat@));
        out
    }

    /// The entrywise product.
    pub fn mul(&self, mat: &DenseMatrix) -> (r: DenseMatrix)
        requires
            self@.complete(),
            mat@.complete(),
            self@.same_shape(mat@),
        ensures
            r@ == self@.hadamard(mat@),
    {
        let mut out = DenseMatrix::new(self.row_num, self.col_num);
        fill(&mut out, &Rule::Hadamard, self, mat, &Rational::zero());
        assert(out@ =~= self@.hadamard(mat@));
        out
    }

    /// The matrix product, after checking that the shapes fit and that every
    /// entry is stored.
    pub fn safe_dot_mul(&self, mat: &DenseMatrix) -> (r: Result<DenseMatrix, MatrixError>)
        ensures
            self@.cols != mat@.rows ==> failed(r, MatrixError::ShapeMismatch),
            self@.cols == mat@.rows && !(self@.complete() && mat@.complete()) ==> failed(
                r,
                MatrixError::EntryNotFound,
            ),
            self@.cols == mat@.rows && self@.complete() && mat@.complete() ==> r is Ok
                && r->Ok_0@ == self@.product(mat@),
    {
        if self.col_num != mat.row_num {
            Err(MatrixError::ShapeMismatch)
        } else if !self.is_complete() || !mat.is_complete() {
            Err(MatrixError::EntryNotFound)
        } else {
            Ok(self.dot_mul(mat))
        }
    }

    /// The entrywise additive inverse.
    pub fn neg(&self) -> (r: DenseMatrix)
        requires
            self@.complete(),
        ensures
            r@ == self@.negation(),
    {
        let mut out = DenseMatrix::new(self.row_num, self.col_num);
        fill(&mut out, &Rule::Negated, self, self, &Rational::zero());
        assert(out@ =~= self@.negation());
        out
    }

    /// The entrywise sum.
    pub fn add(&self, mat: &DenseMatrix) -> (r: DenseMatrix)
        requires
            self@.complete(),
            mat@.complete(),
            self@.same_shape(mat@),
        ensures
            r@ == self@.sum(mat@),
    {
        let mut out = DenseMatrix::new(self.row_num, self.col_num);
        fill(&mut out, &Rule::Sum, self, mat, &Rational::zero());
        assert(out@ =~= self@.sum(mat@));
        out
    }

    /// The entrywise sum, after checking that the shapes agree and that
    /// every entry is stored.
    pub fn safe_add(&self, mat: &DenseMatrix) -> (r: Result<DenseMatrix, MatrixError>)
        ensures
            !self@.same_shape(mat@) ==> failed(r, MatrixError::ShapeMismatch),
            self@.same_shape(mat@) && !(self@.complete() && mat@.complete()) ==> failed(
                r,
                MatrixError::EntryNotFound,
            ),
            self@.same_shape(mat@) && self@.complete() && mat@.complete() ==> r is Ok && r->Ok_0@
                == self@.sum(mat@),
    {
        if self.row_num != mat.row_num || self.col_num != mat.col_num {
            Err(MatrixError::ShapeMismatch)
        } else if !self.is_complete() || !mat.is_complete() {
            Err(MatrixError::EntryNotFound)
        } else {
            Ok(self.add(mat))
        }
    }

    /// The entrywise difference.
    pub fn sub(&self, mat: &DenseMatrix) -> (r: DenseMatrix)
        requires
            self@.complete(),
            mat@.complete(),
            self@.same_shape(mat@),
        ensures
            r@ == self@.difference(mat@),
    {
        let mut out = DenseMatrix::new(self.row_num, self.col_num);
        fill(&mut out, &Rule::Difference, self, mat, &Rational::zero());
        assert(out@ =~= self@.difference(mat@));
        out
    }

    /// The entrywise difference, after checking that the shapes agree and
    /// that every entry is stored.
    pub fn safe_sub(&self, mat: &DenseMatrix) -> (r: Result<DenseMatrix, MatrixError>)
        ensures
            !self@.same_shape(mat@) ==> failed(r, MatrixError::ShapeMismatch),
            self@.same_shape(mat@) && !(self@.complete() && mat@.complete()) ==> failed(
                r,
                MatrixError::EntryNotFound,
            ),
            self@.same_shape(mat@) && self@.complete() && mat@.complete() ==> r is Ok && r->Ok_0@
                == self@.difference(mat@),
    {
        if self.row_num != mat.row_num || self.col_num != mat.col_num {
            Err(MatrixError::ShapeMismatch)
        } else if !self.is_complete() || !mat.is_complete() {
            Err(MatrixError::EntryNotFound)
        } else {
            Ok(self.sub(mat))
        }
    }

    /// The square matrix of size `num` whose every entry is one.
    pub fn ones(num: usize) -> (r: DenseMatrix)
        ensures
            r@ == Matrix::constant(num as nat, num as nat, 1real),
    {
        let mut out = DenseMatrix::new(num, num);
        let seed = DenseMatrix::new(0, 0);
        assert(seed@.complete());
        fill(&mut out, &Rule::Constant, &seed, &seed, &Rational::one());
        assert(out@ =~= Matrix::constant(num as nat, num as nat, 1real));
        out
    }

    /// The square matrix of size `num` whose every entry is zero.
    pub fn zeros(num: usize) -> (r: DenseMatrix)
        ensures
            r@ == Matrix::constant(num as nat, num as nat, 0real),
    {
        let mut out = DenseMatrix::new(num, num);
        let seed = DenseMatrix::new(0, 0);
        assert(seed@.complete());
        fill(&mut out, &Rule::Constant, &seed, &seed, &Rational::zero());
        assert(out@ =~= Matrix::constant(num as nat, num as nat, 0real));
        out
    }

    /// The identity matrix of size `num`.
    pub fn eye(num: usize) -> (r: DenseMatrix)
        ensures
            r@ == Matrix::identity(num as nat),
    {
        let mut out = DenseMatrix::new(num, num);
        let seed = DenseMatrix::new(0, 0);
        assert(seed@.complete());
        fill(&mut out, &Rule::Identity, &seed, &seed, &Rational::zero());
        assert(out@ =~= Matrix::identity(num as nat));
        out
    }

    /// The diagonal kept, every other entry zero.
    pub fn diag(&self) -> (r: DenseMatrix)
        requires
            self@.complete(),
        ensures
            r@ == self@.diagonal(),
    {
        let mut out = DenseMatrix::new(self.row_num, self.col_num);
        fill(&mut out, &Rule::Diagonal, self, self, &Rational::zero());
        assert(out@ =~= self@.diagonal());
        out
    }

    /// The diagonal and what lies above it kept, every other entry zero.
    pub fn tri_u(&self) -> (r: DenseMatrix)
        requires
            self@.complete(),
        ensures
            r@ == self@.upper(),
    {
        let mut out = DenseMatrix::new(self.row_num, self.col_num);
        fill(&mut out, &Rule::Upper, self, self, &Rational::zero());
        assert(out@ =~= self@.upper());
        out
    }

    /// The diagonal and what lies below it kept, every other entry zero.
    pub fn tri_l(&self) -> (r: DenseMatrix)
        requires
            self@.complete(),
        ensures
            r@ == self@.lower(),
    {
        let mut out = DenseMatrix::new(self.row_num, self.col_num);
        fill(&mut out, &Rule::Lower, self, self, &Rational::zero());
        assert(out@ =~= self@.lower());
        out
    }

    /// The sum of the diagonal entries.
    pub fn trace(&self) -> (sum: Rational)
        requires
            self@.complete(),
        ensures
            sum@ == self@.trace(),
    {
        trace_of(self)
    }

    /// The matrix without row `row` and column `col`.
    pub fn cofactors(&self, row: usize, col: usize) -> (r: DenseMatrix)
        requires
            self@.complete(),
            self@.rows >= 1,
            self@.cols >= 1,
        ensures
            r@ == self@.minor(row as int, col as int),
    {
        let mut out = DenseMatrix::new(self.row_num - 1, self.col_num - 1);
        fill(&mut out, &Rule::Minor { row, col }, self, self, &Rational::zero());
        assert(out@ =~= self@.minor(row as int, col as int));
        out
    }

    /// The determinant by cofactor expansion along the first column. The
    /// running time grows with the factorial of the size.
    pub fn det_adj(&self) -> (d: Rational)
        requires
            self@.complete(),
        ensures
            d@ == self@.det(),
        decreases self@.rows,
    {
        if self.row_num != self.col_num {
            return Rational::zero();
        }
        let n = self.row_num;
        if n == 0 {
            return Rational::one();
        }
        if n == 1 {
            assert(self@.has(0, 0) <==> self@.in_bounds(0, 0));
            return read(self, 0, 0);
        }
        if n == 2 {
            assert(self@.has(0, 0) <==> self@.in_bounds(0, 0));
            assert(self@.has(0, 1) <==> self@.in_bounds(0, 1));
            assert(self@.has(1, 0) <==> self@.in_bounds(1, 0));
            assert(self@.has(1, 1) <==> self@.in_bounds(1, 1));
            let a = read(self, 0, 0);
            let b = read(self, 0, 1);
            let c = read(self, 1, 0);
            let d = read(self, 1, 1);
            return a.mul(&d).sub(&b.mul(&c));
        }
        let mut sum = Rational::zero();
        let mut i: usize = 0;
        while i < n
            invariant
                i <= n,
                n == self@.rows,
                n == self@.cols,
                self@.complete(),
                sum@ == expansion(self@, i as nat),
            decreases n - i,
        {
            assert(self@.has(i as int, 0) <==> self@.in_bounds(i as int, 0));
            let sgn = signed_one(i, 0);
            let minor = self.cofactors(i, 0);
            proof {
                lemma_tabulate(
                    (self@.rows - 1) as nat,
                    (self@.cols - 1) as nat,
                    |x: int, y: int|
                        self@.at(
                            if x < i {
                                x
                            } else {
                                x + 1
                            },
                            if y < 0 {
                                y
                            } else {
                                y + 1
                            },
                        ),
                );
            }
            let sub = minor.det_adj();
            sum = sum.add(&sgn.mul(&read(self, i, 0)).mul(&sub));
            i = i + 1;
        }
        sum
    }

    /// The transpose of the matrix of cofactors.
    pub fn adjoint(&self) -> (r: DenseMatrix)
        requires
            self@.complete(),
        ensures
            r@ == self@.adjoint(),
    {
        let rows = self.row_num;
        let cols = self.col_num;
        let mut out = DenseMatrix::new(rows, cols);
        let seed = DenseMatrix::new(0, 0);
        assert(seed@.complete());
        fill(&mut out, &Rule::Constant, &seed, &seed, &Rational::zero());
        let mut i: usize = 0;
        while i < rows
            invariant
                i <= rows,
                rows == self@.rows,
                cols == self@.cols,
                self@.complete(),
                out@.complete(),
                out@.rows == rows,
                out@.cols == cols,
                forall|x: int, y: int|
                    0 <= x < i && 0 <= y < cols ==> #[trigger] out@.at(x, y) == sign(x + y)
                        * self@.minor(x, y).det(),
            decreases rows - i,
        {
            let mut j: usize = 0;
            while j < cols
                invariant
                    i < rows,
                    j <= cols,
                    rows == self@.rows,
                    cols == self@.cols,
                    self@.complete(),
                    out@.complete(),
                    out@.rows == rows,
                    out@.cols == cols,
                    forall|x: int, y: int|
                        0 <= x < i && 0 <= y < cols ==> #[trigger] out@.at(x, y) == sign(x + y)
                            * self@.minor(x, y).det(),
                    forall|y: int|
                        0 <= y < j ==> #[trigger] out@.at(i as int, y) == sign(i + y)
                            * self@.minor(i as int, y).det(),
                decreases cols - j,
            {
                let sgn = signed_one(i, j);
                let minor = self.cofactors(i, j);
                proof {
                    lemma_tabulate(
                        (self@.rows - 1) as nat,
                        (self@.cols - 1) as nat,
                        |x: int, y: int|
                            self@.at(
                                if x < i {
                                    x
                                } else {
                                    x + 1
                                },
                                if y < j {
                                    y
                                } else {
                                    y + 1
                                },
                            ),
                    );
                }
                let v = sgn.mul(&minor.det_adj());
                put(&mut out, i, j, v);
                j = j + 1;
            }
            i = i + 1;
        }
        let r = out.t();
        proof {
            lemma_equal(r@, self@.adjoint());
        }
        r
    }

    /// The inverse as the adjoint divided by the determinant. Fails with
    /// `Singular` exactly when the determinant is zero.
    pub fn inv_adj(&self) -> (r: Result<DenseMatrix, MatrixError>)
        requires
            self@.complete(),
        ensures
            self@.det() == 0real <==> r is Err,
            r is Err ==> r->Err_0 == MatrixError::Singular,
            r is Ok ==> r->Ok_0@ == self@.adjoint().scale(1real / self@.det()),
            r is Ok ==> right_inverse(self@, r->Ok_0@),
            self@.square() ==> (r is Err <==> singular(self@)),
    {
        proof {
            
            if self@.square() {
                lemma_singular_iff_det_zero(self@);
            }
        }
        let det = self.det_adj();
        if det.abs().is_zero() {
            Err(MatrixError::Singular)
        } else {
            let adj = self.adjoint();
            proof {
                assert(self@.complete());
                lemma_adjoint_inverse(self@);
                lemma_tabulate(
                    self@.cols,
                    self@.rows,
                    |i: int, j: int| sign(j + i) * self@.minor(j, i).det(),
                );
            }
            Ok(adj.scalar_mul(Rational::one().div(&det)))
        }
    }

    /// Solves `mat_a * x = mat_b` by elimination with partial pivoting. Fails
    /// with `Singular` exactly when `mat_a` is singular.
    pub fn solve_ge(mat_a: &DenseMatrix, mat_b: &DenseMatrix) -> (r: Result<DenseMatrix, MatrixError>)
        requires
            mat_a@.complete(),
            mat_b@.complete(),
            mat_a@.square(),
            mat_a@.rows == mat_b@.rows,
            mat_a@.cols + mat_b@.cols <= usize::MAX,
        ensures
            r is Err <==> singular(mat_a@),
            r is Err <==> mat_a@.det() == 0real,
            r is Err ==> r->Err_0 == MatrixError::Singular,
            r is Ok ==> r->Ok_0@.complete() && r->Ok_0@.rows == mat_a@.cols && r->Ok_0@.cols
                == mat_b@.cols && mat_a@.product(r->Ok_0@) == mat_b@,
    {
        proof {
            lemma_concat_left(mat_a@, mat_b@);
            lemma_singular_iff_det_zero(mat_a@);
        }
        if mat_a.row_num == 0 {
            let x = DenseMatrix::new(0, mat_b.col_num);
            proof {
                lemma_equal(mat_a@.product(x@), mat_b@);
            }
            return Ok(x);
        }
        let mut mat = mat_a.concat(mat_b);
        let ghost start = mat@;
        let reduced = forward(&mut mat);
        if !reduced {
            proof {
                let cur = mat@;
                let r = choose|r: int|
                    0 <= r < cur.rows && #[trigger] echelon(cur, r) && forall|i: int|
                        r <= i < cur.rows ==> #[trigger] cur.at(i, r) == 0real;
                lemma_stuck_is_singular(mat_a@, start, cur, r);
            }
            return Err(MatrixError::Singular);
        }
        let ghost middle = mat@;
        backward(&mut mat);
        proof {
            lemma_kernel_chain(start, middle, mat@);
            lemma_reduced_is_regular(mat_a@, start, mat@);
        }
        if mat_b.col_num == 0 {
            let x = DenseMatrix::new(mat_a.col_num, 0);
            proof {
                lemma_equal(mat_a@.product(x@), mat_b@);
            }
            return Ok(x);
        }
        proof {
            lemma_reduced_solves(mat_a@, mat_b@, mat@);
        }
        let rows = mat.row();
        let cols = mat.col();
        let x = mat.slice(0, rows - 1, mat_a.col(), cols - 1);
        proof {
            lemma_tabulate(
                x@.rows,
                x@.cols,
                |i: int, j: int| mat@.at(0 + i, mat_a@.cols as int + j),
            );
        }
        Ok(x)
    }

    /// The inverse, by elimination with partial pivoting. Fails with
    /// `Singular` exactly when the matrix is singular.
    pub fn inv_ge(&self) -> (r: Result<DenseMatrix, MatrixError>)
        requires
            self@.complete(),
            self@.square(),
            self@.cols + self@.cols <= usize::MAX,
        ensures
            r is Err <==> singular(self@),
            r is Err <==> self@.det() == 0real,
            r is Err ==> r->Err_0 == MatrixError::Singular,
            r is Ok ==> r->Ok_0@.complete() && r->Ok_0@.same_shape(self@) && self@.product(
                r->Ok_0@,
            ) == Matrix::identity(self@.rows) && r->Ok_0@.product(self@) == Matrix::identity(
                self@.rows,
            ),
    {
        let unit = DenseMatrix::eye(self.row_num);
        proof {
            lemma_tabulate(
                self@.rows,
                self@.rows,
                |i: int, j: int|
                    if i == j {
                        1real
                    } else {
                        0real
                    },
            );
        }
        let r = DenseMatrix::solve_ge(self, &unit);
        proof {
            assert(self@.complete());
            if r is Ok {
                lemma_inverse_two_sided(self@, r->Ok_0@);
            }
        }
        r
    }

    /// The determinant by elimination with partial pivoting: the product of
    /// the pivots, negated once for every exchange of rows.
    pub fn det_ge(&self) -> (d: Rational)
        requires
            self@.complete(),
        ensures
            d@ == self@.det(),
    {
        if self.row_num != self.col_num {
            return Rational::zero();
        }
        if self.row_num == 0 {
            return Rational::one();
        }
        let mut mat = self.scalar_mul(Rational::one());
        proof {
            lemma_equal(mat@, self@);
        }
        det_reduce(&mut mat)
    }

    /// The text of the matrix: row by row, the entries of a row separated
    /// by spaces. A matrix that lacks an entry has no text.
    pub fn show(&self) -> (text: String)
        ensures
            text@ == if self@.complete() {
                page_text(self@, self@.rows)
            } else {
                Seq::<char>::empty()
            },
    {
        if self.is_complete() {
            render(self)
        } else {
            String::new()
        }
    }

    /// The square of the Frobenius norm: the trace of `A^T A`.
    pub fn norm2_squared(&self) -> (v: Rational)
        requires
            self@.complete(),
        ensures
            v@ == self@.transpose().product(self@).trace(),
    {
        let at = self.t();
        proof {
            lemma_tabulate(self@.cols, self@.rows, |i: int, j: int| self@.at(j, i));
            lemma_tabulate(
                self@.cols,
                self@.cols,
                |i: int, j: int| dot(self@.transpose(), self@, i, j, self@.transpose().cols),
            );
        }
        at.dot_mul(self).trace()
    }

    /// The matrix of the given shape whose entries are `slice`, row by row.
    pub fn from(row_num: usize, col_num: usize, slice: &[Rational]) -> (r: DenseMatrix)
        requires
            row_num * col_num <= slice@.len(),
        ensures
            r@ == Matrix::tabulate(
                row_num as nat,
                col_num as nat,
                |i: int, j: int| slice@[i * col_num + j]@,
            ),
    {
        let mut out = DenseMatrix::new(row_num, col_num);
        let seed = DenseMatrix::new(0, 0);
        assert(seed@.complete());
        fill(&mut out, &Rule::Constant, &seed, &seed, &Rational::zero());
        let len = slice.len();
        let mut i: usize = 0;
        while i < row_num
            invariant
                i <= row_num,
                len == slice@.len(),
                row_num * col_num <= slice@.len(),
                out@.complete(),
                out@.rows == row_num,
                out@.cols == col_num,
                forall|x: int, y: int|
                    0 <= x < i && 0 <= y < col_num ==> #[trigger] out@.at(x, y) == slice@[x
                        * col_num + y]@,
            decreases row_num - i,
        {
            let mut j: usize = 0;
            while j < col_num
                invariant
                    i < row_num,
                    j <= col_num,
                    len == slice@.len(),
                    row_num * col_num <= slice@.len(),
                    out@.complete(),
                    out@.rows == row_num,
                    out@.cols == col_num,
                    forall|x: int, y: int|
                        0 <= x < i && 0 <= y < col_num ==> #[trigger] out@.at(x, y) == slice@[x
                            * col_num + y]@,
                    forall|y: int|
                        0 <= y < j ==> #[trigger] out@.at(i as int, y) == slice@[i * col_num
                            + y]@,
                decreases col_num - j,
            {
                proof {
                    lemma_flat_index(i as int, j as int, row_num as int, col_num as int);
                }
                let v = slice[i * col_num + j].clone();
                put(&mut out, i, j, v);
                j = j + 1;
            }
            i = i + 1;
        }
        proof {
            lemma_equal(
                out@,
                Matrix::tabulate(
                    row_num as nat,
                    col_num as nat,
                    |i: int, j: int| slice@[i * col_num + j]@,
                ),
            );
        }
        out
    }

    /// The number of rows.
    pub fn row(&self) -> (n: usize)
        ensures
            n == self@.rows,
    {
        self.row_num
    }

    /// The number of columns.
    pub fn col(&self) -> (n: usize)
        ensures
            n == self@.cols,
    {
        self.col_num
    }
}

impl MatOps<Rational> for DenseMatrix {
    type Output = DenseMatrix;

    open spec fn model(&self) -> Matrix {
        self@
    }

    open spec fn output_model(out: &DenseMatrix) -> Matrix {
        out@
    }

    proof fn lemma_model_bounded(&self) {
    }

    fn t(&self) -> (r: DenseMatrix) {
        self.t()
    }

    fn set_v(&mut self, row: usize, col: usize, v: Rational) {
        self.set_v(row, col, v)
    }

    fn get_v(&self, row: usize, col: usize) -> (r: Result<Rational, MatrixError>) {
        self.get_v(row, col)
    }

    fn row(&self) -> (n: usize) {
        self.row()
    }

    fn col(&self) -> (n: usize) {
        self.col()
    }
}

} // verus!
