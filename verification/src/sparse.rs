//! Sparse matrices: storage that holds the entries other than zero.

use crate::adjugate::lemma_adjoint_inverse;
use crate::common::MatOps;
use crate::common::MatrixError;
use crate::common::key;
use crate::common::key_of;
use crate::fill::Rule;
use crate::fill::fill;
use crate::fill::read;
use crate::fill::signed_one;
use crate::fill::trace_of;
use crate::gauss::backward;
use crate::gauss::det_reduce;
use crate::gauss::echelon;
use crate::gauss::forward;
use crate::gauss::put;
use crate::iterative::CgState;
use crate::iterative::cg_run;
use crate::iterative::cg_start;
use crate::iterative::lemma_inverse_found;
use crate::iterative::lemma_inverse_two_sided;
use crate::iterative::right_inverse;
use crate::iterative::sor_iterate;
use crate::iterative::sor_offset;
use crate::iterative::sor_split;
use crate::iterative::sor_step;
use crate::kernel::singular;
use crate::model::Matrix;
use crate::model::expansion;
use crate::model::lemma_equal;
use crate::model::lemma_tabulate;
use crate::model::sign;
use crate::rational::Rational;
use crate::regular::lemma_singular_iff_det_zero;
use crate::rowops::lemma_kernel_chain;
use crate::solution::lemma_concat_left;
use crate::solution::lemma_reduced_is_regular;
use crate::solution::lemma_reduced_solves;
use crate::solution::lemma_stuck_is_singular;
use crate::text::page_text;
use crate::text::render;
use std::collections::HashMap;
use vstd::prelude::*;
use vstd::set_lib::lemma_map_size;

verus! {

/// A matrix of fixed shape that stores only its entries other than zero. An
/// entry that is not stored reads as zero.
pub struct SparseMatrix {
    row_num: usize,
    col_num: usize,
    elements: HashMap<u128, Rational>,
}

impl View for SparseMatrix {
    type V = Matrix;

    closed spec fn view(&self) -> Matrix {
        Matrix::tabulate(
            self.row_num as nat,
            self.col_num as nat,
            |i: int, j: int|
                if self.elements@.contains_key(key_of(i, j)) {
                    self.elements@[key_of(i, j)]@
                } else {
                    0real
                },
        )
    }
}

impl SparseMatrix {
    /// Storage holds no zero, and nothing outside the shape.
    #[verifier::type_invariant]
    spec fn compact(self) -> bool {
        forall|k: u128| #[trigger]
            self.elements@.contains_key(k) ==> {
                &&& self.elements@[k]@ != 0real
                &&& k / 0x1_0000_0000_0000_0000 < self.row_num
                &&& k % 0x1_0000_0000_0000_0000 < self.col_num
            }
    }

    /// The entries held in storage, by index.
    pub closed spec fn stored(&self) -> Map<(int, int), real> {
        Map::new(
            |p: (int, int)|
                0 <= p.0 < self.row_num && 0 <= p.1 < self.col_num
                    && self.elements@.contains_key(key_of(p.0, p.1)),
            |p: (int, int)| self.elements@[key_of(p.0, p.1)]@,
        )
    }

    /// A matrix of the given shape whose every entry is zero.
    pub fn new(row_num: usize, col_num: usize) -> (r: SparseMatrix)
        ensures
            r@ == Matrix::constant(row_num as nat, col_num as nat, 0real),
            r.stored() == Map::<(int, int), real>::empty(),
    {
        let r = SparseMatrix { row_num, col_num, elements: HashMap::new() };
        assert(r@ =~= Matrix::constant(row_num as nat, col_num as nat, 0real));
        assert(r.stored() =~= Map::<(int, int), real>::empty());
        r
    }

    /// Stores `v` at `(row, col)`; an index outside the shape is ignored.
    /// Storing zero leaves no entry at the index.
    pub fn set_v(&mut self, row: usize, col: usize, v: Rational)
        ensures
            old(self)@.in_bounds(row as int, col as int) ==> final(self)@ == old(self)@.with(
                row as int,
                col as int,
                v@,
            ),
            !old(self)@.in_bounds(row as int, col as int) ==> final(self)@ == old(self)@,
            old(self)@.in_bounds(row as int, col as int) && v@ != 0real ==> final(self).stored()
                == old(self).stored().insert((row as int, col as int), v@),
            old(self)@.in_bounds(row as int, col as int) && v@ == 0real ==> final(self).stored()
                == old(self).stored().remove((row as int, col as int)),
            !old(self)@.in_bounds(row as int, col as int) ==> final(self).stored() == old(
                self,
            ).stored(),
    {
        if row < self.row_num && col < self.col_num {
            proof {
                use_type_invariant(&*self);
            }
            let ghost value = v@;
            let k = key(row, col);
            assert forall|p: (int, int)|
                0 <= p.0 < self.row_num && 0 <= p.1 < self.col_num implies (key_of(p.0, p.1) == k
                <==> p == (row as int, col as int)) by {}
            let mut elements = HashMap::new();
            std::mem::swap(&mut self.elements, &mut elements);
            if v.is_zero() {
                elements.remove(&k);
            } else {
                elements.insert(k, v);
            }
            std::mem::swap(&mut self.elements, &mut elements);
            proof {
                if value == 0real {
                    assert(self.stored() =~= old(self).stored().remove((row as int, col as int)));
                } else {
                    assert(self.stored() =~= old(self).stored().insert(
                        (row as int, col as int),
                        value,
                    ));
                }
                assert(self@ =~= old(self)@.with(row as int, col as int, value));
            }
        }
    }

    /// Reads the entry at `(row, col)`; an entry that is not stored is zero.
    pub fn get_v(&self, row: usize, col: usize) -> (r: Result<Rational, MatrixError>)
        ensures
            !self@.in_bounds(row as int, col as int) ==> r == Err::<Rational, MatrixError>(
                MatrixError::IndexOutOfBounds,
            ),
            self@.in_bounds(row as int, col as int) ==> r is Ok && r->Ok_0@ == self@.at(
                row as int,
                col as int,
            ),
    {
        if row >= self.row_num || col >= self.col_num {
            return Err(MatrixError::IndexOutOfBounds);
        }
        let k = key(row, col);
        match self.elements.get(&k) {
            Some(v) => Ok(v.clone()),
            None => Ok(Rational::zero()),
        }
    }

    /// The transpose.
    pub fn t(&self) -> (r: SparseMatrix)
        ensures
            r@ == self@.transpose(),
    {
        let rows = self.row_num;
        let cols = self.col_num;
        let mut out = SparseMatrix::new(cols, rows);
        let mut i: usize = 0;
        while i < rows
            invariant
                i <= rows,
                rows == self.row_num,
                cols == self.col_num,
                out@.rows == cols,
                out@.cols == rows,
                out@.complete(),
                forall|x: int, y: int|
                    0 <= x < i && 0 <= y < cols ==> #[trigger] out@.at(y, x) == self@.at(x, y),
            decreases rows - i,
        {
            let mut j: usize = 0;
            while j < cols
                invariant
                    i < rows,
                    j <= cols,
                    rows == self.row_num,
                    cols == self.col_num,
                    out@.rows == cols,
                    out@.cols == rows,
                    out@.complete(),
                    forall|x: int, y: int|
                        0 <= x < i && 0 <= y < cols ==> #[trigger] out@.at(y, x) == self@.at(x, y),
                    forall|y: int|
                        0 <= y < j ==> #[trigger] out@.at(y, i as int) == self@.at(i as int, y),
                decreases cols - j,
            {
                let ghost before = out@;
                match self.get_v(i, j) {
                    Ok(v) => {
                        out.set_v(j, i, v);
                    },
                    Err(_) => {
                        assert(false);
                    },
                }
                proof {
                    assert(out@.complete()) by {
                        assert forall|x: int, y: int| #[trigger]
                            out@.has(x, y) <==> out@.in_bounds(x, y) by {
                            assert(before.has(x, y) <==> before.in_bounds(x, y));
                        }
                    }
                    assert forall|x: int, y: int| 0 <= x < i && 0 <= y < cols implies #[trigger]
                        out@.at(y, x) == self@.at(x, y) by {
                        assert(before.at(y, x) == self@.at(x, y));
                    }
                    assert forall|y: int| 0 <= y < j + 1 implies #[trigger] out@.at(y, i as int)
                        == self@.at(i as int, y) by {
                        if y < j {
                            assert(before.at(y, i as int) == self@.at(i as int, y));
                        }
                    }
                }
                j = j + 1;
            }
            proof {
                let now = out@;
                assert forall|x: int, y: int| 0 <= x < i + 1 && 0 <= y < cols implies #[trigger]
                    now.at(y, x) == self@.at(x, y) by {
                    if x == i {
                        assert(now.at(y, i as int) == self@.at(i as int, y));
                    }
                }
            }
            i = i + 1;
        }
        proof {
            lemma_equal(out@, self@.transpose());
        }
        out
    }

    /// Rows `row_from..=row_to` and columns `col_from..=col_to`, indexed
    /// again from zero.
    pub fn slice(&self, row_from: usize, row_to: usize, col_from: usize, col_to: usize) -> (r:
        SparseMatrix)
        requires
            row_from <= row_to < self@.rows,
            col_from <= col_to < self@.cols,
        ensures
            r@ == self@.slice(row_from as int, row_to as int, col_from as int, col_to as int),
    {
        let mut out = SparseMatrix::new(row_to - row_from + 1, col_to - col_from + 1);
        fill(&mut out, &Rule::Sliced { r0: row_from, c0: col_from }, self, self, &Rational::zero());
        assert(out@ =~= self@.slice(
            row_from as int,
            row_to as int,
            col_from as int,
            col_to as int,
        ));
        out
    }

    /// Every entry multiplied by `k`.
    pub fn scalar_mul(&self, k: Rational) -> (r: SparseMatrix)
        ensures
            r@ == self@.scale(k@),
    {
        self.mul_scalar_f(&k)
    }

    /// Every entry multiplied by `k`.
    fn mul_scalar_f(&self, k: &Rational) -> (r: SparseMatrix)
        ensures
            r@ == self@.scale(k@),
    {
        let mut out = SparseMatrix::new(self.row_num, self.col_num);
        fill(&mut out, &Rule::Scaled, self, self, k);
        assert(out@ =~= self@.scale(k@));
        out
    }

    /// `mat` appended to the right of `self`.
    pub fn concat(&self, mat: &SparseMatrix) -> (r: SparseMatrix)
        requires
            self@.rows == mat@.rows,
            self@.cols + mat@.cols <= usize::MAX,
        ensures
            r@ == self@.concat(mat@),
    {
        let mut out = SparseMatrix::new(self.row_num, self.col_num + mat.col_num);
        fill(&mut out, &Rule::Joined, self, mat, &Rational::zero());
        assert(out@ =~= self@.concat(mat@));
        out
    }

    /// The matrix product `self * mat`.
    pub fn dot_mul(&self, mat: &SparseMatrix) -> (r: SparseMatrix)
        requires
            self@.cols == mat@.rows,
        ensures
            r@ == self@.product(mat@),
    {
        let mut out = SparseMatrix::new(self.row_num, mat.col_num);
        fill(&mut out, &Rule::Product, self, mat, &Rational::zero());
        assert(out@ =~= self@.product(mat@));
        out
    }

    /// The entrywise product.
    pub fn mul(&self, mat: &SparseMatrix) -> (r: SparseMatrix)
        requires
            self@.same_shape(mat@),
        ensures
            r@ == self@.hadamard(mat@),
    {
        let mut out = SparseMatrix::new(self.row_num, self.col_num);
        fill(&mut out, &Rule::Hadamard, self, mat, &Rational::zero());
        assert(out@ =~= self@.hadamard(mat@));
        out
    }

    /// The entrywise additive inverse.
    pub fn neg(&self) -> (r: SparseMatrix)
        ensures
            r@ == self@.negation(),
    {
        let mut out = SparseMatrix::new(self.row_num, self.col_num);
        fill(&mut out, &Rule::Negated, self, self, &Rational::zero());
        assert(out@ =~= self@.negation());
        out
    }

    /// The entrywise sum.
    pub fn add(&self, mat: &SparseMatrix) -> (r: SparseMatrix)
        requires
            self@.same_shape(mat@),
        ensures
            r@ == self@.sum(mat@),
    {
        let mut out = SparseMatrix::new(self.row_num, self.col_num);
        fill(&mut out, &Rule::Sum, self, mat, &Rational::zero());
        assert(out@ =~= self@.sum(mat@));
        out
    }

    /// The entrywise difference.
    pub fn sub(&self, mat: &SparseMatrix) -> (r: SparseMatrix)
        requires
            self@.same_shape(mat@),
        ensures
            r@ == self@.difference(mat@),
    {
        let mut out = SparseMatrix::new(self.row_num, self.col_num);
        fill(&mut out, &Rule::Difference, self, mat, &Rational::zero());
        assert(out@ =~= self@.difference(mat@));
        out
    }

    /// The square matrix of size `num` whose every entry is one.
    pub fn ones(num: usize) -> (r: SparseMatrix)
        ensures
            r@ == Matrix::constant(num as nat, num as nat, 1real),
    {
        let mut out = SparseMatrix::new(num, num);
        let seed = SparseMatrix::new(0, 0);
        fill(&mut out, &Rule::Constant, &seed, &seed, &Rational::one());
        assert(out@ =~= Matrix::constant(num as nat, num as nat, 1real));
        out
    }

    /// The square matrix of size `num` whose every entry is zero.
    pub fn zeros(num: usize) -> (r: SparseMatrix)
        ensures
            r@ == Matrix::constant(num as nat, num as nat, 0real),
            r.stored() == Map::<(int, int), real>::empty(),
    {
        SparseMatrix::new(num, num)
    }

    /// The identity matrix of size `num`.
    pub fn eye(num: usize) -> (r: SparseMatrix)
        ensures
            r@ == Matrix::identity(num as nat),
    {
        let mut out = SparseMatrix::new(num, num);
        let seed = SparseMatrix::new(0, 0);
        fill(&mut out, &Rule::Identity, &seed, &seed, &Rational::zero());
        assert(out@ =~= Matrix::identity(num as nat));
        out
    }

    /// The diagonal kept, every other entry zero.
    pub fn diag(&self) -> (r: SparseMatrix)
        ensures
            r@ == self@.diagonal(),
    {
        let mut out = SparseMatrix::new(self.row_num, self.col_num);
        fill(&mut out, &Rule::Diagonal, self, self, &Rational::zero());
        assert(out@ =~= self@.diagonal());
        out
    }

    /// The diagonal and what lies above it kept, every other entry zero.
    pub fn tri_u(&self) -> (r: SparseMatrix)
        ensures
            r@ == self@.upper(),
    {
        let mut out = SparseMatrix::new(self.row_num, self.col_num);
        fill(&mut out, &Rule::Upper, self, self, &Rational::zero());
        assert(out@ =~= self@.upper());
        out
    }

    /// The diagonal and what lies below it kept, every other entry zero.
    pub fn tri_l(&self) -> (r: SparseMatrix)
        ensures
            r@ == self@.lower(),
    {
        let mut out = SparseMatrix::new(self.row_num, self.col_num);
        fill(&mut out, &Rule::Lower, self, self, &Rational::zero());
        assert(out@ =~= self@.lower());
        out
    }

    /// What lies above the diagonal kept, every other entry zero.
    pub fn tri_strict_u(&self) -> (r: SparseMatrix)
        ensures
            r@ == self@.strict_upper(),
    {
        let mut out = SparseMatrix::new(self.row_num, self.col_num);
        fill(&mut out, &Rule::StrictUpper, self, self, &Rational::zero());
        assert(out@ =~= self@.strict_upper());
        out
    }

    /// What lies below the diagonal kept, every other entry zero.
    pub fn tri_strict_l(&self) -> (r: SparseMatrix)
        ensures
            r@ == self@.strict_lower(),
    {
        let mut out = SparseMatrix::new(self.row_num, self.col_num);
        fill(&mut out, &Rule::StrictLower, self, self, &Rational::zero());
        assert(out@ =~= self@.strict_lower());
        out
    }

    /// The sum of the diagonal entries.
    pub fn trace(&self) -> (sum: Rational)
        ensures
            sum@ == self@.trace(),
    {
        trace_of(self)
    }

    /// The matrix without row `row` and column `col`.
    pub fn cofactors(&self, row: usize, col: usize) -> (r: SparseMatrix)
        requires
            self@.rows >= 1,
            self@.cols >= 1,
        ensures
            r@ == self@.minor(row as int, col as int),
    {
        let mut out = SparseMatrix::new(self.row_num - 1, self.col_num - 1);
        fill(&mut out, &Rule::Minor { row, col }, self, self, &Rational::zero());
        assert(out@ =~= self@.minor(row as int, col as int));
        out
    }

    /// The number of entries held in storage. None of them is zero, each
    /// lies inside the shape, and every other entry of the matrix is zero.
    pub fn entry_count(&self) -> (n: usize)
        ensures
            self.stored().dom().finite(),
            n == self.stored().dom().len(),
            forall|i: int, j: int| #[trigger]
                self.stored().contains_key((i, j)) ==> self@.in_bounds(i, j) && self.stored()[(
                    i,
                    j,
                )] != 0real,
            forall|i: int, j: int|
                self@.in_bounds(i, j) ==> #[trigger] self@.at(i, j) == if self.stored().contains_key(
                    (i, j),
                ) {
                    self.stored()[(i, j)]
                } else {
                    0real
                },
    {
        proof {
            use_type_invariant(self);
            let keys = self.elements@.dom();
            let index = |k: u128|
                ((k / 0x1_0000_0000_0000_0000) as int, (k % 0x1_0000_0000_0000_0000) as int);
            assert forall|a: u128, b: u128|
                keys.contains(a) && keys.contains(b) && #[trigger] index(a) == #[trigger] index(
                    b,
                ) implies a == b by {}
            assert(keys.map(index) =~= self.stored().dom()) by {
                assert forall|p: (int, int)| self.stored().dom().contains(p) implies keys.map(
                    index,
                ).contains(p) by {
                    let k = key_of(p.0, p.1);
                    assert(keys.contains(k) && index(k) == p);
                }
                assert forall|p: (int, int)| keys.map(index).contains(p) implies self.stored().dom().contains(
                    p,
                ) by {
                    let k = choose|k: u128| keys.contains(k) && index(k) == p;
                    assert(self.elements@.contains_key(k));
                    assert(key_of(p.0, p.1) == k);
                }
            }
            lemma_map_size(keys, self.stored().dom(), index);
        }
        self.elements.len()
    }

    /// The determinant by cofactor expansion along the first column. The
    /// running time grows with the factorial of the size.
    pub fn det_adj(&self) -> (d: Rational)
        ensures
            d@ == self@.det(),
        decreases self@.rows,
    {
        proof {
            self.lemma_complete();
        }
        if self.row_num != self.col_num {
            return Rational::zero();
        }
        let n = self.row_num;
        if n == 0 {
            return Rational::one();
        }
        if n == 1 {
            assert(self@.has(0, 0) <==> self@.in_bounds(0, 0));
            return read(self, 0, 0);
        }
        if n == 2 {
            assert(self@.has(0, 0) <==> self@.in_bounds(0, 0));
            assert(self@.has(0, 1) <==> self@.in_bounds(0, 1));
            assert(self@.has(1, 0) <==> self@.in_bounds(1, 0));
            assert(self@.has(1, 1) <==> self@.in_bounds(1, 1));
            let a = read(self, 0, 0);
            let b = read(self, 0, 1);
            let c = read(self, 1, 0);
            let d = read(self, 1, 1);
            return a.mul(&d).sub(&b.mul(&c));
        }
        let mut sum = Rational::zero();
        let mut i: usize = 0;
        while i < n
            invariant
                i <= n,
                n == self@.rows,
                n == self@.cols,
                self@.complete(),
                sum@ == expansion(self@, i as nat),
            decreases n - i,
        {
            assert(self@.has(i as int, 0) <==> self@.in_bounds(i as int, 0));
            let sgn = signed_one(i, 0);
            let minor = self.cofactors(i, 0);
            proof {
                lemma_tabulate(
                    (self@.rows - 1) as nat,
                    (self@.cols - 1) as nat,
                    |x: int, y: int|
                        self@.at(
                            if x < i {
                                x
                            } else {
                                x + 1
                            },
                            if y < 0 {
                                y
                            } else {
                                y + 1
                            },
                        ),
                );
            }
            let sub = minor.det_adj();
            sum = sum.add(&sgn.mul(&read(self, i, 0)).mul(&sub));
            i = i + 1;
        }
        sum
    }

    /// The transpose of the matrix of cofactors.
    pub fn adjoint(&self) -> (r: SparseMatrix)
        ensures
            r@ == self@.adjoint(),
    {
        proof {
            self.lemma_complete();
        }
        let rows = self.row_num;
        let cols = self.col_num;
        let mut out = SparseMatrix::new(rows, cols);
        let seed = SparseMatrix::new(0, 0);
        fill(&mut out, &Rule::Constant, &seed, &seed, &Rational::zero());
        let mut i: usize = 0;
        while i < rows
            invariant
                i <= rows,
                rows == self@.rows,
                cols == self@.cols,
                self@.complete(),
                out@.complete(),
                out@.rows == rows,
                out@.cols == cols,
                forall|x: int, y: int|
                    0 <= x < i && 0 <= y < cols ==> #[trigger] out@.at(x, y) == sign(x + y)
                        * self@.minor(x, y).det(),
            decreases rows - i,
        {
            let mut j: usize = 0;
            while j < cols
                invariant
                    i < rows,
                    j <= cols,
                    rows == self@.rows,
                    cols == self@.cols,
                    self@.complete(),
                    out@.complete(),
                    out@.rows == rows,
                    out@.cols == cols,
                    forall|x: int, y: int|
                        0 <= x < i && 0 <= y < cols ==> #[trigger] out@.at(x, y) == sign(x + y)
                            * self@.minor(x, y).det(),
                    forall|y: int|
                        0 <= y < j ==> #[trigger] out@.at(i as int, y) == sign(i + y)
                            * self@.minor(i as int, y).det(),
                decreases cols - j,
            {
                let sgn = signed_one(i, j);
                let minor = self.cofactors(i, j);
                proof {
                    lemma_tabulate(
                        (self@.rows - 1) as nat,
                        (self@.cols - 1) as nat,
                        |x: int, y: int|
                            self@.at(
                                if x < i {
                                    x
                                } else {
                                    x + 1
                                },
                                if y < j {
                                    y
                                } else {
                                    y + 1
                                },
                            ),
                    );
                }
                let v = sgn.mul(&minor.det_adj());
                put(&mut out, i, j, v);
                j = j + 1;
            }
            i = i + 1;
        }
        let r = out.t();
        proof {
            lemma_equal(r@, self@.adjoint());
        }
        r
    }

    /// The inverse as the adjoint divided by the determinant. Fails with
    /// `Singular` exactly when the determinant is zero.
    pub fn inv_adj(&self) -> (r: Result<SparseMatrix, MatrixError>)
        ensures
            self@.det() == 0real <==> r is Err,
            r is Err ==> r->Err_0 == MatrixError::Singular,
            r is Ok ==> r->Ok_0@ == self@.adjoint().scale(1real / self@.det()),
            r is Ok ==> right_inverse(self@, r->Ok_0@),
            self@.square() ==> (r is Err <==> singular(self@)),
    {
        proof {
            self.lemma_complete();
            if self@.square() {
                lemma_singular_iff_det_zero(self@);
            }
        }
        let det = self.det_adj();
        if det.abs().is_zero() {
            Err(MatrixError::Singular)
        } else {
            let adj = self.adjoint();
            proof {
                self.lemma_complete();
                lemma_adjoint_inverse(self@);
                lemma_tabulate(
                    self@.cols,
                    self@.rows,
                    |i: int, j: int| sign(j + i) * self@.minor(j, i).det(),
                );
            }
            Ok(adj.scalar_mul(Rational::one().div(&det)))
        }
    }

    /// Solves `mat_a * x = mat_b` by elimination with partial pivoting. Fails
    /// with `Singular` exactly when `mat_a` is singular.
    pub fn solve_ge(mat_a: &SparseMatrix, mat_b: &SparseMatrix) -> (r: Result<SparseMatrix, MatrixError>)
        requires
            mat_a@.square(),
            mat_a@.rows == mat_b@.rows,
            mat_a@.cols + mat_b@.cols <= usize::MAX,
        ensures
            r is Err <==> singular(mat_a@),
            r is Err <==> mat_a@.det() == 0real,
            r is Err ==> r->Err_0 == MatrixError::Singular,
            r is Ok ==> r->Ok_0@.complete() && r->Ok_0@.rows == mat_a@.cols && r->Ok_0@.cols
                == mat_b@.cols && mat_a@.product(r->Ok_0@) == mat_b@,
    {
        proof {
            mat_a.lemma_complete();
            mat_b.lemma_complete();
            lemma_concat_left(mat_a@, mat_b@);
            lemma_singular_iff_det_zero(mat_a@);
        }
        if mat_a.row_num == 0 {
            let x = SparseMatrix::new(0, mat_b.col_num);
            proof {
                lemma_equal(mat_a@.product(x@), mat_b@);
            }
            return Ok(x);
        }
        let mut mat = mat_a.concat(mat_b);
        let ghost start = mat@;
        let reduced = forward(&mut mat);
        if !reduced {
            proof {
                let cur = mat@;
                let r = choose|r: int|
                    0 <= r < cur.rows && #[trigger] echelon(cur, r) && forall|i: int|
                        r <= i < cur.rows ==> #[trigger] cur.at(i, r) == 0real;
                lemma_stuck_is_singular(mat_a@, start, cur, r);
            }
            return Err(MatrixError::Singular);
        }
        let ghost middle = mat@;
        backward(&mut mat);
        proof {
            lemma_kernel_chain(start, middle, mat@);
            lemma_reduced_is_regular(mat_a@, start, mat@);
        }
        if mat_b.col_num == 0 {
            let x = SparseMatrix::new(mat_a.col_num, 0);
            proof {
                lemma_equal(mat_a@.product(x@), mat_b@);
            }
            return Ok(x);
        }
        proof {
            lemma_reduced_solves(mat_a@, mat_b@, mat@);
        }
        let rows = mat.row();
        let cols = mat.col();
        let x = mat.slice(0, rows - 1, mat_a.col(), cols - 1);
        proof {
            lemma_tabulate(
                x@.rows,
                x@.cols,
                |i: int, j: int| mat@.at(0 + i, mat_a@.cols as int + j),
            );
        }
        Ok(x)
    }

    /// The inverse, by elimination with partial pivoting. Fails with
    /// `Singular` exactly when the matrix is singular.
    pub fn inv_ge(&self) -> (r: Result<SparseMatrix, MatrixError>)
        requires
            self@.square(),
            self@.cols + self@.cols <= usize::MAX,
        ensures
            r is Err <==> singular(self@),
            r is Err <==> self@.det() == 0real,
            r is Err ==> r->Err_0 == MatrixError::Singular,
            r is Ok ==> r->Ok_0@.complete() && r->Ok_0@.same_shape(self@) && self@.product(
                r->Ok_0@,
            ) == Matrix::identity(self@.rows) && r->Ok_0@.product(self@) == Matrix::identity(
                self@.rows,
            ),
    {
        let unit = SparseMatrix::eye(self.row_num);
        proof {
            lemma_tabulate(
                self@.rows,
                self@.rows,
                |i: int, j: int|
                    if i == j {
                        1real
                    } else {
                        0real
                    },
            );
        }
        let r = SparseMatrix::solve_ge(self, &unit);
        proof {
            self.lemma_complete();
            if r is Ok {
                lemma_inverse_two_sided(self@, r->Ok_0@);
            }
        }
        r
    }

    /// The determinant by elimination with partial pivoting: the product of
    /// the pivots, negated once for every exchange of rows.
    pub fn det_ge(&self) -> (d: Rational)
        ensures
            d@ == self@.det(),
    {
        proof {
            self.lemma_complete();
        }
        if self.row_num != self.col_num {
            return Rational::zero();
        }
        if self.row_num == 0 {
            return Rational::one();
        }
        let mut mat = self.scalar_mul(Rational::one());
        proof {
            lemma_equal(mat@, self@);
        }
        det_reduce(&mut mat)
    }

    /// The entry in the first row and the first column.
    fn first(&self) -> (v: Rational)
        requires
            self@.rows >= 1,
            self@.cols >= 1,
        ensures
            v@ == self@.at(0, 0),
    {
        proof {
            self.lemma_complete();
        }
        assert(self@.has(0, 0) <==> self@.in_bounds(0, 0));
        read(self, 0, 0)
    }

    /// Successive over-relaxation on the normal equations of
    /// `mat_a * x = mat_b`: `max_it` steps from the zero vector. The
    /// relaxation parameter `w_param` is meant to lie between 0 and 2. Where
    /// the matrix `D - w E` of the method has no inverse, no step can be
    /// made, and the zero vector is returned.
    pub fn solve_sor(
        mat_a: &SparseMatrix,
        mat_b: &SparseMatrix,
        w_param: Rational,
        max_it: usize,
    ) -> (x: SparseMatrix)
        requires
            mat_a@.rows == mat_b@.rows,
            mat_a@.cols + mat_a@.cols <= usize::MAX,
        ensures
            !singular(sor_split(mat_a@, w_param@)) ==> x@ == sor_iterate(
                sor_step(mat_a@, w_param@),
                sor_offset(mat_a@, mat_b@, w_param@),
                Matrix::constant(mat_a@.cols, mat_b@.cols, 0real),
                max_it as nat,
            ),
            singular(sor_split(mat_a@, w_param@)) ==> x@ == Matrix::constant(
                mat_a@.cols,
                mat_b@.cols,
                0real,
            ),
    {
        proof {
            mat_a.lemma_complete();
            mat_b.lemma_complete();
        }
        let mut xmat = SparseMatrix::new(mat_a.col_num, mat_b.col_num);
        let mat_at = mat_a.t();
        let mat_a_ = mat_at.dot_mul(mat_a);
        let mat_b_ = mat_at.dot_mul(mat_b);
        let mat_d = mat_a_.diag();
        let minus_one = Rational::one().neg();
        let mat_e = mat_a_.tri_strict_l().mul_scalar_f(&minus_one);
        let mat_f = mat_a_.tri_strict_u().mul_scalar_f(&minus_one);
        let split = mat_d.sub(&mat_e.mul_scalar_f(&w_param));
        assert(split@ == sor_split(mat_a@, w_param@));
        let mat_m = match split.inv_ge() {
            Ok(m) => m,
            Err(_) => {
                return xmat;
            },
        };
        proof {
            split.lemma_complete();
            lemma_inverse_found(split@, mat_m@);
        }
        let one_minus_w = Rational::one().sub(&w_param);
        let b = mat_m.dot_mul(&mat_d.mul_scalar_f(&one_minus_w).add(&mat_f.mul_scalar_f(&w_param)));
        let c = mat_m.dot_mul(&mat_b_.mul_scalar_f(&w_param));
        assert(b@ == sor_step(mat_a@, w_param@));
        assert(c@ == sor_offset(mat_a@, mat_b@, w_param@));
        let ghost start = xmat@;
        let mut it: usize = 0;
        while it < max_it
            invariant
                it <= max_it,
                b@.rows == mat_a@.cols,
                b@.cols == mat_a@.cols,
                c@.rows == mat_a@.cols,
                c@.cols == mat_b@.cols,
                xmat@.rows == mat_a@.cols,
                xmat@.cols == mat_b@.cols,
                xmat@ == sor_iterate(b@, c@, start, it as nat),
            decreases max_it - it,
        {
            xmat = b.dot_mul(&xmat).add(&c);
            it = it + 1;
        }
        xmat
    }

    /// Conjugate gradients on the normal equations of `mat_a * x = mat_b`:
    /// at most `max_it` steps from the zero vector, fewer when the residual
    /// of the normal equations becomes zero. A right side without columns
    /// has the solution without columns.
    pub fn solve_cg(mat_a: &SparseMatrix, mat_b: &SparseMatrix, max_it: usize) -> (x: SparseMatrix)
        requires
            mat_a@.rows == mat_b@.rows,
        ensures
            mat_b@.cols >= 1 ==> x@ == cg_run(mat_a@, cg_start(mat_a@, mat_b@), max_it as nat).x,
            mat_b@.cols == 0 ==> x@ == Matrix::constant(mat_a@.cols, 0, 0real),
    {
        proof {
            mat_a.lemma_complete();
            mat_b.lemma_complete();
        }
        if mat_b.col_num == 0 {
            return SparseMatrix::new(mat_a.col_num, 0);
        }
        let one = Rational::one();
        let mat_at = mat_a.t();
        let mut xmat = SparseMatrix::new(mat_a.col_num, mat_b.col_num);
        let mut r = mat_b.sub(&mat_a.dot_mul(&xmat));
        let mut s = mat_at.dot_mul(&r);
        let mut p = s.mul_scalar_f(&one);
        let mut sts = s.t().dot_mul(&s).first();
        let ghost target = cg_run(mat_a@, cg_start(mat_a@, mat_b@), max_it as nat);
        let mut it: usize = 0;
        while it < max_it
            invariant
                it <= max_it,
                mat_at@ == mat_a@.transpose(),
                mat_a@.rows == mat_b@.rows,
                mat_b@.cols >= 1,
                xmat@.rows == mat_a@.cols,
                xmat@.cols == mat_b@.cols,
                r@.rows == mat_a@.rows,
                r@.cols == mat_b@.cols,
                p@.rows == mat_a@.cols,
                p@.cols == mat_b@.cols,
                target == cg_run(mat_a@, cg_start(mat_a@, mat_b@), max_it as nat),
                target == cg_run(
                    mat_a@,
                    CgState { x: xmat@, r: r@, p: p@, sts: sts@ },
                    (max_it - it) as nat,
                ),
            decreases max_it - it,
        {
            if sts.is_zero() {
                return xmat;
            }
            let q = mat_a.dot_mul(&p);
            let qtq = q.t().dot_mul(&q).first();
            if qtq.is_zero() {
                return xmat;
            }
            let alpha = sts.div(&qtq);
            xmat = xmat.add(&p.mul_scalar_f(&alpha));
            r = r.sub(&q.mul_scalar_f(&alpha));
            s = mat_at.dot_mul(&r);
            let next = s.t().dot_mul(&s).first();
            let beta = next.div(&sts);
            p = s.add(&p.mul_scalar_f(&beta));
            sts = next;
            it = it + 1;
        }
        xmat
    }

    /// The text of the matrix: row by row, the entries of a row separated
    /// by spaces.
    pub fn show(&self) -> (text: String)
        ensures
            text@ == page_text(self@, self@.rows),
    {
        proof {
            self.lemma_complete();
        }
        render(self)
    }

    /// The square of the Frobenius norm: the trace of `A^T A`.
    pub fn norm2_squared(&self) -> (v: Rational)
        ensures
            v@ == self@.transpose().product(self@).trace(),
    {
        self.t().dot_mul(self).trace()
    }

    /// The number of rows.
    pub fn row(&self) -> (n: usize)
        ensures
            n == self@.rows,
    {
        self.row_num
    }

    /// The number of columns.
    pub fn col(&self) -> (n: usize)
        ensures
            n == self@.cols,
    {
        self.col_num
    }

    /// Every index inside the shape has an entry, stored or zero.
    pub proof fn lemma_complete(&self)
        ensures
            self@.complete(),
    {
    }
}

impl MatOps<Rational> for SparseMatrix {
    type Output = SparseMatrix;

    open spec fn model(&self) -> Matrix {
        self@
    }

    open spec fn output_model(out: &SparseMatrix) -> Matrix {
        out@
    }

    proof fn lemma_model_bounded(&self) {
        self.lemma_complete();
    }

    fn t(&self) -> (r: SparseMatrix) {
        proof {
            self.lemma_complete();
        }
        self.t()
    }

    fn set_v(&mut self, row: usize, col: usize, v: Rational) {
        self.set_v(row, col, v)
    }

    fn get_v(&self, row: usize, col: usize) -> (r: Result<Rational, MatrixError>) {
        proof {
            self.lemma_complete();
        }
        self.get_v(row, col)
    }

    fn row(&self) -> (n: usize) {
        self.row()
    }

    fn col(&self) -> (n: usize) {
        self.col()
    }
}

} // verus!
