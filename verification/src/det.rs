//! The determinant under row operations.
//!
//! The determinant is defined by cofactor expansion along the first column.
//! This module proves, from that definition, what elimination relies on:
//! exchanging two rows changes the sign, subtracting a multiple of another
//! row changes nothing, and a triangular matrix has the product of its
//! diagonal as determinant.

use crate::model::Matrix;
use crate::model::diag_product;
use crate::model::expansion;
use crate::model::sign;
use vstd::prelude::*;

verus! {

/// Term `t` of the cofactor expansion along the first column.
pub open spec fn term(m: Matrix, t: int) -> real {
    sign(t) * m.at(t, 0) * m.minor(t, 0).det()
}

/// Every entry below the diagonal in the first `r` columns is zero.
pub open spec fn below_zero(m: Matrix, r: int) -> bool {
    forall|i: int, c: int| 0 <= c < r && c < i < m.rows ==> #[trigger] m.at(i, c) == 0real
}

/// `m` with row `a` replaced by a copy of row `b`.
pub open spec fn copy_row(m: Matrix, a: int, b: int) -> Matrix {
    Matrix::tabulate(
        m.rows,
        m.cols,
        |i: int, j: int|
            if i == a {
                m.at(b, j)
            } else {
                m.at(i, j)
            },
    )
}

/// One more term of the expansion.
pub proof fn lemma_expansion_step(m: Matrix, k: nat)
    requires
        m.rows >= 1,
        k >= 1,
    ensures
        expansion(m, k) == expansion(m, (k - 1) as nat) + term(m, k - 1),
{
}

/// From size two on, the determinant is the full expansion.
pub proof fn lemma_det_expansion(m: Matrix)
    requires
        m.complete(),
        m.square(),
        m.rows >= 2,
    ensures
        m.det() == expansion(m, m.rows),
{
    if m.rows == 2 {
        let a = m.at(0, 0);
        let b = m.at(0, 1);
        let c = m.at(1, 0);
        let d = m.at(1, 1);
        let m0 = m.minor(0, 0);
        let m1 = m.minor(1, 0);
        assert(m0.det() == d);
        assert(m1.det() == b);
        lemma_expansion_step(m, 2);
        lemma_expansion_step(m, 1);
        assert(expansion(m, 0) == 0real);
        let t0 = term(m, 0);
        let t1 = term(m, 1);
        assert(t0 == 1real * a * d);
        assert(t1 == (-1real) * c * b);
        assert(0real + 1real * a * d + (-1real) * c * b == a * d - b * c) by (nonlinear_arith);
    }
}

/// If the first column is zero below its first entry, only the first term
/// of the expansion is left.
pub proof fn lemma_expansion_first(m: Matrix, k: nat)
    requires
        m.rows >= 1,
        1 <= k <= m.rows,
        forall|t: int| 1 <= t < m.rows ==> #[trigger] m.at(t, 0) == 0real,
    ensures
        expansion(m, k) == term(m, 0),
    decreases k,
{
    lemma_expansion_step(m, k);
    if k == 1 {
        assert(expansion(m, 0) == 0real);
    } else {
        lemma_expansion_first(m, (k - 1) as nat);
        let s = sign(k - 1);
        let x = m.at(k - 1, 0);
        let d = m.minor(k - 1, 0).det();
        assert(s * 0real * d == 0real) by (nonlinear_arith);
    }
}

/// If the first column is zero, so is the expansion.
pub proof fn lemma_expansion_zero(m: Matrix, k: nat)
    requires
        m.rows >= 1,
        k <= m.rows,
        forall|t: int| 0 <= t < m.rows ==> #[trigger] m.at(t, 0) == 0real,
    ensures
        expansion(m, k) == 0real,
    decreases k,
{
    if k > 0 {
        lemma_expansion_step(m, k);
        lemma_expansion_zero(m, (k - 1) as nat);
        let s = sign(k - 1);
        let x = m.at(k - 1, 0);
        let d = m.minor(k - 1, 0).det();
        assert(s * 0real * d == 0real) by (nonlinear_arith);
    }
}

/// The product of the diagonal, with the first entry taken out.
pub proof fn lemma_diag_product_minor(m: Matrix, k: nat)
    requires
        m.complete(),
        m.square(),
        k + 1 <= m.rows,
    ensures
        diag_product(m, k + 1) == m.at(0, 0) * diag_product(m.minor(0, 0), k),
    decreases k,
{
    let sub = m.minor(0, 0);
    if k == 0 {
        assert(diag_product(m, 0) == 1real);
        assert(diag_product(m, 1) == diag_product(m, 0) * m.at(0, 0));
        assert(diag_product(sub, 0) == 1real);
    } else {
        lemma_diag_product_minor(m, (k - 1) as nat);
        let a = m.at(0, 0);
        let p = diag_product(sub, (k - 1) as nat);
        let x = m.at(k as int, k as int);
        assert(sub.at(k - 1, k - 1) == x);
        assert(diag_product(m, k + 1) == diag_product(m, k) * x);
        assert(diag_product(sub, k) == p * sub.at(k - 1, k - 1));
        assert((a * p) * x == a * (p * x)) by (nonlinear_arith);
    }
}

/// A matrix that is zero below the diagonal has the product of its diagonal
/// as determinant.
pub proof fn lemma_det_triangular(m: Matrix)
    requires
        m.complete(),
        m.square(),
        m.rows >= 1,
        below_zero(m, m.rows as int),
    ensures
        m.det() == diag_product(m, m.rows),
    decreases m.rows,
{
    let n = m.rows;
    let a = m.at(0, 0);
    assert(diag_product(m, 0) == 1real);
    assert(diag_product(m, 1) == diag_product(m, 0) * a);
    if n == 1 {
    } else if n == 2 {
        let b = m.at(0, 1);
        let c = m.at(1, 0);
        let d = m.at(1, 1);
        assert(c == 0real);
        assert(diag_product(m, 2) == diag_product(m, 1) * d);
        assert(a * d - b * 0real == (1real * a) * d) by (nonlinear_arith);
    } else {
        let sub = m.minor(0, 0);
        assert(below_zero(sub, sub.rows as int)) by {
            assert forall|i: int, c: int| 0 <= c < sub.rows && c < i < sub.rows implies #[trigger]
                sub.at(i, c) == 0real by {
                assert(m.at(i + 1, c + 1) == 0real);
            }
        }
        lemma_det_triangular(sub);
        lemma_expansion_first(m, n);
        lemma_diag_product_minor(m, (n - 1) as nat);
        let d = sub.det();
        assert(1real * a * d == a * d) by (nonlinear_arith);
    }
}

/// A matrix reduced up to a column that is zero at and below the diagonal
/// has determinant zero.
pub proof fn lemma_det_zero_pivot(m: Matrix, r: int)
    requires
        m.complete(),
        m.square(),
        0 <= r < m.rows,
        below_zero(m, r),
        forall|i: int| r <= i < m.rows ==> #[trigger] m.at(i, r) == 0real,
    ensures
        m.det() == 0real,
    decreases m.rows,
{
    let n = m.rows;
    if n == 1 {
    } else if n == 2 {
        let a = m.at(0, 0);
        let b = m.at(0, 1);
        let c = m.at(1, 0);
        let d = m.at(1, 1);
        if r == 0 {
            assert(a == 0real && c == 0real);
            assert(0real * d - b * 0real == 0real) by (nonlinear_arith);
        } else {
            assert(c == 0real && d == 0real);
            assert(a * 0real - b * 0real == 0real) by (nonlinear_arith);
        }
    } else {
        if r == 0 {
            lemma_expansion_zero(m, n);
        } else {
            let sub = m.minor(0, 0);
            assert(below_zero(sub, r - 1)) by {
                assert forall|i: int, c: int| 0 <= c < r - 1 && c < i < sub.rows implies #[trigger]
                    sub.at(i, c) == 0real by {
                    assert(m.at(i + 1, c + 1) == 0real);
                }
            }
            assert forall|i: int| r - 1 <= i < sub.rows implies #[trigger] sub.at(i, r - 1)
                == 0real by {
                assert(m.at(i + 1, r) == 0real);
            }
            lemma_det_zero_pivot(sub, r - 1);
            lemma_expansion_first(m, n);
            let a = m.at(0, 0);
            let d = sub.det();
            assert(1real * a * 0real == 0real) by (nonlinear_arith);
        }
    }
}

} // verus!
