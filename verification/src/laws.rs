//! Laws of the matrix algebra.
//!
//! Each law is stated over the model that the operations of both kinds of
//! storage are specified by, so it holds of dense and of sparse matrices
//! alike.

use crate::adjugate::lemma_adjoint_inverse;
use crate::det::below_zero;
use crate::det::lemma_det_triangular;
use crate::det_rows::lemma_det_reduce;
use crate::det_swap::lemma_det_swap;
use crate::iterative::lemma_inverse_unique;
use crate::iterative::right_inverse;
use crate::kernel::reduce_row;
use crate::kernel::singular;
use crate::kernel::swap_rows;
use crate::model::Matrix;
use crate::model::diag_product;
use crate::model::dot;
use crate::model::lemma_equal;
use crate::model::sign;
use crate::reals::lemma_mul_one;
use crate::reals::lemma_two_signs;
use crate::regular::lemma_singular_iff_det_zero;
use vstd::prelude::*;

verus! {

/// Addition is associative: `(a + b) + c = a + (b + c)`.
pub proof fn lemma_sum_associative(a: Matrix, b: Matrix, c: Matrix)
    requires
        a.complete(),
        b.complete(),
        c.complete(),
        a.same_shape(b),
        b.same_shape(c),
    ensures
        a.sum(b).sum(c) == a.sum(b.sum(c)),
{
    lemma_equal(a.sum(b).sum(c), a.sum(b.sum(c)));
}

/// Addition is commutative: `a + b = b + a`.
pub proof fn lemma_sum_commutative(a: Matrix, b: Matrix)
    requires
        a.complete(),
        b.complete(),
        a.same_shape(b),
    ensures
        a.sum(b) == b.sum(a),
{
    lemma_equal(a.sum(b), b.sum(a));
}

/// Transposing twice gives the matrix back.
pub proof fn lemma_transpose_involution(a: Matrix)
    requires
        a.complete(),
    ensures
        a.transpose().transpose() == a,
{
    lemma_equal(a.transpose().transpose(), a);
}

/// Row `i` of `a` against column `j` of the identity, over the first `n`
/// columns, is `a[i][j]` once `n` has passed `j`.
proof fn lemma_dot_identity_right(a: Matrix, i: int, j: int, n: nat)
    requires
        0 <= j < a.cols,
        n <= a.cols,
    ensures
        dot(a, Matrix::identity(a.cols), i, j, n) == if j < n {
            a.at(i, j)
        } else {
            0real
        },
    decreases n,
{
    if n > 0 {
        lemma_dot_identity_right(a, i, j, (n - 1) as nat);
        let x = a.at(i, n - 1);
        let e = Matrix::identity(a.cols).at(n - 1, j);
        assert(e == if n - 1 == j {
            1real
        } else {
            0real
        });
        assert(x * e == if n - 1 == j {
            x
        } else {
            0real
        }) by (nonlinear_arith)
            requires
                e == if n - 1 == j {
                    1real
                } else {
                    0real
                },
        ;
    }
}

/// Row `i` of the identity against column `j` of `a`, over the first `n`
/// rows, is `a[i][j]` once `n` has passed `i`.
proof fn lemma_dot_identity_left(a: Matrix, i: int, j: int, n: nat)
    requires
        0 <= i < a.rows,
        n <= a.rows,
    ensures
        dot(Matrix::identity(a.rows), a, i, j, n) == if i < n {
            a.at(i, j)
        } else {
            0real
        },
    decreases n,
{
    if n > 0 {
        lemma_dot_identity_left(a, i, j, (n - 1) as nat);
        let x = a.at(n - 1, j);
        let e = Matrix::identity(a.rows).at(i, n - 1);
        assert(e == if n - 1 == i {
            1real
        } else {
            0real
        });
        assert(e * x == if n - 1 == i {
            x
        } else {
            0real
        }) by (nonlinear_arith)
            requires
                e == if n - 1 == i {
                    1real
                } else {
                    0real
                },
        ;
    }
}

/// The identity is neutral on the right: `a * 1 = a`.
pub proof fn lemma_product_identity_right(a: Matrix)
    requires
        a.complete(),
    ensures
        a.product(Matrix::identity(a.cols)) == a,
{
    let p = a.product(Matrix::identity(a.cols));
    assert forall|i: int, j: int| p.in_bounds(i, j) implies #[trigger] p.at(i, j) == a.at(i, j) by {
        lemma_dot_identity_right(a, i, j, a.cols);
    }
    lemma_equal(p, a);
}

/// The identity is neutral on the left: `1 * a = a`.
pub proof fn lemma_product_identity_left(a: Matrix)
    requires
        a.complete(),
    ensures
        Matrix::identity(a.rows).product(a) == a,
{
    let p = Matrix::identity(a.rows).product(a);
    assert forall|i: int, j: int| p.in_bounds(i, j) implies #[trigger] p.at(i, j) == a.at(i, j) by {
        lemma_dot_identity_left(a, i, j, a.rows);
    }
    lemma_equal(p, a);
}

/// The two ways to an inverse agree: for a square matrix that is not
/// singular, the determinant is not zero, and a right inverse as elimination
/// returns it is the adjoint divided by the determinant.
pub proof fn lemma_inverses_agree(a: Matrix, by_elimination: Matrix)
    requires
        a.complete(),
        a.square(),
        !singular(a),
        right_inverse(a, by_elimination),
    ensures
        a.det() != 0real,
        by_elimination == a.adjoint().scale(1real / a.det()),
{
    lemma_singular_iff_det_zero(a);
    lemma_adjoint_inverse(a);
    lemma_inverse_unique(a, by_elimination, a.adjoint().scale(1real / a.det()));
}

/// `next` comes from `m` by one step of elimination: by exchanging two
/// rows where `flip` is set, else by subtracting a multiple of one row from
/// another.
pub open spec fn row_step(m: Matrix, next: Matrix, flip: bool) -> bool {
    if flip {
        exists|p: int, q: int| 0 <= p < q < m.rows && next == #[trigger] swap_rows(m, p, q)
    } else {
        exists|a: int, b: int, k: real|
            0 <= a < m.rows && 0 <= b < m.rows && a != b && next == #[trigger] reduce_row(
                m,
                a,
                b,
                k,
            )
    }
}

/// The number of exchanges among the first `n` steps.
pub open spec fn exchanges(flips: Seq<bool>, n: nat) -> nat
    decreases n,
{
    if n == 0 {
        0
    } else {
        exchanges(flips, (n - 1) as nat) + if flips[n - 1] {
            1nat
        } else {
            0nat
        }
    }
}

/// After `n` steps of elimination the determinant is what it was, negated
/// once for every exchange.
proof fn lemma_steps_keep_det(chain: Seq<Matrix>, flips: Seq<bool>, n: nat)
    requires
        chain.len() == flips.len() + 1,
        chain[0].complete(),
        chain[0].square(),
        forall|i: int|
            0 <= i < flips.len() ==> row_step(#[trigger] chain[i], chain[i + 1], flips[i]),
        n <= flips.len(),
    ensures
        chain[n as int].complete(),
        chain[n as int].same_shape(chain[0]),
        chain[0].det() == sign(exchanges(flips, n) as int) * chain[n as int].det(),
    decreases n,
{
    if n == 0 {
        lemma_mul_one(chain[0].det());
    } else {
        lemma_steps_keep_det(chain, flips, (n - 1) as nat);
        let m = chain[n - 1];
        let next = chain[n as int];
        let s = sign(exchanges(flips, (n - 1) as nat) as int);
        assert(row_step(m, next, flips[n - 1]));
        if flips[n - 1] {
            let (p, q) = choose|p: int, q: int|
                0 <= p < q < m.rows && next == #[trigger] swap_rows(m, p, q);
            lemma_det_swap(m, p, q);
            lemma_two_signs(s, m.det());
        } else {
            let (a, b, k) = choose|a: int, b: int, k: real|
                0 <= a < m.rows && 0 <= b < m.rows && a != b && next == #[trigger] reduce_row(
                    m,
                    a,
                    b,
                    k,
                );
            lemma_det_reduce(m, a, b, k);
        }
    }
}

/// The two ways to a determinant agree. Elimination takes a square matrix
/// by exchanges of rows and by subtractions of multiples of rows to a
/// matrix that is zero below the diagonal. Whatever steps it takes, the
/// product of the diagonal it ends with, negated once for every exchange,
/// is the determinant by cofactor expansion of the matrix it began with.
pub proof fn lemma_determinants_agree(chain: Seq<Matrix>, flips: Seq<bool>)
    requires
        chain.len() == flips.len() + 1,
        chain[0].complete(),
        chain[0].square(),
        forall|i: int|
            0 <= i < flips.len() ==> row_step(#[trigger] chain[i], chain[i + 1], flips[i]),
        below_zero(chain.last(), chain.last().rows as int),
    ensures
        chain[0].det() == sign(exchanges(flips, flips.len()) as int) * diag_product(
            chain.last(),
            chain.last().rows,
        ),
{
    let last = chain.last();
    lemma_steps_keep_det(chain, flips, flips.len());
    if last.rows >= 1 {
        lemma_det_triangular(last);
    } else {
        assert(diag_product(last, 0) == 1real);
    }
}

} // verus!
