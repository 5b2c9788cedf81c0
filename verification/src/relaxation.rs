//! Over-relaxation never lets the residual grow.
//!
//! For a relaxation parameter between 0 and 2, one step of over-relaxation
//! on the normal equations changes the squared residual `|b - A x|^2` by
//! `-(2 - w) / w` times a sum of squares.

use crate::algebra::lemma_product_associative;
use crate::algebra::lemma_product_difference;
use crate::algebra::lemma_product_left_difference;
use crate::algebra::lemma_product_left_scaled;
use crate::algebra::lemma_product_left_sum;
use crate::algebra::lemma_product_sum;
use crate::descent::inner;
use crate::descent::lemma_inner_adjoint;
use crate::descent::lemma_inner_minus;
use crate::descent::lemma_inner_plus;
use crate::descent::lemma_inner_scaled;
use crate::descent::lemma_inner_symmetric;
use crate::descent::lemma_transpose_product;
use crate::iterative::inverse;
use crate::iterative::lemma_inverse_exists;
use crate::iterative::lemma_sor_parts;
use crate::iterative::normal_matrix;
use crate::iterative::sor_iterate;
use crate::iterative::sor_offset;
use crate::iterative::sor_rest;
use crate::iterative::sor_split;
use crate::iterative::sor_step;
use crate::iterative::squared_length;
use crate::kernel::singular;
use crate::laws::lemma_product_identity_left;
use crate::laws::lemma_transpose_involution;
use crate::model::Matrix;
use crate::model::dot;
use crate::model::lemma_equal;
use crate::reals::lemma_distribute;
use crate::reals::lemma_mul_zero;
use crate::reals::lemma_square;
use vstd::prelude::*;

verus! {

/// The quadratic form of `m` at the first column of `d`: `<d, m d>`.
pub open spec fn quad(m: Matrix, d: Matrix) -> real {
    inner(d, m.product(d))
}

/// One step of over-relaxation from `x`.
pub open spec fn sor_next(a: Matrix, b: Matrix, w: real, x: Matrix) -> Matrix {
    sor_step(a, w).product(x).sum(sor_offset(a, b, w))
}

/// The quadratic form of a sum is the sum of the quadratic forms.
proof fn lemma_quad_sum(m1: Matrix, m2: Matrix, d: Matrix)
    requires
        m1.complete(),
        m2.complete(),
        m1.same_shape(m2),
        m1.square(),
        d.complete(),
        d.rows == m1.rows,
        d.cols >= 1,
    ensures
        quad(m1.sum(m2), d) == quad(m1, d) + quad(m2, d),
{
    lemma_product_left_sum(m1, m2, d);
    lemma_inner_plus(d, m1.product(d), m2.product(d));
}

/// The quadratic form of a scaled matrix is the scaled quadratic form.
proof fn lemma_quad_scaled(m: Matrix, k: real, d: Matrix)
    requires
        m.complete(),
        m.square(),
        d.complete(),
        d.rows == m.rows,
        d.cols >= 1,
    ensures
        quad(m.scale(k), d) == k * quad(m, d),
{
    lemma_product_left_scaled(m, d, k);
    lemma_inner_scaled(d, m.product(d), k);
}

/// The quadratic form of a transpose is the quadratic form.
proof fn lemma_quad_transpose(m: Matrix, d: Matrix)
    requires
        m.complete(),
        m.square(),
        d.complete(),
        d.rows == m.rows,
        d.cols >= 1,
    ensures
        quad(m.transpose(), d) == quad(m, d),
{
    lemma_inner_adjoint(m, d, d);
    lemma_inner_symmetric(m.product(d), d);
}

/// The normal matrix is symmetric.
proof fn lemma_normal_symmetric(a: Matrix)
    requires
        a.complete(),
    ensures
        normal_matrix(a).transpose() == normal_matrix(a),
{
    lemma_transpose_product(a.transpose(), a);
    lemma_transpose_involution(a);
}

/// The entries on the diagonal of the normal matrix are sums of squares.
proof fn lemma_normal_diagonal(a: Matrix, k: int, n: nat)
    requires
        a.complete(),
        0 <= k < a.cols,
        n <= a.rows,
    ensures
        dot(a.transpose(), a, k, k, n) >= 0real,
    decreases n,
{
    if n > 0 {
        lemma_normal_diagonal(a, k, (n - 1) as nat);
        assert(a.transpose().at(k, n - 1) == a.at(n - 1, k));
        lemma_square(a.at(n - 1, k));
    }
}

/// A row of a diagonal matrix against a column picks one entry.
proof fn lemma_diagonal_dot(m: Matrix, d: Matrix, k: int, n: nat)
    requires
        m.complete(),
        m.square(),
        0 <= k < m.rows,
        n <= m.cols,
    ensures
        dot(m.diagonal(), d, k, 0, n) == if k < n {
            m.at(k, k) * d.at(k, 0)
        } else {
            0real
        },
    decreases n,
{
    if n > 0 {
        lemma_diagonal_dot(m, d, k, (n - 1) as nat);
        lemma_mul_zero(d.at(n - 1, 0));
    }
}

/// The quadratic form of the diagonal of the normal matrix is not
/// negative.
proof fn lemma_quad_diagonal(a: Matrix, d: Matrix, n: nat)
    requires
        a.complete(),
        d.complete(),
        d.rows == a.cols,
        d.cols >= 1,
        n <= d.rows,
    ensures
        dot(d.transpose(), normal_matrix(a).diagonal().product(d), 0, 0, n) >= 0real,
    decreases n,
{
    if n > 0 {
        let nm = normal_matrix(a);
        lemma_quad_diagonal(a, d, (n - 1) as nat);
        lemma_diagonal_dot(nm, d, n - 1, nm.cols);
        lemma_normal_diagonal(a, n - 1, a.rows);
        let c = nm.at(n - 1, n - 1);
        let x = d.at(n - 1, 0);
        assert(d.transpose().at(0, n - 1) == x);
        assert(nm.diagonal().product(d).at(n - 1, 0) == c * x);
        assert(x * (c * x) >= 0real) by (nonlinear_arith)
            requires
                c >= 0real,
        ;
    }
}

/// `w i = d + w e` with `0 < w < 2` and `d >= 0` gives `d + 2 e - 2 i <= 0`.
proof fn lemma_energy(d: real, e: real, i: real, w: real)
    requires
        0real < w < 2real,
        d >= 0real,
        w * i == d + w * e,
    ensures
        d + 2real * e - 2real * i <= 0real,
{
    let t = d + 2real * e - 2real * i;
    lemma_distribute(w, d + 2real * e, 2real * i);
    lemma_distribute(w, d, 2real * e);
    assert(w * (2real * e) == 2real * (w * e)) by (nonlinear_arith);
    assert(w * (2real * i) == 2real * (w * i)) by (nonlinear_arith);
    assert(w * d - 2real * d <= 0real) by (nonlinear_arith)
        requires
            w < 2real,
            d >= 0real,
    ;
    assert(w * t <= 0real);
    assert(t <= 0real) by (nonlinear_arith)
        requires
            w > 0real,
            w * t <= 0real,
    ;
}

/// One step of over-relaxation with a parameter between 0 and 2 does not
/// let the residual grow: the squared length of `b - a x` after the step is
/// at most what it was. For a single right side this is the squared norm of
/// the residual.
pub proof fn lemma_sor_descent(a: Matrix, b: Matrix, w: real, x: Matrix)
    requires
        a.complete(),
        b.complete(),
        a.rows == b.rows,
        b.cols >= 1,
        0real < w < 2real,
        !singular(sor_split(a, w)),
        x.complete(),
        x.rows == a.cols,
        x.cols == b.cols,
    ensures
        sor_next(a, b, w, x).complete(),
        sor_next(a, b, w, x).same_shape(x),
        squared_length(b.difference(a.product(sor_next(a, b, w, x)))) <= squared_length(
            b.difference(a.product(x)),
        ),
{
    let at = a.transpose();
    let n = normal_matrix(a);
    let g = at.product(b);
    let s = sor_split(a, w);
    let t = sor_rest(a, w);
    let c = g.scale(w);
    let si = inverse(s);
    let z = t.product(x).sum(c);
    let y = sor_next(a, b, w, x);
    let dm = n.diagonal();
    let lm = n.strict_lower();
    let um = n.strict_upper();
    // s * y = t * x + w g
    lemma_inverse_exists(s);
    lemma_product_associative(si, t, x);
    lemma_product_sum(si, t.product(x), c);
    assert(y == si.product(z));
    lemma_product_associative(s, si, z);
    lemma_product_identity_left(z);
    assert(s.product(y) == z);
    // s * delta = w rho
    let delta = y.difference(x);
    let nx = n.product(x);
    let rho = g.difference(nx);
    lemma_product_difference(s, y, x);
    lemma_sor_parts(a, w);
    lemma_product_left_difference(s, t, x);
    lemma_product_left_scaled(n, x, w);
    let sx = s.product(x);
    let tx = t.product(x);
    assert(sx.difference(tx) == nx.scale(w));
    let sd = s.product(delta);
    assert(sd == rho.scale(w)) by {
        assert forall|i: int, j: int| sd.in_bounds(i, j) implies #[trigger] sd.at(i, j)
            == rho.scale(w).at(i, j) by {
            assert(sx.difference(tx).at(i, j) == nx.scale(w).at(i, j));
            assert(z.at(i, j) == tx.at(i, j) + c.at(i, j));
            lemma_distribute(w, g.at(i, j), nx.at(i, j));
        }
        lemma_equal(sd, rho.scale(w));
    }
    // the residuals
    let r = b.difference(a.product(x));
    let ad = a.product(delta);
    let r2 = b.difference(a.product(y));
    lemma_product_difference(a, y, x);
    lemma_equal(r2, r.difference(ad));
    // a^T r = rho, a^T (a delta) = n delta
    lemma_product_difference(at, b, a.product(x));
    lemma_product_associative(at, a, x);
    assert(at.product(r) == rho);
    lemma_product_associative(at, a, delta);
    // <r2, r2> = <r, r> - 2 <delta, rho> + <delta, n delta>
    lemma_inner_minus(r2, r, ad);
    lemma_inner_symmetric(r2, r);
    lemma_inner_symmetric(r2, ad);
    lemma_inner_minus(r, r, ad);
    lemma_inner_minus(ad, r, ad);
    lemma_inner_symmetric(r, ad);
    lemma_inner_adjoint(a, delta, r);
    lemma_inner_adjoint(a, delta, ad);
    let i = inner(delta, rho);
    let qn = quad(n, delta);
    assert(inner(r2, r2) == inner(r, r) - 2real * i + qn);
    // the quadratic forms
    let d = quad(dm, delta);
    let e = quad(lm, delta);
    lemma_normal_symmetric(a);
    lemma_equal(um, lm.transpose());
    lemma_quad_transpose(lm, delta);
    lemma_equal(n, dm.sum(lm).sum(um));
    lemma_quad_sum(dm.sum(lm), um, delta);
    lemma_quad_sum(dm, lm, delta);
    assert(qn == d + 2real * e);
    assert(s == dm.sum(lm.scale(w))) by {
        assert forall|p: int, q: int| s.in_bounds(p, q) implies #[trigger] s.at(p, q) == dm.sum(
            lm.scale(w),
        ).at(p, q) by {
            let v = lm.at(p, q);
            assert(w * ((-1real) * v) == 0real - w * v) by (nonlinear_arith);
        }
        lemma_equal(s, dm.sum(lm.scale(w)));
    }
    lemma_quad_sum(dm, lm.scale(w), delta);
    lemma_quad_scaled(lm, w, delta);
    lemma_inner_scaled(delta, rho, w);
    assert(w * i == d + w * e);
    lemma_quad_diagonal(a, delta, delta.rows);
    assert(d >= 0real);
    lemma_energy(d, e, i, w);
}

/// The iterates of over-relaxation hold every entry and keep the shape of
/// the start.
proof fn lemma_sor_shape(a: Matrix, b: Matrix, w: real, k: nat)
    requires
        a.complete(),
        b.complete(),
        a.rows == b.rows,
        b.cols >= 1,
        0real < w < 2real,
        !singular(sor_split(a, w)),
    ensures
        sor_iterate(
            sor_step(a, w),
            sor_offset(a, b, w),
            Matrix::constant(a.cols, b.cols, 0real),
            k,
        ).complete(),
        sor_iterate(
            sor_step(a, w),
            sor_offset(a, b, w),
            Matrix::constant(a.cols, b.cols, 0real),
            k,
        ).rows == a.cols,
        sor_iterate(
            sor_step(a, w),
            sor_offset(a, b, w),
            Matrix::constant(a.cols, b.cols, 0real),
            k,
        ).cols == b.cols,
    decreases k,
{
    if k > 0 {
        let start = Matrix::constant(a.cols, b.cols, 0real);
        lemma_sor_shape(a, b, w, (k - 1) as nat);
        lemma_sor_descent(
            a,
            b,
            w,
            sor_iterate(sor_step(a, w), sor_offset(a, b, w), start, (k - 1) as nat),
        );
    }
}

/// The residual of over-relaxation does not grow with the number of steps:
/// for a relaxation parameter between 0 and 2 and `k1 <= k2`, the squared
/// length of `b - a x` after `k2` steps is at most what it is after `k1`
/// steps. For a single right side this is the squared norm of the residual.
pub proof fn lemma_sor_residual_falls(a: Matrix, b: Matrix, w: real, k1: nat, k2: nat)
    requires
        a.complete(),
        b.complete(),
        a.rows == b.rows,
        b.cols >= 1,
        0real < w < 2real,
        !singular(sor_split(a, w)),
        k1 <= k2,
    ensures
        squared_length(
            b.difference(
                a.product(
                    sor_iterate(
                        sor_step(a, w),
                        sor_offset(a, b, w),
                        Matrix::constant(a.cols, b.cols, 0real),
                        k2,
                    ),
                ),
            ),
        ) <= squared_length(
            b.difference(
                a.product(
                    sor_iterate(
                        sor_step(a, w),
                        sor_offset(a, b, w),
                        Matrix::constant(a.cols, b.cols, 0real),
                        k1,
                    ),
                ),
            ),
        ),
    decreases k2 - k1,
{
    if k1 < k2 {
        let start = Matrix::constant(a.cols, b.cols, 0real);
        lemma_sor_residual_falls(a, b, w, k1, (k2 - 1) as nat);
        lemma_sor_shape(a, b, w, (k2 - 1) as nat);
        lemma_sor_descent(
            a,
            b,
            w,
            sor_iterate(sor_step(a, w), sor_offset(a, b, w), start, (k2 - 1) as nat),
        );
    }
}

} // verus!
