//! Conjugate gradients never let the residual grow.

use crate::algebra::lemma_dot_difference;
use crate::algebra::lemma_dot_scaled;
use crate::algebra::lemma_dot_sum;
use crate::algebra::lemma_product_associative;
use crate::iterative::CgState;
use crate::iterative::cg_consistent;
use crate::iterative::cg_done;
use crate::iterative::cg_run;
use crate::iterative::cg_start;
use crate::iterative::cg_step;
use crate::iterative::lemma_cg_exact;
use crate::iterative::lemma_cg_run;
use crate::iterative::lemma_cg_start;
use crate::iterative::lemma_cg_step;
use crate::iterative::lemma_squares;
use crate::iterative::normal_matrix;
use crate::iterative::squared_length;
use crate::model::Matrix;
use crate::model::dot;
use crate::model::lemma_equal;
use crate::reals::lemma_commute;
use crate::reals::lemma_mul_one;
use crate::reals::lemma_mul_zero;
use crate::reals::lemma_quotient;
use crate::reals::lemma_ratio_square;
use vstd::prelude::*;

verus! {

/// The inner product of the first columns of `u` and `v`.
pub open spec fn inner(u: Matrix, v: Matrix) -> real {
    u.transpose().product(v).at(0, 0)
}

/// The inner product is the sum of the products of the entries.
proof fn lemma_inner_symmetric_upto(u: Matrix, v: Matrix, n: nat)
    requires
        u.complete(),
        v.complete(),
        u.rows == v.rows,
        u.cols >= 1,
        v.cols >= 1,
        n <= u.rows,
    ensures
        dot(u.transpose(), v, 0, 0, n) == dot(v.transpose(), u, 0, 0, n),
    decreases n,
{
    if n > 0 {
        lemma_inner_symmetric_upto(u, v, (n - 1) as nat);
        assert(u.transpose().at(0, n - 1) == u.at(n - 1, 0));
        assert(v.transpose().at(0, n - 1) == v.at(n - 1, 0));
        lemma_commute(u.at(n - 1, 0), v.at(n - 1, 0));
    }
}

/// `<u, v> = <v, u>`.
pub proof fn lemma_inner_symmetric(u: Matrix, v: Matrix)
    requires
        u.complete(),
        v.complete(),
        u.rows == v.rows,
        u.cols >= 1,
        v.cols >= 1,
    ensures
        inner(u, v) == inner(v, u),
{
    lemma_inner_symmetric_upto(u, v, u.rows);
}

/// `<u, v - k w> = <u, v> - k <u, w>`.
pub proof fn lemma_inner_difference(u: Matrix, v: Matrix, w: Matrix, k: real)
    requires
        u.complete(),
        v.complete(),
        w.complete(),
        v.same_shape(w),
        u.rows == v.rows,
        u.cols >= 1,
        v.cols >= 1,
    ensures
        inner(u, v.difference(w.scale(k))) == inner(u, v) - k * inner(u, w),
{
    let ut = u.transpose();
    lemma_dot_difference(ut, v, w.scale(k), 0, 0, v.rows);
    lemma_dot_scaled(ut, w, k, 0, 0, v.rows);
}

/// `<u, v + k w> = <u, v> + k <u, w>`.
pub proof fn lemma_inner_sum(u: Matrix, v: Matrix, w: Matrix, k: real)
    requires
        u.complete(),
        v.complete(),
        w.complete(),
        v.same_shape(w),
        u.rows == v.rows,
        u.cols >= 1,
        v.cols >= 1,
    ensures
        inner(u, v.sum(w.scale(k))) == inner(u, v) + k * inner(u, w),
{
    let ut = u.transpose();
    lemma_dot_sum(ut, v, w.scale(k), 0, 0, v.rows);
    lemma_dot_scaled(ut, w, k, 0, 0, v.rows);
}

/// `<u, v - w> = <u, v> - <u, w>`.
pub proof fn lemma_inner_minus(u: Matrix, v: Matrix, w: Matrix)
    requires
        u.complete(),
        v.complete(),
        w.complete(),
        v.same_shape(w),
        u.rows == v.rows,
        u.cols >= 1,
        v.cols >= 1,
    ensures
        inner(u, v.difference(w)) == inner(u, v) - inner(u, w),
{
    lemma_dot_difference(u.transpose(), v, w, 0, 0, v.rows);
}

/// `<u, v + w> = <u, v> + <u, w>`.
pub proof fn lemma_inner_plus(u: Matrix, v: Matrix, w: Matrix)
    requires
        u.complete(),
        v.complete(),
        w.complete(),
        v.same_shape(w),
        u.rows == v.rows,
        u.cols >= 1,
        v.cols >= 1,
    ensures
        inner(u, v.sum(w)) == inner(u, v) + inner(u, w),
{
    lemma_dot_sum(u.transpose(), v, w, 0, 0, v.rows);
}

/// `<u, k v> = k <u, v>`.
pub proof fn lemma_inner_scaled(u: Matrix, v: Matrix, k: real)
    requires
        u.complete(),
        v.complete(),
        u.rows == v.rows,
        u.cols >= 1,
        v.cols >= 1,
    ensures
        inner(u, v.scale(k)) == k * inner(u, v),
{
    lemma_dot_scaled(u.transpose(), v, k, 0, 0, v.rows);
}

/// The entry of a product is the entry of the product of the transposes,
/// taken the other way round.
proof fn lemma_dot_transposed(a: Matrix, p: Matrix, i: int, j: int, n: nat)
    requires
        a.complete(),
        p.complete(),
        0 <= i < a.rows,
        0 <= j < p.cols,
        n <= a.cols,
        a.cols == p.rows,
    ensures
        dot(p.transpose(), a.transpose(), j, i, n) == dot(a, p, i, j, n),
    decreases n,
{
    if n > 0 {
        lemma_dot_transposed(a, p, i, j, (n - 1) as nat);
        assert(p.transpose().at(j, n - 1) == p.at(n - 1, j));
        assert(a.transpose().at(n - 1, i) == a.at(i, n - 1));
        lemma_commute(a.at(i, n - 1), p.at(n - 1, j));
    }
}

/// The transpose of a product is the product of the transposes, in the
/// other order.
pub proof fn lemma_transpose_product(a: Matrix, p: Matrix)
    requires
        a.complete(),
        p.complete(),
        a.cols == p.rows,
    ensures
        a.product(p).transpose() == p.transpose().product(a.transpose()),
{
    let l = a.product(p).transpose();
    let r = p.transpose().product(a.transpose());
    assert forall|i: int, j: int| l.in_bounds(i, j) implies #[trigger] l.at(i, j) == r.at(i, j) by {
        lemma_dot_transposed(a, p, j, i, a.cols);
    }
    lemma_equal(l, r);
}

/// `<a p, r> = <p, a^T r>`.
pub proof fn lemma_inner_adjoint(a: Matrix, p: Matrix, r: Matrix)
    requires
        a.complete(),
        p.complete(),
        r.complete(),
        a.cols == p.rows,
        a.rows == r.rows,
        p.cols >= 1,
        r.cols >= 1,
    ensures
        inner(a.product(p), r) == inner(p, a.transpose().product(r)),
{
    lemma_transpose_product(a, p);
    lemma_product_associative(p.transpose(), a.transpose(), r);
}

/// The search direction is aligned with the residual of the normal
/// equations: `<p, a^T r> = sts`.
pub open spec fn cg_aligned(a: Matrix, st: CgState) -> bool {
    inner(st.p, a.transpose().product(st.r)) == st.sts
}

/// One step of conjugate gradients keeps the direction aligned and does not
/// let the residual grow.
pub proof fn lemma_cg_descent(a: Matrix, b: Matrix, st: CgState)
    requires
        a.complete(),
        b.complete(),
        a.rows == b.rows,
        b.cols >= 1,
        cg_consistent(a, b, st),
        cg_aligned(a, st),
        !cg_done(a, st),
    ensures
        cg_consistent(a, b, cg_step(a, st)),
        cg_aligned(a, cg_step(a, st)),
        squared_length(cg_step(a, st).r) <= squared_length(st.r),
{
    let at = a.transpose();
    let next = cg_step(a, st);
    let q = a.product(st.p);
    let qtq = squared_length(q);
    let alpha = st.sts / qtq;
    let r = st.r;
    let r2 = next.r;
    let s2 = at.product(r2);
    let beta = next.sts / st.sts;
    lemma_cg_step(a, b, st);
    // <q, r> = sts
    lemma_inner_adjoint(a, st.p, r);
    assert(inner(q, r) == st.sts);
    // <q, r'> = 0
    lemma_inner_difference(q, r, q, alpha);
    lemma_quotient(st.sts, qtq);
    assert(inner(q, r2) == 0real);
    // <r', r'> = <r, r> - alpha sts
    lemma_inner_difference(r2, r, q, alpha);
    lemma_inner_symmetric(r2, q);
    lemma_inner_symmetric(r2, r);
    lemma_inner_difference(r, r, q, alpha);
    lemma_inner_symmetric(r, q);
    lemma_mul_zero(alpha);
    assert(inner(r2, r2) == inner(r, r) - alpha * st.sts);
    lemma_squares(q, q.rows);
    assert(qtq > 0real);
    lemma_ratio_square(st.sts, qtq);
    // <p', s'> = sts'
    lemma_inner_symmetric(next.p, s2);
    lemma_inner_sum(s2, s2, st.p, beta);
    lemma_inner_symmetric(s2, st.p);
    lemma_inner_adjoint(a, st.p, r2);
    lemma_mul_zero(beta);
    assert(inner(next.p, s2) == next.sts);
}

/// The state that conjugate gradients start from is aligned.
pub proof fn lemma_cg_start_aligned(a: Matrix, b: Matrix)
    requires
        a.complete(),
        b.complete(),
        a.rows == b.rows,
        b.cols >= 1,
    ensures
        cg_aligned(a, cg_start(a, b)),
{
    let st = cg_start(a, b);
    let s = a.transpose().product(st.r);
    assert forall|i: int, j: int| s.in_bounds(i, j) implies #[trigger] st.p.at(i, j) == s.at(
        i,
        j,
    ) by {
        lemma_mul_one(s.at(i, j));
    }
    lemma_equal(st.p, s);
}

/// The inner product with a matrix whose first column is zero is zero.
proof fn lemma_inner_zero(u: Matrix, v: Matrix, n: nat)
    requires
        u.complete(),
        u.cols >= 1,
        n <= u.rows,
        forall|k: int| 0 <= k < u.rows ==> #[trigger] u.at(k, 0) == 0real,
    ensures
        dot(u.transpose(), v, 0, 0, n) == 0real,
    decreases n,
{
    if n > 0 {
        lemma_inner_zero(u, v, (n - 1) as nat);
        assert(u.transpose().at(0, n - 1) == u.at(n - 1, 0));
        lemma_mul_zero(v.at(n - 1, 0));
    }
}

/// Conjugate gradients stop only when the residual of the normal equations
/// is zero: a search direction that is sent to zero has `sts = 0`.
pub proof fn lemma_cg_stop(a: Matrix, b: Matrix, st: CgState)
    requires
        a.complete(),
        b.complete(),
        a.rows == b.rows,
        b.cols >= 1,
        cg_consistent(a, b, st),
        cg_aligned(a, st),
        cg_done(a, st),
    ensures
        st.sts == 0real,
{
    let q = a.product(st.p);
    if st.sts != 0real {
        lemma_squares(q, q.rows);
        lemma_inner_zero(q, st.r, q.rows);
        lemma_inner_adjoint(a, st.p, st.r);
    }
}

/// Conjugate gradients keep the state consistent and the direction
/// aligned, from the start through every step.
pub proof fn lemma_cg_run_aligned(a: Matrix, b: Matrix, st: CgState, k: nat)
    requires
        a.complete(),
        b.complete(),
        a.rows == b.rows,
        b.cols >= 1,
        cg_consistent(a, b, st),
        cg_aligned(a, st),
    ensures
        cg_consistent(a, b, cg_run(a, st, k)),
        cg_aligned(a, cg_run(a, st, k)),
    decreases k,
{
    if k > 0 && !cg_done(a, st) {
        lemma_cg_descent(a, b, st);
        lemma_cg_run_aligned(a, b, cg_step(a, st), (k - 1) as nat);
    }
}

/// Where conjugate gradients stop before the steps are used up, on a system
/// with a single right side, the approximation solves the normal equations
/// `A^T A x = A^T b`.
pub proof fn lemma_cg_stop_exact(a: Matrix, b: Matrix, k: nat)
    requires
        a.complete(),
        b.complete(),
        a.rows == b.rows,
        b.cols == 1,
        cg_done(a, cg_run(a, cg_start(a, b), k)),
    ensures
        normal_matrix(a).product(cg_run(a, cg_start(a, b), k).x) == a.transpose().product(b),
{
    lemma_cg_start(a, b);
    lemma_cg_start_aligned(a, b);
    lemma_cg_run_aligned(a, b, cg_start(a, b), k);
    lemma_cg_stop(a, b, cg_run(a, cg_start(a, b), k));
    lemma_cg_exact(a, b, k);
}

/// One more step allowed never lets the residual grow.
proof fn lemma_cg_one_more(a: Matrix, b: Matrix, st: CgState, k: nat)
    requires
        a.complete(),
        b.complete(),
        a.rows == b.rows,
        b.cols >= 1,
        cg_consistent(a, b, st),
        cg_aligned(a, st),
    ensures
        squared_length(cg_run(a, st, k + 1).r) <= squared_length(cg_run(a, st, k).r),
    decreases k,
{
    if cg_done(a, st) {
    } else {
        lemma_cg_descent(a, b, st);
        if k == 0 {
            assert(cg_run(a, cg_step(a, st), 0) == cg_step(a, st));
        } else {
            lemma_cg_one_more(a, b, cg_step(a, st), (k - 1) as nat);
        }
    }
}

/// The residual of conjugate gradients does not grow with the number of
/// steps: for `k1 <= k2`, the squared length of `b - a x` after at most
/// `k2` steps is at most what it is after at most `k1` steps. For a single
/// right side this is the squared norm of the residual.
pub proof fn lemma_cg_residual_falls(a: Matrix, b: Matrix, k1: nat, k2: nat)
    requires
        a.complete(),
        b.complete(),
        a.rows == b.rows,
        b.cols >= 1,
        k1 <= k2,
    ensures
        squared_length(b.difference(a.product(cg_run(a, cg_start(a, b), k2).x))) <= squared_length(
            b.difference(a.product(cg_run(a, cg_start(a, b), k1).x)),
        ),
    decreases k2 - k1,
{
    let start = cg_start(a, b);
    lemma_cg_start(a, b);
    lemma_cg_start_aligned(a, b);
    lemma_cg_run(a, b, start, k1);
    lemma_cg_run(a, b, start, k2);
    if k1 < k2 {
        lemma_cg_residual_falls(a, b, k1, (k2 - 1) as nat);
        lemma_cg_run(a, b, start, (k2 - 1) as nat);
        lemma_cg_one_more(a, b, start, (k2 - 1) as nat);
    }
}

} // verus!
