//! What the iterative solvers compute.
//!
//! Both solvers work on the normal equations `(A^T A) x = A^T b`, start from
//! the zero vector and run a given number of steps. Their results are
//! specified here step by step.

use crate::adjugate::lemma_adjoint_inverse;
use crate::algebra::lemma_product_associative;
use crate::algebra::lemma_product_difference;
use crate::algebra::lemma_product_left_difference;
use crate::algebra::lemma_product_left_scaled;
use crate::algebra::lemma_product_scaled;
use crate::algebra::lemma_product_sum;
use crate::kernel::annihilates;
use crate::kernel::apply;
use crate::kernel::col_of;
use crate::kernel::kernel_vector;
use crate::kernel::lemma_wsum_dot;
use crate::kernel::row_of;
use crate::kernel::singular;
use crate::kernel::wsum;
use crate::laws::lemma_product_identity_left;
use crate::laws::lemma_product_identity_right;
use crate::model::Matrix;
use crate::model::dot;
use crate::model::lemma_equal;
use crate::reals::lemma_commute;
use crate::reals::lemma_distribute;
use crate::reals::lemma_mul_zero;
use crate::reals::lemma_square;
use crate::reals::lemma_zero_factor;
use crate::regular::lemma_singular_iff_det_zero;
use vstd::prelude::*;

verus! {

/// `x` is a right inverse of `m`.
pub open spec fn right_inverse(m: Matrix, x: Matrix) -> bool {
    &&& x.complete()
    &&& x.same_shape(m)
    &&& m.product(x) == Matrix::identity(m.rows)
}

/// The inverse of `m`, where it has one.
pub open spec fn inverse(m: Matrix) -> Matrix {
    choose|x: Matrix| right_inverse(m, x)
}

/// The sum against a difference of vectors is the difference of the sums.
pub proof fn lemma_wsum_difference(
    r: spec_fn(int) -> real,
    v1: spec_fn(int) -> real,
    v2: spec_fn(int) -> real,
    v3: spec_fn(int) -> real,
    n: nat,
)
    requires
        forall|c: int| 0 <= c < n ==> #[trigger] v3(c) == v1(c) - v2(c),
    ensures
        wsum(r, v3, n) == wsum(r, v1, n) - wsum(r, v2, n),
    decreases n,
{
    if n > 0 {
        lemma_wsum_difference(r, v1, v2, v3, (n - 1) as nat);
        let x = r(n - 1);
        let a = v1(n - 1);
        let b = v2(n - 1);
        assert(v3(n - 1) == a - b);
        assert(x * (a - b) == x * a - x * b) by (nonlinear_arith);
    }
}

/// A matrix that is not singular can be cancelled on the left:
/// `m * x = m * y` only if `x = y`.
pub proof fn lemma_cancel_left(m: Matrix, x: Matrix, y: Matrix)
    requires
        m.complete(),
        m.square(),
        !singular(m),
        x.complete(),
        y.complete(),
        x.same_shape(y),
        x.rows == m.cols,
        m.product(x) == m.product(y),
    ensures
        x == y,
{
    let n = m.rows;
    assert forall|i: int, j: int| x.in_bounds(i, j) implies #[trigger] x.at(i, j) == y.at(i, j) by {
        let v = |c: int| x.at(c, j) - y.at(c, j);
        assert forall|k: int| 0 <= k < m.rows implies #[trigger] apply(m, k, v) == 0real by {
            lemma_wsum_difference(row_of(m, k), col_of(x, j), col_of(y, j), v, n);
            lemma_wsum_dot(m, x, k, j, n);
            lemma_wsum_dot(m, y, k, j, n);
            assert(m.product(x).at(k, j) == dot(m, x, k, j, n));
            assert(m.product(y).at(k, j) == dot(m, y, k, j, n));
        }
        assert(annihilates(m, v));
        if x.at(i, j) != y.at(i, j) {
            assert(v(i) != 0real);
            assert(kernel_vector(m, v));
        }
    }
    lemma_equal(x, y);
}

/// A matrix that is not singular has at most one right inverse.
pub proof fn lemma_inverse_unique(m: Matrix, x: Matrix, y: Matrix)
    requires
        m.complete(),
        m.square(),
        !singular(m),
        right_inverse(m, x),
        right_inverse(m, y),
    ensures
        x == y,
{
    lemma_cancel_left(m, x, y);
}

/// A right inverse of a matrix that is not singular is a left inverse too.
pub proof fn lemma_inverse_two_sided(m: Matrix, x: Matrix)
    requires
        m.complete(),
        m.square(),
        !singular(m),
        right_inverse(m, x),
    ensures
        x.product(m) == Matrix::identity(m.rows),
{
    let unit = Matrix::identity(m.rows);
    let y = x.product(m);
    lemma_product_associative(m, x, m);
    lemma_product_identity_left(m);
    lemma_product_identity_right(m);
    assert(m.product(y) == m.product(unit));
    lemma_cancel_left(m, y, unit);
}

/// A right inverse of a matrix that is not singular is its inverse.
pub proof fn lemma_inverse_found(m: Matrix, x: Matrix)
    requires
        m.complete(),
        m.square(),
        !singular(m),
        right_inverse(m, x),
    ensures
        x == inverse(m),
{
    lemma_inverse_unique(m, x, inverse(m));
}

/// A square matrix that is not singular has an inverse.
pub proof fn lemma_inverse_exists(m: Matrix)
    requires
        m.complete(),
        m.square(),
        !singular(m),
    ensures
        right_inverse(m, inverse(m)),
{
    lemma_singular_iff_det_zero(m);
    lemma_adjoint_inverse(m);
}

/// The normal matrix `A^T A`.
pub open spec fn normal_matrix(a: Matrix) -> Matrix {
    a.transpose().product(a)
}

/// The matrix `D - w E` that over-relaxation inverts, where `D` is the
/// diagonal of the normal matrix and `-E` is what lies below it.
pub open spec fn sor_split(a: Matrix, w: real) -> Matrix {
    let n = normal_matrix(a);
    n.diagonal().difference(n.strict_lower().scale(-1real).scale(w))
}

/// The matrix `(D - w E)^-1 ((1 - w) D + w F)` of one step of
/// over-relaxation, where `-F` is what lies above the diagonal of the
/// normal matrix.
pub open spec fn sor_step(a: Matrix, w: real) -> Matrix {
    inverse(sor_split(a, w)).product(sor_rest(a, w))
}

/// The offset `(D - w E)^-1 (w A^T b)` of one step of over-relaxation.
pub open spec fn sor_offset(a: Matrix, b: Matrix, w: real) -> Matrix {
    inverse(sor_split(a, w)).product(a.transpose().product(b).scale(w))
}

/// The matrix `(1 - w) D + w F` that one step of over-relaxation applies
/// before the inverse.
pub open spec fn sor_rest(a: Matrix, w: real) -> Matrix {
    let n = normal_matrix(a);
    n.diagonal().scale(1real - w).sum(n.strict_upper().scale(-1real).scale(w))
}

/// The two parts of the splitting differ by `w` times the normal matrix.
pub proof fn lemma_sor_parts(a: Matrix, w: real)
    ensures
        sor_split(a, w).difference(sor_rest(a, w)) == normal_matrix(a).scale(w),
{
    let n = normal_matrix(a);
    let l = sor_split(a, w).difference(sor_rest(a, w));
    let r = n.scale(w);
    assert forall|i: int, j: int| l.in_bounds(i, j) implies #[trigger] l.at(i, j) == r.at(i, j) by {
        let x = n.at(i, j);
        lemma_mul_zero(-1real);
        lemma_mul_zero(w);
        lemma_mul_zero(1real - w);
        assert(w * ((-1real) * x) == 0real - w * x) by (nonlinear_arith);
        assert((1real - w) * x == x - w * x) by (nonlinear_arith);
    }
    lemma_equal(l, r);
}

/// The fixed points of over-relaxation are the solutions of the normal
/// equations: for `w` other than zero, `x = step * x + offset` exactly when
/// `A^T A x = A^T b`.
pub proof fn lemma_sor_fixed_point(a: Matrix, b: Matrix, w: real, x: Matrix)
    requires
        a.complete(),
        b.complete(),
        a.rows == b.rows,
        w != 0real,
        !singular(sor_split(a, w)),
        x.complete(),
        x.rows == a.cols,
        x.cols == b.cols,
    ensures
        x == sor_step(a, w).product(x).sum(sor_offset(a, b, w)) <==> normal_matrix(a).product(x)
            == a.transpose().product(b),
{
    let n = normal_matrix(a);
    let g = a.transpose().product(b);
    let s = sor_split(a, w);
    let t = sor_rest(a, w);
    let c = g.scale(w);
    let si = inverse(s);
    let unit = Matrix::identity(s.rows);
    let z = t.product(x).sum(c);
    let y = sor_step(a, w).product(x).sum(sor_offset(a, b, w));
    lemma_inverse_exists(s);
    lemma_inverse_two_sided(s, si);
    // y = si * z
    lemma_product_associative(si, t, x);
    lemma_product_sum(si, t.product(x), c);
    assert(y == si.product(z));
    // s * x - t * x = w (n * x)
    lemma_sor_parts(a, w);
    lemma_product_left_difference(s, t, x);
    lemma_product_left_scaled(n, x, w);
    let sx = s.product(x);
    let tx = t.product(x);
    let nx = n.product(x);
    assert(sx.difference(tx) == nx.scale(w));
    if nx == g {
        assert(sx == z) by {
            assert forall|i: int, j: int| sx.in_bounds(i, j) implies #[trigger] sx.at(i, j)
                == z.at(i, j) by {
                assert(sx.difference(tx).at(i, j) == nx.scale(w).at(i, j));
            }
            lemma_equal(sx, z);
        }
        lemma_product_associative(si, s, x);
        lemma_product_identity_left(x);
        assert(y == x);
    }
    if x == y {
        lemma_product_associative(s, si, z);
        lemma_product_identity_left(z);
        assert(sx == z);
        assert forall|i: int, j: int| nx.in_bounds(i, j) implies #[trigger] nx.at(i, j) == g.at(
            i,
            j,
        ) by {
            assert(sx.difference(tx).at(i, j) == nx.scale(w).at(i, j));
            assert(z.at(i, j) == tx.at(i, j) + c.at(i, j));
            let p = nx.at(i, j);
            let q = g.at(i, j);
            assert(w * p == w * q);
            lemma_distribute(w, p, q);
            lemma_commute(w, p - q);
            lemma_zero_factor(p - q, w, 0real);
        }
        lemma_equal(nx, g);
    }
}

/// `k` steps of `x <- step * x + offset`, from `start`.
pub open spec fn sor_iterate(step: Matrix, offset: Matrix, start: Matrix, k: nat) -> Matrix
    decreases k,
{
    if k == 0 {
        start
    } else {
        step.product(sor_iterate(step, offset, start, (k - 1) as nat)).sum(offset)
    }
}

/// What conjugate gradients carry from step to step: the approximation `x`,
/// the residual `r = b - A x`, the search direction `p`, and the squared
/// length `sts` of `A^T r`.
pub struct CgState {
    pub x: Matrix,
    pub r: Matrix,
    pub p: Matrix,
    pub sts: real,
}

/// The squared length of the first column of `m`.
pub open spec fn squared_length(m: Matrix) -> real {
    m.transpose().product(m).at(0, 0)
}

/// The state that conjugate gradients start from: `x = 0`.
pub open spec fn cg_start(a: Matrix, b: Matrix) -> CgState {
    let x = Matrix::constant(a.cols, b.cols, 0real);
    let r = b.difference(a.product(x));
    let s = a.transpose().product(r);
    CgState { x, r, p: s.scale(1real), sts: squared_length(s) }
}

/// Whether conjugate gradients stop at this state: the residual of the
/// normal equations is zero, or the search direction is sent to zero.
pub open spec fn cg_done(a: Matrix, st: CgState) -> bool {
    st.sts == 0real || squared_length(a.product(st.p)) == 0real
}

/// One step of conjugate gradients.
pub open spec fn cg_step(a: Matrix, st: CgState) -> CgState {
    let q = a.product(st.p);
    let alpha = st.sts / squared_length(q);
    let x = st.x.sum(st.p.scale(alpha));
    let r = st.r.difference(q.scale(alpha));
    let s = a.transpose().product(r);
    let sts = squared_length(s);
    CgState { x, r, p: s.sum(st.p.scale(sts / st.sts)), sts }
}

/// At most `k` steps of conjugate gradients from `st`.
pub open spec fn cg_run(a: Matrix, st: CgState, k: nat) -> CgState
    decreases k,
{
    if k == 0 || cg_done(a, st) {
        st
    } else {
        cg_run(a, cg_step(a, st), (k - 1) as nat)
    }
}

/// The matrices of a state have the shapes that fit `a * x = b`, and hold
/// every entry.
pub open spec fn cg_shaped(a: Matrix, b: Matrix, st: CgState) -> bool {
    &&& st.x.complete() && st.x.rows == a.cols && st.x.cols == b.cols
    &&& st.r.complete() && st.r.rows == a.rows && st.r.cols == b.cols
    &&& st.p.complete() && st.p.rows == a.cols && st.p.cols == b.cols
}

/// The state carries what it is meant to carry: `r` is the residual
/// `b - a * x`, and `sts` the squared length of `a^T r`.
pub open spec fn cg_consistent(a: Matrix, b: Matrix, st: CgState) -> bool {
    &&& cg_shaped(a, b, st)
    &&& st.r == b.difference(a.product(st.x))
    &&& st.sts == squared_length(a.transpose().product(st.r))
}

/// One step of conjugate gradients keeps the state consistent.
pub proof fn lemma_cg_step(a: Matrix, b: Matrix, st: CgState)
    requires
        a.complete(),
        b.complete(),
        a.rows == b.rows,
        cg_consistent(a, b, st),
    ensures
        cg_consistent(a, b, cg_step(a, st)),
{
    let q = a.product(st.p);
    let alpha = st.sts / squared_length(q);
    let next = cg_step(a, st);
    let ax = a.product(st.x);
    lemma_product_sum(a, st.x, st.p.scale(alpha));
    lemma_product_scaled(a, st.p, alpha);
    assert(a.product(next.x) == ax.sum(q.scale(alpha)));
    lemma_equal(next.r, b.difference(a.product(next.x)));
}

/// Conjugate gradients keep the state consistent, from the start through
/// every step.
pub proof fn lemma_cg_run(a: Matrix, b: Matrix, st: CgState, k: nat)
    requires
        a.complete(),
        b.complete(),
        a.rows == b.rows,
        cg_consistent(a, b, st),
    ensures
        cg_consistent(a, b, cg_run(a, st, k)),
    decreases k,
{
    if k > 0 && !cg_done(a, st) {
        lemma_cg_step(a, b, st);
        lemma_cg_run(a, b, cg_step(a, st), (k - 1) as nat);
    }
}

/// The state that conjugate gradients start from is consistent.
pub proof fn lemma_cg_start(a: Matrix, b: Matrix)
    requires
        a.complete(),
        b.complete(),
        a.rows == b.rows,
    ensures
        cg_consistent(a, b, cg_start(a, b)),
{
}

/// A sum of squares is zero only if every square is.
pub proof fn lemma_squares(s: Matrix, n: nat)
    requires
        s.complete(),
        s.cols >= 1,
        n <= s.rows,
    ensures
        dot(s.transpose(), s, 0, 0, n) >= 0real,
        dot(s.transpose(), s, 0, 0, n) == 0real ==> forall|k: int|
            0 <= k < n ==> #[trigger] s.at(k, 0) == 0real,
    decreases n,
{
    if n > 0 {
        lemma_squares(s, (n - 1) as nat);
        let x = s.at(n - 1, 0);
        assert(s.transpose().at(0, n - 1) == x);
        lemma_square(x);
    }
}

/// When conjugate gradients stop because the squared length has become
/// zero, the approximation solves the normal equations `A^T A x = A^T b`
/// of a system with a single right side.
pub proof fn lemma_cg_exact(a: Matrix, b: Matrix, k: nat)
    requires
        a.complete(),
        b.complete(),
        a.rows == b.rows,
        b.cols == 1,
        cg_run(a, cg_start(a, b), k).sts == 0real,
    ensures
        normal_matrix(a).product(cg_run(a, cg_start(a, b), k).x) == a.transpose().product(b),
{
    let st = cg_run(a, cg_start(a, b), k);
    lemma_cg_start(a, b);
    lemma_cg_run(a, b, cg_start(a, b), k);
    let at = a.transpose();
    let ax = a.product(st.x);
    let s = at.product(st.r);
    lemma_squares(s, s.rows);
    lemma_product_difference(at, b, ax);
    lemma_product_associative(at, a, st.x);
    let l = normal_matrix(a).product(st.x);
    let r = at.product(b);
    assert forall|i: int, j: int| l.in_bounds(i, j) implies #[trigger] l.at(i, j) == r.at(i, j) by {
        assert(s.at(i, 0) == 0real);
        assert(s.at(i, j) == r.at(i, j) - at.product(ax).at(i, j));
    }
    lemma_equal(l, r);
}

} // verus!
