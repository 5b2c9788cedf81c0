//! The matrix product is linear in its right factor and associative.

use crate::model::Matrix;
use crate::model::dot;
use crate::model::lemma_equal;
use crate::reals::lemma_distribute;
use crate::reals::lemma_distribute_left;
use crate::reals::lemma_move_factor;
use crate::reals::lemma_mul_zero;
use vstd::prelude::*;

verus! {

/// The dot product against a sum is the sum of the dot products.
pub proof fn lemma_dot_sum(a: Matrix, x: Matrix, y: Matrix, i: int, j: int, n: nat)
    requires
        x.complete(),
        y.complete(),
        x.same_shape(y),
        0 <= j < x.cols,
        n <= x.rows,
    ensures
        dot(a, x.sum(y), i, j, n) == dot(a, x, i, j, n) + dot(a, y, i, j, n),
    decreases n,
{
    if n > 0 {
        lemma_dot_sum(a, x, y, i, j, (n - 1) as nat);
        let c = a.at(i, n - 1);
        let u = x.at(n - 1, j);
        let v = y.at(n - 1, j);
        assert(x.sum(y).at(n - 1, j) == u + v);
        lemma_distribute(c, u, v);
    }
}

/// The dot product against a difference is the difference of the dot
/// products.
pub proof fn lemma_dot_difference(a: Matrix, x: Matrix, y: Matrix, i: int, j: int, n: nat)
    requires
        x.complete(),
        y.complete(),
        x.same_shape(y),
        0 <= j < x.cols,
        n <= x.rows,
    ensures
        dot(a, x.difference(y), i, j, n) == dot(a, x, i, j, n) - dot(a, y, i, j, n),
    decreases n,
{
    if n > 0 {
        lemma_dot_difference(a, x, y, i, j, (n - 1) as nat);
        let c = a.at(i, n - 1);
        let u = x.at(n - 1, j);
        let v = y.at(n - 1, j);
        assert(x.difference(y).at(n - 1, j) == u - v);
        lemma_distribute(c, u, v);
    }
}

/// Scaling the right factor scales the dot product.
pub proof fn lemma_dot_scaled(a: Matrix, b: Matrix, k: real, i: int, j: int, n: nat)
    requires
        b.complete(),
        0 <= j < b.cols,
        n <= b.rows,
    ensures
        dot(a, b.scale(k), i, j, n) == k * dot(a, b, i, j, n),
    decreases n,
{
    if n == 0 {
        lemma_mul_zero(k);
    } else {
        lemma_dot_scaled(a, b, k, i, j, (n - 1) as nat);
        let x = a.at(i, n - 1);
        let d = b.at(n - 1, j);
        assert(b.scale(k).at(n - 1, j) == k * d);
        lemma_move_factor(k, x, d);
        lemma_distribute(k, dot(a, b, i, j, (n - 1) as nat), x * d);
    }
}

/// `a * (x + y) = a * x + a * y`.
pub proof fn lemma_product_sum(a: Matrix, x: Matrix, y: Matrix)
    requires
        x.complete(),
        y.complete(),
        x.same_shape(y),
        a.cols == x.rows,
    ensures
        a.product(x.sum(y)) == a.product(x).sum(a.product(y)),
{
    let l = a.product(x.sum(y));
    let r = a.product(x).sum(a.product(y));
    assert forall|i: int, j: int| l.in_bounds(i, j) implies #[trigger] l.at(i, j) == r.at(i, j) by {
        lemma_dot_sum(a, x, y, i, j, a.cols);
    }
    lemma_equal(l, r);
}

/// `a * (x - y) = a * x - a * y`.
pub proof fn lemma_product_difference(a: Matrix, x: Matrix, y: Matrix)
    requires
        x.complete(),
        y.complete(),
        x.same_shape(y),
        a.cols == x.rows,
    ensures
        a.product(x.difference(y)) == a.product(x).difference(a.product(y)),
{
    let l = a.product(x.difference(y));
    let r = a.product(x).difference(a.product(y));
    assert forall|i: int, j: int| l.in_bounds(i, j) implies #[trigger] l.at(i, j) == r.at(i, j) by {
        lemma_dot_difference(a, x, y, i, j, a.cols);
    }
    lemma_equal(l, r);
}

/// `a * (k x) = k (a * x)`.
pub proof fn lemma_product_scaled(a: Matrix, x: Matrix, k: real)
    requires
        x.complete(),
        a.cols == x.rows,
    ensures
        a.product(x.scale(k)) == a.product(x).scale(k),
{
    let l = a.product(x.scale(k));
    let r = a.product(x).scale(k);
    assert forall|i: int, j: int| l.in_bounds(i, j) implies #[trigger] l.at(i, j) == r.at(i, j) by {
        lemma_dot_scaled(a, x, k, i, j, a.cols);
    }
    lemma_equal(l, r);
}

/// The dot product of a difference is the difference of the dot products.
pub proof fn lemma_dot_left_difference(s: Matrix, t: Matrix, x: Matrix, i: int, j: int, n: nat)
    requires
        s.complete(),
        t.complete(),
        s.same_shape(t),
        0 <= i < s.rows,
        n <= s.cols,
    ensures
        dot(s.difference(t), x, i, j, n) == dot(s, x, i, j, n) - dot(t, x, i, j, n),
    decreases n,
{
    if n > 0 {
        lemma_dot_left_difference(s, t, x, i, j, (n - 1) as nat);
        let u = s.at(i, n - 1);
        let v = t.at(i, n - 1);
        let c = x.at(n - 1, j);
        assert(s.difference(t).at(i, n - 1) == u - v);
        lemma_distribute_left(u, 0real - v, c);
        assert((0real - v) * c == 0real - v * c) by (nonlinear_arith);
    }
}

/// The dot product of a sum is the sum of the dot products.
pub proof fn lemma_dot_left_sum(s: Matrix, t: Matrix, x: Matrix, i: int, j: int, n: nat)
    requires
        s.complete(),
        t.complete(),
        s.same_shape(t),
        0 <= i < s.rows,
        n <= s.cols,
    ensures
        dot(s.sum(t), x, i, j, n) == dot(s, x, i, j, n) + dot(t, x, i, j, n),
    decreases n,
{
    if n > 0 {
        lemma_dot_left_sum(s, t, x, i, j, (n - 1) as nat);
        let u = s.at(i, n - 1);
        let v = t.at(i, n - 1);
        let c = x.at(n - 1, j);
        assert(s.sum(t).at(i, n - 1) == u + v);
        lemma_distribute_left(u, v, c);
    }
}

/// `(s + t) * x = s * x + t * x`.
pub proof fn lemma_product_left_sum(s: Matrix, t: Matrix, x: Matrix)
    requires
        s.complete(),
        t.complete(),
        s.same_shape(t),
    ensures
        s.sum(t).product(x) == s.product(x).sum(t.product(x)),
{
    let l = s.sum(t).product(x);
    let r = s.product(x).sum(t.product(x));
    assert forall|i: int, j: int| l.in_bounds(i, j) implies #[trigger] l.at(i, j) == r.at(i, j) by {
        lemma_dot_left_sum(s, t, x, i, j, s.cols);
    }
    lemma_equal(l, r);
}

/// Scaling the left factor scales the dot product.
pub proof fn lemma_dot_left_scaled(a: Matrix, x: Matrix, k: real, i: int, j: int, n: nat)
    requires
        a.complete(),
        0 <= i < a.rows,
        n <= a.cols,
    ensures
        dot(a.scale(k), x, i, j, n) == k * dot(a, x, i, j, n),
    decreases n,
{
    if n == 0 {
        lemma_mul_zero(k);
    } else {
        lemma_dot_left_scaled(a, x, k, i, j, (n - 1) as nat);
        let u = a.at(i, n - 1);
        let c = x.at(n - 1, j);
        assert(a.scale(k).at(i, n - 1) == k * u);
        assert((k * u) * c == k * (u * c)) by (nonlinear_arith);
        lemma_distribute(k, dot(a, x, i, j, (n - 1) as nat), u * c);
    }
}

/// `(s - t) * x = s * x - t * x`.
pub proof fn lemma_product_left_difference(s: Matrix, t: Matrix, x: Matrix)
    requires
        s.complete(),
        t.complete(),
        s.same_shape(t),
    ensures
        s.difference(t).product(x) == s.product(x).difference(t.product(x)),
{
    let l = s.difference(t).product(x);
    let r = s.product(x).difference(t.product(x));
    assert forall|i: int, j: int| l.in_bounds(i, j) implies #[trigger] l.at(i, j) == r.at(i, j) by {
        lemma_dot_left_difference(s, t, x, i, j, s.cols);
    }
    lemma_equal(l, r);
}

/// `(k a) * x = k (a * x)`.
pub proof fn lemma_product_left_scaled(a: Matrix, x: Matrix, k: real)
    requires
        a.complete(),
    ensures
        a.scale(k).product(x) == a.product(x).scale(k),
{
    let l = a.scale(k).product(x);
    let r = a.product(x).scale(k);
    assert forall|i: int, j: int| l.in_bounds(i, j) implies #[trigger] l.at(i, j) == r.at(i, j) by {
        lemma_dot_left_scaled(a, x, k, i, j, a.cols);
    }
    lemma_equal(l, r);
}

/// The sum over the first `n` columns `k` of `b` of
/// `(row i of a against column k of b, over l columns) * c[k][j]`.
pub open spec fn left_sum(a: Matrix, b: Matrix, c: Matrix, i: int, j: int, l: nat, n: nat) -> real
    decreases n,
{
    if n == 0 {
        0real
    } else {
        left_sum(a, b, c, i, j, l, (n - 1) as nat) + dot(a, b, i, n - 1, l) * c.at(n - 1, j)
    }
}

/// The sum over the first `l` columns `t` of `a` of
/// `a[i][t] * (row t of b against column j of c, over n columns)`.
pub open spec fn right_sum(a: Matrix, b: Matrix, c: Matrix, i: int, j: int, l: nat, n: nat) -> real
    decreases l,
{
    if l == 0 {
        0real
    } else {
        right_sum(a, b, c, i, j, (l - 1) as nat, n) + a.at(i, l - 1) * dot(b, c, l - 1, j, n)
    }
}

/// One more column of `a` in the left sum.
proof fn lemma_left_sum_step(a: Matrix, b: Matrix, c: Matrix, i: int, j: int, l: nat, n: nat)
    requires
        l >= 1,
    ensures
        left_sum(a, b, c, i, j, l, n) == left_sum(a, b, c, i, j, (l - 1) as nat, n) + a.at(
            i,
            l - 1,
        ) * dot(b, c, l - 1, j, n),
    decreases n,
{
    let x = a.at(i, l - 1);
    if n == 0 {
        lemma_mul_zero(x);
    } else {
        lemma_left_sum_step(a, b, c, i, j, l, (n - 1) as nat);
        let d = dot(a, b, i, n - 1, (l - 1) as nat);
        let y = b.at(l - 1, n - 1);
        let z = c.at(n - 1, j);
        let e = dot(b, c, l - 1, j, (n - 1) as nat);
        assert(dot(a, b, i, n - 1, l) == d + x * y);
        assert(dot(b, c, l - 1, j, n) == e + y * z);
        lemma_distribute_left(d, x * y, z);
        lemma_distribute(x, e, y * z);
        assert((x * y) * z == x * (y * z)) by (nonlinear_arith);
    }
}

/// The left sum and the right sum are the same sum in two orders.
proof fn lemma_sums_agree(a: Matrix, b: Matrix, c: Matrix, i: int, j: int, l: nat, n: nat)
    ensures
        left_sum(a, b, c, i, j, l, n) == right_sum(a, b, c, i, j, l, n),
    decreases l,
{
    if l == 0 {
        lemma_left_zero(a, b, c, i, j, n);
    } else {
        lemma_sums_agree(a, b, c, i, j, (l - 1) as nat, n);
        lemma_left_sum_step(a, b, c, i, j, l, n);
    }
}

/// Over no column of `a`, the left sum is zero.
proof fn lemma_left_zero(a: Matrix, b: Matrix, c: Matrix, i: int, j: int, n: nat)
    ensures
        left_sum(a, b, c, i, j, 0, n) == 0real,
    decreases n,
{
    if n > 0 {
        lemma_left_zero(a, b, c, i, j, (n - 1) as nat);
        assert(dot(a, b, i, n - 1, 0) == 0real);
        lemma_mul_zero(c.at(n - 1, j));
    }
}

/// The entry of `(a * b) * c` is the left sum.
proof fn lemma_left_is_product(a: Matrix, b: Matrix, c: Matrix, i: int, j: int, n: nat)
    requires
        0 <= i < a.rows,
        n <= b.cols,
    ensures
        dot(a.product(b), c, i, j, n) == left_sum(a, b, c, i, j, a.cols, n),
    decreases n,
{
    if n > 0 {
        lemma_left_is_product(a, b, c, i, j, (n - 1) as nat);
        assert(a.product(b).at(i, n - 1) == dot(a, b, i, n - 1, a.cols));
    }
}

/// The entry of `a * (b * c)` is the right sum.
proof fn lemma_right_is_product(a: Matrix, b: Matrix, c: Matrix, i: int, j: int, l: nat)
    requires
        0 <= j < c.cols,
        l <= b.rows,
    ensures
        dot(a, b.product(c), i, j, l) == right_sum(a, b, c, i, j, l, b.cols),
    decreases l,
{
    if l > 0 {
        lemma_right_is_product(a, b, c, i, j, (l - 1) as nat);
        assert(b.product(c).at(l - 1, j) == dot(b, c, l - 1, j, b.cols));
    }
}

/// The matrix product is associative: `(a * b) * c = a * (b * c)`.
pub proof fn lemma_product_associative(a: Matrix, b: Matrix, c: Matrix)
    requires
        a.cols == b.rows,
        b.cols == c.rows,
    ensures
        a.product(b).product(c) == a.product(b.product(c)),
{
    let l = a.product(b).product(c);
    let r = a.product(b.product(c));
    assert forall|i: int, j: int| l.in_bounds(i, j) implies #[trigger] l.at(i, j) == r.at(i, j) by {
        lemma_left_is_product(a, b, c, i, j, b.cols);
        lemma_right_is_product(a, b, c, i, j, a.cols);
        lemma_sums_agree(a, b, c, i, j, a.cols, b.cols);
    }
    lemma_equal(l, r);
}

} // verus!
