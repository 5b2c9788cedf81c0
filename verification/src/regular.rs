//! A square matrix is singular exactly when its determinant is zero.

use crate::det::lemma_det_expansion;
use crate::det::lemma_det_zero_pivot;
use crate::det::lemma_expansion_first;
use crate::det_rows::lemma_det_reduce;
use crate::det_swap::lemma_det_swap;
use crate::kernel::annihilates;
use crate::kernel::apply;
use crate::kernel::kernel_vector;
use crate::kernel::lemma_wsum_same_vector;
use crate::kernel::lemma_wsum_single;
use crate::kernel::lemma_wsum_skip;
use crate::kernel::reduce_row;
use crate::kernel::row_of;
use crate::kernel::same_kernel;
use crate::kernel::singular;
use crate::kernel::swap_rows;
use crate::kernel::wsum;
use crate::model::Matrix;
use crate::model::lemma_equal;
use crate::reals::lemma_commute;
use crate::reals::lemma_mul_one;
use crate::reals::lemma_mul_zero;
use crate::reals::lemma_quotient;
use crate::reals::lemma_zero_factor;
use crate::rowops::lemma_kernel_chain;
use crate::rowops::lemma_kernel_same;
use crate::rowops::lemma_reduce_keeps_kernel;
use crate::rowops::lemma_swap_keeps_kernel;
use vstd::prelude::*;

verus! {

/// Matrices of one shape with the same kernel are singular together.
pub proof fn lemma_singular_same(a: Matrix, b: Matrix)
    requires
        a.same_shape(b),
        same_kernel(a, b),
    ensures
        singular(a) <==> singular(b),
{
    if singular(a) {
        let x = choose|x: spec_fn(int) -> real| #[trigger] kernel_vector(a, x);
        assert(annihilates(a, x) <==> annihilates(b, x));
        assert(kernel_vector(b, x));
    }
    if singular(b) {
        let x = choose|x: spec_fn(int) -> real| #[trigger] kernel_vector(b, x);
        assert(annihilates(a, x) <==> annihilates(b, x));
        assert(kernel_vector(a, x));
    }
}

/// `m` after the first column has been made zero in rows `1..i`, by
/// subtracting multiples of the first row.
pub open spec fn clear_first(m: Matrix, i: nat) -> Matrix
    decreases i,
{
    if i <= 1 {
        m
    } else {
        let p = clear_first(m, (i - 1) as nat);
        reduce_row(p, i - 1, 0, p.at(i - 1, 0) / p.at(0, 0))
    }
}

/// Clearing the first column keeps the shape, the kernel, the determinant,
/// the first row and the rows not yet reached.
pub proof fn lemma_clear_first(m: Matrix, i: nat)
    requires
        m.complete(),
        m.square(),
        m.rows >= 1,
        m.at(0, 0) != 0real,
        i <= m.rows,
    ensures
        clear_first(m, i).complete(),
        clear_first(m, i).same_shape(m),
        same_kernel(m, clear_first(m, i)),
        clear_first(m, i).det() == m.det(),
        forall|y: int| 0 <= y < m.cols ==> #[trigger] clear_first(m, i).at(0, y) == m.at(0, y),
        forall|t: int| 1 <= t < i ==> #[trigger] clear_first(m, i).at(t, 0) == 0real,
        forall|t: int, y: int|
            i <= t < m.rows && 0 <= y < m.cols ==> #[trigger] clear_first(m, i).at(t, y) == m.at(
                t,
                y,
            ),
    decreases i,
{
    if i <= 1 {
        lemma_kernel_same(m);
    } else {
        let p = clear_first(m, (i - 1) as nat);
        lemma_clear_first(m, (i - 1) as nat);
        let h = p.at(0, 0);
        let x = p.at(i - 1, 0);
        let k = x / h;
        let c = reduce_row(p, i - 1, 0, k);
        lemma_reduce_keeps_kernel(p, i - 1, 0, k);
        lemma_kernel_chain(m, p, c);
        lemma_det_reduce(p, i - 1, 0, k);
        lemma_quotient(x, h);
        assert(c.at(i - 1, 0) == x - k * h);
        lemma_mul_zero(k);
        assert forall|t: int| 1 <= t < i implies #[trigger] c.at(t, 0) == 0real by {
            if t < i - 1 {
                assert(p.at(t, 0) == 0real);
            }
        }
    }
}

/// The entries of `x` from the second on.
pub open spec fn shifted(x: spec_fn(int) -> real) -> spec_fn(int) -> real {
    |k: int| x(k + 1)
}

/// `y` with `first` put in front.
pub open spec fn extended(first: real, y: spec_fn(int) -> real) -> spec_fn(int) -> real {
    |k: int|
        if k == 0 {
            first
        } else {
            y(k - 1)
        }
}

/// The first row of `m` without its first entry.
pub open spec fn top_rest(m: Matrix) -> spec_fn(int) -> real {
    |y: int| m.at(0, y + 1)
}

/// A row against a vector is the first product plus the rest of the row
/// against the rest of the vector.
proof fn lemma_wsum_shift(
    r: spec_fn(int) -> real,
    rest: spec_fn(int) -> real,
    x: spec_fn(int) -> real,
    k: nat,
)
    requires
        forall|y: int| 0 <= y < k ==> #[trigger] rest(y) == r(y + 1),
    ensures
        wsum(r, x, k + 1) == r(0) * x(0) + wsum(rest, shifted(x), k),
    decreases k,
{
    if k == 0 {
        assert(wsum(r, x, 1) == wsum(r, x, 0) + r(0) * x(0));
        assert(wsum(r, x, 0) == 0real);
        assert(wsum(rest, shifted(x), 0) == 0real);
    } else {
        lemma_wsum_shift(r, rest, x, (k - 1) as nat);
        assert(wsum(r, x, k + 1) == wsum(r, x, k) + r(k as int) * x(k as int));
        assert(rest(k - 1) == r(k as int));
        assert(shifted(x)(k - 1) == x(k as int));
    }
}

/// A matrix whose first column is zero below a first entry other than zero
/// is singular exactly when what is left without the first row and column
/// is.
proof fn lemma_singular_minor(c: Matrix)
    requires
        c.complete(),
        c.square(),
        c.rows >= 2,
        c.at(0, 0) != 0real,
        forall|t: int| 1 <= t < c.rows ==> #[trigger] c.at(t, 0) == 0real,
    ensures
        singular(c) <==> singular(c.minor(0, 0)),
{
    let n = c.rows;
    let h = c.at(0, 0);
    let sub = c.minor(0, 0);
    let top = top_rest(c);
    if singular(sub) {
        let y = choose|y: spec_fn(int) -> real| #[trigger] kernel_vector(sub, y);
        let w = wsum(top, y, (n - 1) as nat);
        let first = (0real - w) / h;
        let x = extended(first, y);
        lemma_quotient(0real - w, h);
        assert forall|k: int| 0 <= k < n - 1 implies #[trigger] shifted(x)(k) == y(k) by {}
        assert forall|i: int| 0 <= i < c.rows implies #[trigger] apply(c, i, x) == 0real by {
            if i == 0 {
                assert forall|v: int| 0 <= v < n - 1 implies #[trigger] top(v) == row_of(c, 0)(
                    v + 1,
                ) by {}
                lemma_wsum_shift(row_of(c, 0), top, x, (n - 1) as nat);
                lemma_wsum_same_vector(top, shifted(x), y, (n - 1) as nat);
                assert(row_of(c, 0)(0) == h);
                assert(x(0) == first);
                lemma_commute(h, first);
            } else {
                let rest = row_of(sub, i - 1);
                assert forall|v: int| 0 <= v < n - 1 implies #[trigger] rest(v) == row_of(c, i)(
                    v + 1,
                ) by {}
                lemma_wsum_shift(row_of(c, i), rest, x, (n - 1) as nat);
                lemma_wsum_same_vector(rest, shifted(x), y, (n - 1) as nat);
                assert(apply(sub, i - 1, y) == 0real);
                assert(row_of(c, i)(0) == 0real);
                lemma_mul_zero(x(0));
            }
        }
        let k = choose|k: int| 0 <= k < sub.cols && #[trigger] y(k) != 0real;
        assert(x(k + 1) != 0real);
        assert(kernel_vector(c, x));
    }
    if singular(c) {
        let x = choose|x: spec_fn(int) -> real| #[trigger] kernel_vector(c, x);
        let y = shifted(x);
        assert forall|i: int| 0 <= i < sub.rows implies #[trigger] apply(sub, i, y) == 0real by {
            let rest = row_of(sub, i);
            assert forall|v: int| 0 <= v < n - 1 implies #[trigger] rest(v) == row_of(c, i + 1)(
                v + 1,
            ) by {}
            lemma_wsum_shift(row_of(c, i + 1), rest, x, (n - 1) as nat);
            assert(apply(c, i + 1, x) == 0real);
            assert(row_of(c, i + 1)(0) == 0real);
            lemma_mul_zero(x(0));
        }
        if forall|k: int| 0 <= k < n - 1 ==> #[trigger] y(k) == 0real {
            assert forall|v: int| 0 <= v < n - 1 implies #[trigger] top(v) == row_of(c, 0)(v + 1) by {}
            lemma_wsum_shift(row_of(c, 0), top, x, (n - 1) as nat);
            lemma_wsum_skip(top, y, 0, (n - 1) as nat);
            assert(wsum(top, y, 0) == 0real);
            assert(apply(c, 0, x) == 0real);
            assert(row_of(c, 0)(0) == h);
            let x0 = x(0);
            assert(h * x0 == 0real);
            lemma_commute(h, x0);
            lemma_zero_factor(x0, h, 0real);
            let bad = choose|b: int| 0 <= b < c.cols && #[trigger] x(b) != 0real;
            if bad > 0 {
                assert(y(bad - 1) == x(bad));
            }
            assert(false);
        }
        let k = choose|k: int| 0 <= k < n - 1 && #[trigger] y(k) != 0real;
        assert(kernel_vector(sub, y));
    }
}

/// A square matrix is singular exactly when its determinant is zero.
pub proof fn lemma_singular_iff_det_zero(m: Matrix)
    requires
        m.complete(),
        m.square(),
    ensures
        singular(m) <==> m.det() == 0real,
    decreases m.rows,
{
    let n = m.rows;
    if n == 0 {
        assert forall|x: spec_fn(int) -> real| !#[trigger] kernel_vector(m, x) by {}
    } else if n == 1 {
        let a = m.at(0, 0);
        if a == 0real {
            let x = |k: int| 1real;
            assert forall|i: int| 0 <= i < m.rows implies #[trigger] apply(m, i, x) == 0real by {
                assert(wsum(row_of(m, 0), x, 1) == wsum(row_of(m, 0), x, 0) + row_of(m, 0)(0) * x(0));
                assert(wsum(row_of(m, 0), x, 0) == 0real);
                lemma_mul_zero(1real);
            }
            assert(x(0) != 0real);
            assert(kernel_vector(m, x));
        } else {
            if singular(m) {
                let x = choose|x: spec_fn(int) -> real| #[trigger] kernel_vector(m, x);
                assert(apply(m, 0, x) == 0real);
                assert(wsum(row_of(m, 0), x, 1) == wsum(row_of(m, 0), x, 0) + row_of(m, 0)(0) * x(0));
                assert(wsum(row_of(m, 0), x, 0) == 0real);
                let x0 = x(0);
                assert(a * x0 == 0real);
                lemma_commute(a, x0);
                lemma_zero_factor(x0, a, 0real);
                let bad = choose|b: int| 0 <= b < m.cols && #[trigger] x(b) != 0real;
                assert(false);
            }
        }
    } else if forall|i: int| 0 <= i < n ==> #[trigger] m.at(i, 0) == 0real {
        lemma_det_zero_pivot(m, 0);
        let x = |k: int|
            if k == 0 {
                1real
            } else {
                0real
            };
        assert forall|i: int| 0 <= i < m.rows implies #[trigger] apply(m, i, x) == 0real by {
            lemma_wsum_single(row_of(m, i), x, 0, n, 0);
            assert(wsum(row_of(m, i), x, 0) == 0real);
            assert(row_of(m, i)(0) == 0real);
            lemma_mul_zero(x(0));
        }
        assert(x(0) != 0real);
        assert(kernel_vector(m, x));
    } else {
        let p = choose|i: int| 0 <= i < n && #[trigger] m.at(i, 0) != 0real;
        let m1 = swap_rows(m, p, 0);
        lemma_swap_keeps_kernel(m, p, 0);
        if p == 0 {
            lemma_equal(m1, m);
        } else {
            lemma_det_swap(m, 0, p);
        }
        assert(m1.det() == 0real <==> m.det() == 0real);
        lemma_singular_same(m, m1);
        assert(m1.at(0, 0) != 0real);
        let c = clear_first(m1, n);
        lemma_clear_first(m1, n);
        lemma_singular_same(m1, c);
        let h = c.at(0, 0);
        let sub = c.minor(0, 0);
        lemma_singular_minor(c);
        lemma_singular_iff_det_zero(sub);
        lemma_det_expansion(c);
        lemma_expansion_first(c, n);
        let d = sub.det();
        lemma_mul_one(h);
        assert(c.det() == 1real * h * d);
        lemma_commute(h, d);
        lemma_zero_factor(d, h, c.det());
    }
}

} // verus!
