//! What a finished elimination says about the system it started from.

use crate::gauss::cleared;
use crate::gauss::echelon;
use crate::kernel::annihilates;
use crate::kernel::apply;
use crate::kernel::col_of;
use crate::kernel::kernel_vector;
use crate::kernel::lemma_wsum_dot;
use crate::kernel::lemma_wsum_same;
use crate::kernel::lemma_wsum_same_vector;
use crate::kernel::lemma_wsum_single;
use crate::kernel::lemma_wsum_skip;
use crate::kernel::row_of;
use crate::kernel::same_kernel;
use crate::kernel::singular;
use crate::kernel::wsum;
use crate::model::Matrix;
use crate::model::lemma_equal;
use vstd::prelude::*;

verus! {

/// `left` is what stands in the first `left.cols` columns of `aug`.
pub open spec fn left_block(aug: Matrix, left: Matrix) -> bool {
    &&& left.complete()
    &&& aug.complete()
    &&& left.rows == aug.rows
    &&& left.cols <= aug.cols
    &&& forall|i: int, c: int| left.in_bounds(i, c) ==> #[trigger] aug.at(i, c) == left.at(i, c)
}

/// The vector that is `x` on the first `n` columns and zero after them.
pub open spec fn padded(x: spec_fn(int) -> real, n: int) -> spec_fn(int) -> real {
    |c: int|
        if c < n {
            x(c)
        } else {
            0real
        }
}

/// On a vector that is zero after the left block, a matrix acts as its left
/// block does.
pub proof fn lemma_apply_left(aug: Matrix, left: Matrix, i: int, x: spec_fn(int) -> real)
    requires
        left_block(aug, left),
        0 <= i < left.rows,
    ensures
        apply(aug, i, padded(x, left.cols as int)) == apply(left, i, x),
{
    let v = padded(x, left.cols as int);
    lemma_wsum_skip(row_of(aug, i), v, left.cols, aug.cols);
    assert forall|c: int| 0 <= c < left.cols implies #[trigger] row_of(aug, i)(c) == row_of(
        left,
        i,
    )(c) by {
        assert(aug.at(i, c) == left.at(i, c));
    }
    lemma_wsum_same(row_of(aug, i), row_of(left, i), v, left.cols);
    lemma_wsum_same_vector(row_of(left, i), v, x, left.cols);
}

/// The vector that a column without pivot leaves free: one at column `r`,
/// zero after it, and before it whatever the reduced rows ask for.
pub open spec fn free_vector(m: Matrix, r: int, c: int) -> real
    decreases r - c, r + 2,
{
    if c < 0 || c > r {
        0real
    } else if c == r {
        1real
    } else {
        0real - tail(m, r, c, r + 1)
    }
}

/// The sum of `m[i][c] * free_vector(c)` over the columns from `i + 1` up
/// to `k`.
pub open spec fn tail(m: Matrix, r: int, i: int, k: int) -> real
    decreases r - i, k,
{
    if i < 0 || k <= i + 1 || k > r + 1 {
        0real
    } else {
        tail(m, r, i, k - 1) + m.at(i, k - 1) * free_vector(m, r, k - 1)
    }
}

/// The free vector, as a function of the column.
pub open spec fn free_of(m: Matrix, r: int) -> spec_fn(int) -> real {
    |c: int| free_vector(m, r, c)
}

/// Row `i` of a reduced matrix against the free vector, up to column `k`.
proof fn lemma_tail(m: Matrix, r: int, i: int, k: int)
    requires
        0 <= i < r,
        i + 1 <= k <= r + 1,
        echelon(m, r),
        i < m.rows,
    ensures
        wsum(row_of(m, i), free_of(m, r), k as nat) == free_vector(m, r, i) + tail(m, r, i, k),
    decreases k,
{
    let row = row_of(m, i);
    let x = free_of(m, r);
    if k == i + 1 {
        assert forall|c: int| 0 <= c < i implies #[trigger] row(c) == 0real || #[trigger] x(c)
            == 0real by {
            assert(m.at(i, c) == 0real);
        }
        lemma_wsum_skip(row, x, 0, i as nat);
        assert(wsum(row, x, 0) == 0real);
        assert(m.at(i, i) == 1real);
        assert(row(i) == 1real);
        assert(wsum(row, x, k as nat) == wsum(row, x, i as nat) + row(i) * x(i));
    } else {
        lemma_tail(m, r, i, k - 1);
        assert(wsum(row, x, k as nat) == wsum(row, x, (k - 1) as nat) + row(k - 1) * x(k - 1));
    }
}

/// A column that elimination finds zero at and below the diagonal shows a
/// vector other than zero that the matrix sends to zero.
pub proof fn lemma_zero_pivot(m: Matrix, r: int)
    requires
        m.complete(),
        0 <= r < m.rows,
        m.rows <= m.cols,
        echelon(m, r),
        forall|i: int| r <= i < m.rows ==> #[trigger] m.at(i, r) == 0real,
    ensures
        annihilates(m, free_of(m, r)),
        free_of(m, r)(r) == 1real,
        forall|c: int| c > r ==> #[trigger] free_of(m, r)(c) == 0real,
{
    let x = free_of(m, r);
    assert forall|i: int| 0 <= i < m.rows implies #[trigger] apply(m, i, x) == 0real by {
        let row = row_of(m, i);
        if i < r {
            lemma_tail(m, r, i, r + 1);
            assert(wsum(row, x, (r + 1) as nat) == 0real);
            lemma_wsum_skip(row, x, (r + 1) as nat, m.cols);
        } else {
            assert forall|c: int| 0 <= c < m.cols implies #[trigger] row(c) == 0real || #[trigger] x(
                c,
            ) == 0real by {
                if c <= r {
                    assert(m.at(i, c) == 0real);
                }
            }
            lemma_wsum_skip(row, x, 0, m.cols);
        }
    }
}

/// If elimination of a matrix whose left block is `a` stops at a column
/// without pivot, `a` is singular.
pub proof fn lemma_stuck_is_singular(a: Matrix, aug: Matrix, cur: Matrix, r: int)
    requires
        left_block(aug, a),
        a.square(),
        cur.complete(),
        cur.same_shape(aug),
        same_kernel(aug, cur),
        0 <= r < cur.rows,
        echelon(cur, r),
        forall|i: int| r <= i < cur.rows ==> #[trigger] cur.at(i, r) == 0real,
    ensures
        singular(a),
{
    let x = free_of(cur, r);
    lemma_zero_pivot(cur, r);
    assert(annihilates(aug, x));
    let n = a.cols as int;
    assert forall|i: int| 0 <= i < a.rows implies #[trigger] apply(a, i, x) == 0real by {
        lemma_apply_left(aug, a, i, x);
        assert forall|c: int| 0 <= c < aug.cols implies #[trigger] padded(x, n)(c) == x(c) by {}
        lemma_wsum_same_vector(row_of(aug, i), padded(x, n), x, aug.cols);
        assert(apply(aug, i, x) == 0real);
    }
    assert(x(r) != 0real);
    assert(kernel_vector(a, x));
}

/// If elimination of a matrix whose left block is `a` ends with the
/// identity in the left block, `a` is not singular.
pub proof fn lemma_reduced_is_regular(a: Matrix, aug: Matrix, fin: Matrix)
    requires
        left_block(aug, a),
        a.square(),
        fin.complete(),
        fin.same_shape(aug),
        same_kernel(aug, fin),
        echelon(fin, fin.rows as int),
        cleared(fin, 0, fin.rows as int),
    ensures
        !singular(a),
{
    let n = a.cols as int;
    assert forall|x: spec_fn(int) -> real| !#[trigger] kernel_vector(a, x) by {
        if kernel_vector(a, x) {
            let v = padded(x, n);
            assert forall|i: int| 0 <= i < aug.rows implies #[trigger] apply(aug, i, v) == 0real by {
                lemma_apply_left(aug, a, i, x);
                assert(apply(a, i, x) == 0real);
            }
            assert(annihilates(aug, v));
            assert(annihilates(fin, v));
            assert forall|c: int| 0 <= c < n implies #[trigger] x(c) == 0real by {
                let row = row_of(fin, c);
                assert(apply(fin, c, v) == 0real);
                lemma_wsum_skip(row, v, n as nat, fin.cols);
                assert forall|d: int| 0 <= d < n && d != c implies #[trigger] row(d) == 0real
                    || #[trigger] v(d) == 0real by {
                    assert(fin.at(c, d) == 0real);
                }
                lemma_wsum_single(row, v, 0, n as nat, c);
                assert(fin.at(c, c) == 1real);
                assert(row(c) == 1real);
                assert(v(c) == x(c));
            }
        }
    }
}

/// If elimination of `[a | b]` ends with the identity in the left block,
/// the right block `x` solves `a * x = b`.
pub proof fn lemma_reduced_solves(a: Matrix, b: Matrix, fin: Matrix)
    requires
        a.complete(),
        b.complete(),
        a.square(),
        a.rows == b.rows,
        a.rows >= 1,
        b.cols >= 1,
        fin.complete(),
        fin.same_shape(a.concat(b)),
        same_kernel(a.concat(b), fin),
        echelon(fin, fin.rows as int),
        cleared(fin, 0, fin.rows as int),
    ensures
        a.product(fin.slice(0, a.rows - 1, a.cols as int, a.cols + b.cols - 1)) == b,
{
    let n = a.rows as int;
    let w = n + b.cols;
    let aug = a.concat(b);
    let x = fin.slice(0, n - 1, n, w - 1);
    let p = a.product(x);
    assert forall|i: int, j: int| p.in_bounds(i, j) implies #[trigger] p.at(i, j) == b.at(i, j) by {
        let v = |c: int|
            if c < n {
                x.at(c, j)
            } else if c == n + j {
                0real - 1real
            } else {
                0real
            };
        assert forall|k: int| 0 <= k < fin.rows implies #[trigger] apply(fin, k, v) == 0real by {
            let row = row_of(fin, k);
            assert forall|d: int| 0 <= d < n && d != k implies #[trigger] row(d) == 0real
                || #[trigger] v(d) == 0real by {
                assert(fin.at(k, d) == 0real);
            }
            lemma_wsum_single(row, v, 0, n as nat, k);
            lemma_wsum_single(row, v, n as nat, w as nat, n + j);
            assert(fin.at(k, k) == 1real);
            assert(row(k) == 1real);
            assert(v(k) == x.at(k, j));
            assert(x.at(k, j) == fin.at(k, n + j));
            assert(row(n + j) == fin.at(k, n + j));
            let z = fin.at(k, n + j);
            assert(1real * z + z * (0real - 1real) == 0real) by (nonlinear_arith);
        }
        assert(annihilates(fin, v));
        assert(annihilates(aug, v));
        assert(apply(aug, i, v) == 0real);
        let row = row_of(aug, i);
        lemma_wsum_single(row, v, n as nat, w as nat, n + j);
        assert(row(n + j) == b.at(i, j));
        assert forall|c: int| 0 <= c < n implies #[trigger] row(c) == row_of(a, i)(c) by {}
        lemma_wsum_same(row, row_of(a, i), v, n as nat);
        assert forall|c: int| 0 <= c < n implies #[trigger] v(c) == col_of(x, j)(c) by {}
        lemma_wsum_same_vector(row_of(a, i), v, col_of(x, j), n as nat);
        lemma_wsum_dot(a, x, i, j, n as nat);
        let bij = b.at(i, j);
        assert(bij * (0real - 1real) == 0real - bij) by (nonlinear_arith);
    }
    lemma_equal(p, b);
}

/// The left block of `[a | b]` is `a`.
pub proof fn lemma_concat_left(a: Matrix, b: Matrix)
    requires
        a.complete(),
        b.complete(),
        a.rows == b.rows,
    ensures
        left_block(a.concat(b), a),
{
}

} // verus!
