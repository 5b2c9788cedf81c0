//! Elimination with partial pivoting, on either kind of storage.

use crate::common::MatOps;
use crate::det::below_zero;
use crate::det::lemma_det_triangular;
use crate::det::lemma_det_zero_pivot;
use crate::det_rows::lemma_det_reduce;
use crate::det_swap::lemma_det_swap;
use crate::fill::read;
use crate::fill::signed_one;
use crate::kernel::reduce_row;
use crate::kernel::same_kernel;
use crate::kernel::scale_row;
use crate::kernel::swap_rows;
use crate::model::Matrix;
use crate::model::diag_product;
use crate::model::lemma_equal;
use crate::model::sign;
use crate::rational::Rational;
use crate::rational::abs_real;
use crate::reals::lemma_quotient;
use crate::reals::lemma_two_signs;
use crate::rowops::lemma_kernel_chain;
use crate::rowops::lemma_kernel_same;
use crate::rowops::lemma_reduce_keeps_kernel;
use crate::rowops::lemma_scale_keeps_kernel;
use crate::rowops::lemma_swap_keeps_kernel;
use vstd::prelude::*;

verus! {

/// The first `r` columns are reduced: one on the diagonal, zero below it.
pub open spec fn echelon(m: Matrix, r: int) -> bool {
    &&& forall|i: int, c: int| 0 <= c < r && c < i < m.rows ==> #[trigger] m.at(i, c) == 0real
    &&& forall|i: int| 0 <= i < r && i < m.rows ==> #[trigger] m.at(i, i) == 1real
}

/// Columns `r..n` are zero above the diagonal.
pub open spec fn cleared(m: Matrix, r: int, n: int) -> bool {
    forall|i: int, c: int| r <= c < n && 0 <= i < c ==> #[trigger] m.at(i, c) == 0real
}

/// The entry at `(i, j)` of `m`, which is complete, becomes `v`.
pub fn put<M: MatOps<Rational>>(m: &mut M, i: usize, j: usize, v: Rational)
    requires
        old(m).model().complete(),
        old(m).model().in_bounds(i as int, j as int),
    ensures
        final(m).model().complete(),
        final(m).model().rows == old(m).model().rows,
        final(m).model().cols == old(m).model().cols,
        forall|x: int, y: int|
            old(m).model().in_bounds(x, y) ==> #[trigger] final(m).model().at(x, y) == if x == i
                && y == j {
                v@
            } else {
                old(m).model().at(x, y)
            },
{
    let ghost before = m.model();
    m.set_v(i, j, v);
    proof {
        assert forall|x: int, y: int| #[trigger]
            m.model().has(x, y) <==> m.model().in_bounds(x, y) by {
            assert(before.has(x, y) <==> before.in_bounds(x, y));
        }
    }
}

/// Exchanges rows `row_i` and `row_j`.
pub fn permute_rows<M: MatOps<Rational>>(m: &mut M, row_i: usize, row_j: usize)
    requires
        old(m).model().complete(),
        row_i < old(m).model().rows,
        row_j < old(m).model().rows,
    ensures
        final(m).model() == swap_rows(old(m).model(), row_i as int, row_j as int),
{
    let cols = m.col();
    let ghost before = m.model();
    let ghost want = swap_rows(before, row_i as int, row_j as int);
    let mut col: usize = 0;
    while col < cols
        invariant
            col <= cols,
            cols == before.cols,
            before.complete(),
            m.model().complete(),
            m.model().rows == before.rows,
            m.model().cols == before.cols,
            row_i < before.rows,
            row_j < before.rows,
            want == swap_rows(before, row_i as int, row_j as int),
            forall|x: int, y: int|
                before.in_bounds(x, y) ==> #[trigger] m.model().at(x, y) == if y < col {
                    want.at(x, y)
                } else {
                    before.at(x, y)
                },
        decreases cols - col,
    {
        let ghost start = m.model();
        assert(start.has(row_i as int, col as int) <==> start.in_bounds(row_i as int, col as int));
        assert(start.has(row_j as int, col as int) <==> start.in_bounds(row_j as int, col as int));
        let tmp = read(m, row_i, col);
        let other = read(m, row_j, col);
        put(m, row_i, col, other);
        let ghost middle = m.model();
        put(m, row_j, col, tmp);
        proof {
            assert forall|x: int, y: int| before.in_bounds(x, y) implies #[trigger] m.model().at(
                x,
                y,
            ) == if y < col + 1 {
                want.at(x, y)
            } else {
                before.at(x, y)
            } by {
                assert(middle.at(x, y) == if x == row_i && y == col {
                    other@
                } else {
                    start.at(x, y)
                });
                assert(start.at(x, y) == if y < col {
                    want.at(x, y)
                } else {
                    before.at(x, y)
                });
                assert(start.at(row_i as int, col as int) == before.at(row_i as int, col as int));
                assert(start.at(row_j as int, col as int) == before.at(row_j as int, col as int));
            }
        }
        col = col + 1;
    }
    proof {
        lemma_equal(m.model(), want);
    }
}

/// Brings the entry of largest absolute value among rows `site..` of column
/// `site` to row `site`, and returns the row it came from.
pub fn pivoting<M: MatOps<Rational>>(m: &mut M, site: usize) -> (index: usize)
    requires
        old(m).model().complete(),
        site < old(m).model().rows,
        site < old(m).model().cols,
    ensures
        site <= index < old(m).model().rows,
        final(m).model() == swap_rows(old(m).model(), index as int, site as int),
        forall|i: int|
            site <= i < old(m).model().rows ==> abs_real(#[trigger] final(m).model().at(i, site as int))
                <= abs_real(final(m).model().at(site as int, site as int)),
        forall|i: int|
            site <= i < old(m).model().rows ==> abs_real(
                #[trigger] old(m).model().at(i, site as int),
            ) <= abs_real(old(m).model().at(index as int, site as int)),
        forall|i: int|
            site <= i < index ==> abs_real(#[trigger] old(m).model().at(i, site as int)) < abs_real(
                old(m).model().at(index as int, site as int),
            ),
{
    let rows = m.row();
    let ghost before = m.model();
    assert(before.has(site as int, site as int) <==> before.in_bounds(site as int, site as int));
    let mut tmp = read(m, site, site).abs();
    let mut index = site;
    let mut row: usize = site + 1;
    while row < rows
        invariant
            site < row <= rows,
            rows == before.rows,
            site < before.cols,
            m.model() == before,
            before.complete(),
            site <= index < row,
            tmp@ == abs_real(before.at(index as int, site as int)),
            forall|i: int|
                site <= i < row ==> abs_real(#[trigger] before.at(i, site as int)) <= tmp@,
            forall|i: int|
                site <= i < index ==> abs_real(#[trigger] before.at(i, site as int)) < tmp@,
        decreases rows - row,
    {
        assert(before.has(row as int, site as int) <==> before.in_bounds(row as int, site as int));
        let candidate = read(m, row, site).abs();
        if candidate.gt(&tmp) {
            tmp = candidate;
            index = row;
        }
        row = row + 1;
    }
    if index != site {
        permute_rows(m, index, site);
    } else {
        proof {
            lemma_equal(before, swap_rows(before, site as int, site as int));
        }
    }
    proof {
        let after = m.model();
        assert forall|i: int| site <= i < before.rows implies abs_real(
            #[trigger] after.at(i, site as int),
        ) <= abs_real(after.at(site as int, site as int)) by {
            let src = if i == index {
                site as int
            } else if i == site {
                index as int
            } else {
                i
            };
            assert(after.at(i, site as int) == before.at(src, site as int));
            assert(abs_real(before.at(src, site as int)) <= tmp@);
            assert(after.at(site as int, site as int) == before.at(index as int, site as int));
        }
    }
    index
}

/// Divides row `r` by `head`, from column `from` on.
pub fn divide_row<M: MatOps<Rational>>(m: &mut M, r: usize, head: &Rational, from: usize)
    requires
        old(m).model().complete(),
        r < old(m).model().rows,
        head@ != 0real,
    ensures
        final(m).model().complete(),
        final(m).model().rows == old(m).model().rows,
        final(m).model().cols == old(m).model().cols,
        forall|x: int, y: int|
            old(m).model().in_bounds(x, y) ==> #[trigger] final(m).model().at(x, y) == if x == r
                && y >= from {
                old(m).model().at(x, y) / head@
            } else {
                old(m).model().at(x, y)
            },
{
    let cols = m.col();
    let ghost before = m.model();
    let mut c: usize = from;
    while c < cols
        invariant
            cols == before.cols,
            before.complete(),
            m.model().complete(),
            m.model().rows == before.rows,
            m.model().cols == before.cols,
            r < before.rows,
            head@ != 0real,
            from <= c,
            forall|x: int, y: int|
                before.in_bounds(x, y) ==> #[trigger] m.model().at(x, y) == if x == r && from <= y
                    < c {
                    before.at(x, y) / head@
                } else {
                    before.at(x, y)
                },
        decreases cols - c,
    {
        let ghost start = m.model();
        assert(start.has(r as int, c as int) <==> start.in_bounds(r as int, c as int));
        let v = read(m, r, c).div(head);
        put(m, r, c, v);
        proof {
            assert forall|x: int, y: int| before.in_bounds(x, y) implies #[trigger] m.model().at(
                x,
                y,
            ) == if x == r && from <= y < c + 1 {
                before.at(x, y) / head@
            } else {
                before.at(x, y)
            } by {
                assert(start.at(x, y) == if x == r && from <= y < c {
                    before.at(x, y) / head@
                } else {
                    before.at(x, y)
                });
                assert(start.at(r as int, c as int) == before.at(r as int, c as int));
            }
        }
        c = c + 1;
    }
}

/// Subtracts `k` times row `source` from row `target`, from column `from`
/// on.
pub fn subtract_row<M: MatOps<Rational>>(
    m: &mut M,
    target: usize,
    source: usize,
    k: &Rational,
    from: usize,
)
    requires
        old(m).model().complete(),
        target < old(m).model().rows,
        source < old(m).model().rows,
        target != source,
    ensures
        final(m).model().complete(),
        final(m).model().rows == old(m).model().rows,
        final(m).model().cols == old(m).model().cols,
        forall|x: int, y: int|
            old(m).model().in_bounds(x, y) ==> #[trigger] final(m).model().at(x, y) == if x
                == target && y >= from {
                old(m).model().at(x, y) - k@ * old(m).model().at(source as int, y)
            } else {
                old(m).model().at(x, y)
            },
{
    let cols = m.col();
    let ghost before = m.model();
    let mut c: usize = from;
    while c < cols
        invariant
            cols == before.cols,
            before.complete(),
            m.model().complete(),
            m.model().rows == before.rows,
            m.model().cols == before.cols,
            target < before.rows,
            source < before.rows,
            target != source,
            from <= c,
            forall|x: int, y: int|
                before.in_bounds(x, y) ==> #[trigger] m.model().at(x, y) == if x == target && from
                    <= y < c {
                    before.at(x, y) - k@ * before.at(source as int, y)
                } else {
                    before.at(x, y)
                },
        decreases cols - c,
    {
        let ghost start = m.model();
        assert(start.has(target as int, c as int) <==> start.in_bounds(target as int, c as int));
        assert(start.has(source as int, c as int) <==> start.in_bounds(source as int, c as int));
        let v = read(m, target, c).sub(&k.mul(&read(m, source, c)));
        put(m, target, c, v);
        proof {
            assert forall|x: int, y: int| before.in_bounds(x, y) implies #[trigger] m.model().at(
                x,
                y,
            ) == if x == target && from <= y < c + 1 {
                before.at(x, y) - k@ * before.at(source as int, y)
            } else {
                before.at(x, y)
            } by {
                assert(start.at(x, y) == if x == target && from <= y < c {
                    before.at(x, y) - k@ * before.at(source as int, y)
                } else {
                    before.at(x, y)
                });
                assert(start.at(target as int, c as int) == before.at(target as int, c as int));
                assert(start.at(source as int, c as int) == before.at(source as int, c as int));
            }
        }
        c = c + 1;
    }
}

/// Subtracting from column `from` on is subtracting the whole row, when the
/// source row is zero before that column.
pub proof fn lemma_subtract_is_reduce(
    before: Matrix,
    after: Matrix,
    target: int,
    source: int,
    k: real,
    from: int,
)
    requires
        before.complete(),
        after.complete(),
        after.same_shape(before),
        0 <= target < before.rows,
        0 <= source < before.rows,
        forall|y: int| 0 <= y < from && y < before.cols ==> #[trigger] before.at(source, y) == 0real,
        forall|x: int, y: int|
            before.in_bounds(x, y) ==> #[trigger] after.at(x, y) == if x == target && y >= from {
                before.at(x, y) - k * before.at(source, y)
            } else {
                before.at(x, y)
            },
    ensures
        after == reduce_row(before, target, source, k),
{
    let want = reduce_row(before, target, source, k);
    assert forall|x: int, y: int| after.in_bounds(x, y) implies #[trigger] after.at(x, y)
        == want.at(x, y) by {
        if x == target && y < from {
            let z = before.at(source, y);
            assert(z == 0real);
            assert(k * z == 0real) by (nonlinear_arith)
                requires
                    z == 0real,
            ;
        }
    }
    lemma_equal(after, want);
}

/// Dividing from column `from` on is dividing the whole row, when the row
/// is zero before that column.
pub proof fn lemma_divide_is_scale(before: Matrix, after: Matrix, r: int, h: real, from: int)
    requires
        before.complete(),
        after.complete(),
        after.same_shape(before),
        0 <= r < before.rows,
        h != 0real,
        forall|y: int| 0 <= y < from && y < before.cols ==> #[trigger] before.at(r, y) == 0real,
        forall|x: int, y: int|
            before.in_bounds(x, y) ==> #[trigger] after.at(x, y) == if x == r && y >= from {
                before.at(x, y) / h
            } else {
                before.at(x, y)
            },
    ensures
        after == scale_row(before, r, h),
{
    let want = scale_row(before, r, h);
    assert(0real / h == 0real) by (nonlinear_arith)
        requires
            h != 0real,
    ;
    assert forall|x: int, y: int| after.in_bounds(x, y) implies #[trigger] after.at(x, y)
        == want.at(x, y) by {
        if x == r && y < from {
            assert(before.at(r, y) == 0real);
        }
    }
    lemma_equal(after, want);
}

/// Reduces the columns one by one: the largest entry at or below the
/// diagonal is brought to the diagonal and made one, and the entries below
/// it are made zero. Stops and returns `false` at the first column that has
/// only zeros at and below the diagonal.
pub(crate) fn forward<M: MatOps<Rational>>(m: &mut M) -> (ok: bool)
    requires
        old(m).model().complete(),
        old(m).model().rows <= old(m).model().cols,
    ensures
        final(m).model().complete(),
        final(m).model().same_shape(old(m).model()),
        same_kernel(old(m).model(), final(m).model()),
        ok ==> echelon(final(m).model(), final(m).model().rows as int),
        !ok ==> exists|r: int|
            0 <= r < final(m).model().rows && #[trigger] echelon(final(m).model(), r) && forall|
                i: int,
            |
                r <= i < final(m).model().rows ==> #[trigger] final(m).model().at(i, r) == 0real,
{
    let n = m.row();
    let ghost orig = m.model();
    proof {
        lemma_kernel_same(orig);
    }
    let mut r: usize = 0;
    while r < n
        invariant
            r <= n,
            n == orig.rows,
            orig == old(m).model(),
            orig.rows <= orig.cols,
            m.model().complete(),
            m.model().same_shape(orig),
            same_kernel(orig, m.model()),
            echelon(m.model(), r as int),
        decreases n - r,
    {
        let ghost cur0 = m.model();
        let index = pivoting(m, r);
        let ghost cur1 = m.model();
        proof {
            lemma_swap_keeps_kernel(cur0, index as int, r as int);
            lemma_kernel_chain(orig, cur0, cur1);
            assert(echelon(cur1, r as int)) by {
                assert forall|i: int, c: int| 0 <= c < r && c < i < cur1.rows implies #[trigger]
                    cur1.at(i, c) == 0real by {
                    let src = if i == index {
                        r as int
                    } else if i == r {
                        index as int
                    } else {
                        i
                    };
                    assert(cur0.at(src, c) == 0real);
                }
                assert forall|i: int| 0 <= i < r && i < cur1.rows implies #[trigger] cur1.at(i, i)
                    == 1real by {
                    assert(cur0.at(i, i) == 1real);
                }
            }
        }
        assert(cur1.has(r as int, r as int) <==> cur1.in_bounds(r as int, r as int));
        let head = read(m, r, r);
        if head.is_zero() {
            proof {
                assert forall|i: int| r <= i < cur1.rows implies #[trigger] cur1.at(i, r as int)
                    == 0real by {
                    assert(abs_real(cur1.at(i, r as int)) <= abs_real(cur1.at(r as int, r as int)));
                }
            }
            return false;
        }
        divide_row(m, r, &head, r);
        let ghost cur2 = m.model();
        proof {
            assert forall|y: int| 0 <= y < r && y < cur1.cols implies #[trigger] cur1.at(
                r as int,
                y,
            ) == 0real by {}
            lemma_divide_is_scale(cur1, cur2, r as int, head@, r as int);
            lemma_scale_keeps_kernel(cur1, r as int, head@);
            lemma_kernel_chain(orig, cur1, cur2);
            assert(cur2.at(r as int, r as int) == 1real) by {
                let h = head@;
                assert(cur2.at(r as int, r as int) == cur1.at(r as int, r as int) / h);
                assert(h / h == 1real) by (nonlinear_arith)
                    requires
                        h != 0real,
                ;
            }
            assert(echelon(cur2, r as int)) by {
                assert forall|i: int, c: int| 0 <= c < r && c < i < cur2.rows implies #[trigger]
                    cur2.at(i, c) == 0real by {
                    assert(cur1.at(i, c) == 0real);
                }
                assert forall|i: int| 0 <= i < r && i < cur2.rows implies #[trigger] cur2.at(i, i)
                    == 1real by {
                    assert(cur1.at(i, i) == 1real);
                }
            }
        }
        let mut nr: usize = r + 1;
        while nr < n
            invariant
                r < nr <= n,
                n == orig.rows,
                orig.rows <= orig.cols,
                m.model().complete(),
                m.model().same_shape(orig),
                same_kernel(orig, m.model()),
                echelon(m.model(), r as int),
                m.model().at(r as int, r as int) == 1real,
                forall|i: int| r < i < nr ==> #[trigger] m.model().at(i, r as int) == 0real,
            decreases n - nr,
        {
            let ghost before = m.model();
            assert(before.has(nr as int, r as int) <==> before.in_bounds(nr as int, r as int));
            let row_head = read(m, nr, r);
            subtract_row(m, nr, r, &row_head, r);
            let ghost after = m.model();
            proof {
                assert forall|y: int| 0 <= y < r && y < before.cols implies #[trigger] before.at(
                    r as int,
                    y,
                ) == 0real by {}
                lemma_subtract_is_reduce(before, after, nr as int, r as int, row_head@, r as int);
                lemma_reduce_keeps_kernel(before, nr as int, r as int, row_head@);
                lemma_kernel_chain(orig, before, after);
                assert(echelon(after, r as int)) by {
                    assert forall|i: int, c: int| 0 <= c < r && c < i < after.rows implies #[trigger]
                        after.at(i, c) == 0real by {
                        assert(before.at(i, c) == 0real);
                    }
                    assert forall|i: int| 0 <= i < r && i < after.rows implies #[trigger] after.at(
                        i,
                        i,
                    ) == 1real by {
                        assert(before.at(i, i) == 1real);
                    }
                }
                assert(after.at(r as int, r as int) == 1real) by {
                    assert(before.at(r as int, r as int) == 1real);
                }
                assert forall|i: int| r < i < nr + 1 implies #[trigger] after.at(i, r as int)
                    == 0real by {
                    if i == nr {
                        let k = row_head@;
                        assert(after.at(nr as int, r as int) == before.at(nr as int, r as int) - k
                            * before.at(r as int, r as int));
                        assert(k - k * 1real == 0real) by (nonlinear_arith);
                    } else {
                        assert(before.at(i, r as int) == 0real);
                    }
                }
            }
            nr = nr + 1;
        }
        proof {
            let now = m.model();
            assert(echelon(now, r + 1)) by {
                assert forall|i: int, c: int| 0 <= c < r + 1 && c < i < now.rows implies #[trigger]
                    now.at(i, c) == 0real by {}
                assert forall|i: int| 0 <= i < r + 1 && i < now.rows implies #[trigger] now.at(i, i)
                    == 1real by {}
            }
        }
        r = r + 1;
    }
    true
}

/// Clears what lies above the diagonal, column by column from the last to
/// the first.
pub(crate) fn backward<M: MatOps<Rational>>(m: &mut M)
    requires
        old(m).model().complete(),
        old(m).model().rows <= old(m).model().cols,
        echelon(old(m).model(), old(m).model().rows as int),
    ensures
        final(m).model().complete(),
        final(m).model().same_shape(old(m).model()),
        same_kernel(old(m).model(), final(m).model()),
        echelon(final(m).model(), final(m).model().rows as int),
        cleared(final(m).model(), 0, final(m).model().rows as int),
{
    let n = m.row();
    let ghost orig = m.model();
    proof {
        lemma_kernel_same(orig);
    }
    let mut r: usize = n;
    while r > 0
        invariant
            r <= n,
            n == orig.rows,
            orig.rows <= orig.cols,
            m.model().complete(),
            m.model().same_shape(orig),
            same_kernel(orig, m.model()),
            echelon(m.model(), n as int),
            cleared(m.model(), r as int, n as int),
        decreases r,
    {
        r = r - 1;
        let mut nr: usize = r;
        while nr > 0
            invariant
                nr <= r < n,
                n == orig.rows,
                orig.rows <= orig.cols,
                m.model().complete(),
                m.model().same_shape(orig),
                same_kernel(orig, m.model()),
                echelon(m.model(), n as int),
                cleared(m.model(), r + 1, n as int),
                forall|i: int| nr <= i < r ==> #[trigger] m.model().at(i, r as int) == 0real,
            decreases nr,
        {
            nr = nr - 1;
            let ghost before = m.model();
            assert(before.has(nr as int, r as int) <==> before.in_bounds(nr as int, r as int));
            let row_head = read(m, nr, r);
            subtract_row(m, nr, r, &row_head, r);
            let ghost after = m.model();
            proof {
                let k = row_head@;
                assert forall|y: int| 0 <= y < r && y < before.cols implies #[trigger] before.at(
                    r as int,
                    y,
                ) == 0real by {}
                lemma_subtract_is_reduce(before, after, nr as int, r as int, k, r as int);
                lemma_reduce_keeps_kernel(before, nr as int, r as int, k);
                lemma_kernel_chain(orig, before, after);
                assert forall|y: int| r < y < n implies #[trigger] after.at(nr as int, y)
                    == before.at(nr as int, y) by {
                    let z = before.at(r as int, y);
                    assert(z == 0real);
                    assert(k * z == 0real) by (nonlinear_arith)
                        requires
                            z == 0real,
                    ;
                }
                assert(echelon(after, n as int)) by {
                    assert forall|i: int, c: int| 0 <= c < n && c < i < after.rows implies #[trigger]
                        after.at(i, c) == 0real by {
                        assert(before.at(i, c) == 0real);
                    }
                    assert forall|i: int| 0 <= i < n && i < after.rows implies #[trigger] after.at(
                        i,
                        i,
                    ) == 1real by {
                        assert(before.at(i, i) == 1real);
                    }
                }
                assert(cleared(after, r + 1, n as int)) by {
                    assert forall|i: int, c: int| r + 1 <= c < n && 0 <= i < c implies #[trigger]
                        after.at(i, c) == 0real by {
                        assert(before.at(i, c) == 0real);
                        if i == nr {
                            assert(after.at(nr as int, c) == before.at(nr as int, c));
                        }
                    }
                }
                assert forall|i: int| nr <= i < r implies #[trigger] after.at(i, r as int)
                    == 0real by {
                    if i == nr {
                        assert(before.at(r as int, r as int) == 1real);
                        assert(k - k * 1real == 0real) by (nonlinear_arith);
                    } else {
                        assert(before.at(i, r as int) == 0real);
                    }
                }
            }
        }
        proof {
            let now = m.model();
            assert(cleared(now, r as int, n as int)) by {
                assert forall|i: int, c: int| r <= c < n && 0 <= i < c implies #[trigger] now.at(
                    i,
                    c,
                ) == 0real by {}
            }
        }
    }
}

/// The determinant by elimination with partial pivoting: the product of
/// the pivots, negated once for every exchange of rows, and zero as soon as
/// a column has no pivot. The matrix is left in reduced form.
pub fn det_reduce<M: MatOps<Rational>>(m: &mut M) -> (d: Rational)
    requires
        old(m).model().complete(),
        old(m).model().square(),
        old(m).model().rows >= 1,
    ensures
        d@ == old(m).model().det(),
{
    let n = m.row();
    let ghost orig = m.model();
    let mut count: usize = 0;
    let mut r: usize = 0;
    proof {
        let d = orig.det();
        assert(1real * d == d) by (nonlinear_arith);
    }
    while r < n
        invariant
            r <= n,
            count <= r,
            n == orig.rows,
            orig == old(m).model(),
            orig.square(),
            orig.rows >= 1,
            m.model().complete(),
            m.model().same_shape(orig),
            below_zero(m.model(), r as int),
            orig.det() == sign(count as int) * m.model().det(),
        decreases n - r,
    {
        let ghost cur0 = m.model();
        let index = pivoting(m, r);
        let ghost cur1 = m.model();
        let ghost before_count = count;
        if index != r {
            count = count + 1;
        }
        proof {
            let s = sign(before_count as int);
            let d0 = cur0.det();
            if index != r {
                lemma_det_swap(cur0, r as int, index as int);
                lemma_two_signs(s, d0);
                assert(sign(count as int) == 0real - s);
            } else {
                lemma_equal(cur0, swap_rows(cur0, r as int, r as int));
            }
            assert(orig.det() == sign(count as int) * cur1.det());
            assert(below_zero(cur1, r as int)) by {
                assert forall|i: int, c: int| 0 <= c < r && c < i < cur1.rows implies #[trigger]
                    cur1.at(i, c) == 0real by {
                    let src = if i == index {
                        r as int
                    } else if i == r {
                        index as int
                    } else {
                        i
                    };
                    assert(cur0.at(src, c) == 0real);
                }
            }
        }
        assert(cur1.has(r as int, r as int) <==> cur1.in_bounds(r as int, r as int));
        let head = read(m, r, r);
        if head.is_zero() {
            proof {
                assert forall|i: int| r <= i < cur1.rows implies #[trigger] cur1.at(i, r as int)
                    == 0real by {
                    assert(abs_real(cur1.at(i, r as int)) <= abs_real(cur1.at(r as int, r as int)));
                }
                lemma_det_zero_pivot(cur1, r as int);
                let s = sign(count as int);
                assert(s * 0real == 0real) by (nonlinear_arith);
            }
            return Rational::zero();
        }
        let mut nr: usize = r + 1;
        while nr < n
            invariant
                r < nr <= n,
                n == orig.rows,
                orig.square(),
                m.model().complete(),
                m.model().same_shape(orig),
                below_zero(m.model(), r as int),
                m.model().at(r as int, r as int) == head@,
                head@ != 0real,
                forall|i: int| r < i < nr ==> #[trigger] m.model().at(i, r as int) == 0real,
                orig.det() == sign(count as int) * m.model().det(),
            decreases n - nr,
        {
            let ghost before = m.model();
            assert(before.has(nr as int, r as int) <==> before.in_bounds(nr as int, r as int));
            let row_head = read(m, nr, r).div(&head);
            subtract_row(m, nr, r, &row_head, r);
            let ghost after = m.model();
            proof {
                let k = row_head@;
                assert forall|y: int| 0 <= y < r && y < before.cols implies #[trigger] before.at(
                    r as int,
                    y,
                ) == 0real by {}
                lemma_subtract_is_reduce(before, after, nr as int, r as int, k, r as int);
                lemma_det_reduce(before, nr as int, r as int, k);
                assert(below_zero(after, r as int)) by {
                    assert forall|i: int, c: int| 0 <= c < r && c < i < after.rows implies #[trigger]
                        after.at(i, c) == 0real by {
                        assert(before.at(i, c) == 0real);
                    }
                }
                assert(after.at(r as int, r as int) == before.at(r as int, r as int));
                assert forall|i: int| r < i < nr + 1 implies #[trigger] after.at(i, r as int)
                    == 0real by {
                    if i == nr {
                        lemma_quotient(before.at(nr as int, r as int), head@);
                        assert(after.at(nr as int, r as int) == before.at(nr as int, r as int) - k
                            * before.at(r as int, r as int));
                    } else {
                        assert(before.at(i, r as int) == 0real);
                    }
                }
            }
            nr = nr + 1;
        }
        proof {
            let now = m.model();
            assert(below_zero(now, r + 1)) by {
                assert forall|i: int, c: int| 0 <= c < r + 1 && c < i < now.rows implies #[trigger]
                    now.at(i, c) == 0real by {}
            }
        }
        r = r + 1;
    }
    let ghost fin = m.model();
    proof {
        lemma_det_triangular(fin);
    }
    let mut product = Rational::one();
    let mut i: usize = 0;
    while i < n
        invariant
            i <= n,
            n == fin.rows,
            fin.square(),
            fin.complete(),
            m.model() == fin,
            product@ == diag_product(fin, i as nat),
        decreases n - i,
    {
        assert(fin.has(i as int, i as int) <==> fin.in_bounds(i as int, i as int));
        product = product.mul(&read(m, i, i));
        i = i + 1;
    }
    signed_one(count, 0).mul(&product)
}

} // verus!
