//! The three row operations of elimination keep the kernel.

use crate::kernel::annihilates;
use crate::kernel::apply;
use crate::kernel::lemma_wsum_divide;
use crate::kernel::lemma_wsum_reduce;
use crate::kernel::lemma_wsum_same;
use crate::kernel::reduce_row;
use crate::kernel::row_of;
use crate::kernel::same_kernel;
use crate::kernel::scale_row;
use crate::kernel::swap_rows;
use crate::model::Matrix;
use crate::reals::lemma_mul_zero;
use crate::reals::lemma_zero_factor;
use vstd::prelude::*;

verus! {

/// Exchanging two rows keeps the kernel.
pub proof fn lemma_swap_keeps_kernel(m: Matrix, a: int, b: int)
    requires
        0 <= a < m.rows,
        0 <= b < m.rows,
    ensures
        same_kernel(m, swap_rows(m, a, b)),
{
    let s = swap_rows(m, a, b);
    assert forall|v: spec_fn(int) -> real| #[trigger] annihilates(m, v) <==> annihilates(s, v) by {
        assert forall|i: int| 0 <= i < m.rows implies apply(s, i, v) == apply(
            m,
            if i == a {
                b
            } else if i == b {
                a
            } else {
                i
            },
            v,
        ) by {
            let src = if i == a {
                b
            } else if i == b {
                a
            } else {
                i
            };
            lemma_wsum_same(row_of(s, i), row_of(m, src), v, m.cols);
        }
        if annihilates(m, v) {
            assert forall|i: int| 0 <= i < s.rows implies #[trigger] apply(s, i, v) == 0real by {
                let src = if i == a {
                    b
                } else if i == b {
                    a
                } else {
                    i
                };
                assert(apply(m, src, v) == 0real);
            }
        }
        if annihilates(s, v) {
            assert forall|i: int| 0 <= i < m.rows implies #[trigger] apply(m, i, v) == 0real by {
                let dst = if i == a {
                    b
                } else if i == b {
                    a
                } else {
                    i
                };
                assert(apply(s, dst, v) == 0real);
            }
        }
    }
}

/// Dividing a row by a number other than zero keeps the kernel.
pub proof fn lemma_scale_keeps_kernel(m: Matrix, a: int, h: real)
    requires
        0 <= a < m.rows,
        h != 0real,
    ensures
        same_kernel(m, scale_row(m, a, h)),
{
    let s = scale_row(m, a, h);
    assert forall|v: spec_fn(int) -> real| #[trigger] annihilates(m, v) <==> annihilates(s, v) by {
        lemma_wsum_divide(row_of(m, a), row_of(s, a), h, v, m.cols);
        let p = apply(s, a, v);
        let q = apply(m, a, v);
        assert(p * h == q);
        lemma_zero_factor(p, h, q);
        assert forall|i: int| 0 <= i < m.rows && i != a implies apply(s, i, v) == apply(m, i, v) by {
            lemma_wsum_same(row_of(s, i), row_of(m, i), v, m.cols);
        }
        if annihilates(m, v) {
            assert forall|i: int| 0 <= i < s.rows implies #[trigger] apply(s, i, v) == 0real by {
                assert(apply(m, i, v) == 0real);
            }
        }
        if annihilates(s, v) {
            assert forall|i: int| 0 <= i < m.rows implies #[trigger] apply(m, i, v) == 0real by {
                assert(apply(s, i, v) == 0real);
            }
        }
    }
}

/// Subtracting a multiple of another row keeps the kernel.
pub proof fn lemma_reduce_keeps_kernel(m: Matrix, a: int, b: int, k: real)
    requires
        0 <= a < m.rows,
        0 <= b < m.rows,
        a != b,
    ensures
        same_kernel(m, reduce_row(m, a, b, k)),
{
    let s = reduce_row(m, a, b, k);
    assert forall|v: spec_fn(int) -> real| #[trigger] annihilates(m, v) <==> annihilates(s, v) by {
        lemma_wsum_reduce(row_of(m, a), row_of(m, b), row_of(s, a), k, v, m.cols);
        assert(apply(s, a, v) == apply(m, a, v) - k * apply(m, b, v));
        lemma_mul_zero(k);
        assert forall|i: int| 0 <= i < m.rows && i != a implies apply(s, i, v) == apply(m, i, v) by {
            lemma_wsum_same(row_of(s, i), row_of(m, i), v, m.cols);
        }
        if annihilates(m, v) {
            assert forall|i: int| 0 <= i < s.rows implies #[trigger] apply(s, i, v) == 0real by {
                assert(apply(m, i, v) == 0real);
                assert(apply(m, b, v) == 0real);
                assert(apply(m, a, v) == 0real);
            }
        }
        if annihilates(s, v) {
            assert forall|i: int| 0 <= i < m.rows implies #[trigger] apply(m, i, v) == 0real by {
                assert(apply(s, i, v) == 0real);
                assert(apply(s, b, v) == 0real);
                assert(apply(s, a, v) == 0real);
            }
        }
    }
}

/// A matrix has the kernel it has.
pub proof fn lemma_kernel_same(a: Matrix)
    ensures
        same_kernel(a, a),
{
}

/// Keeping the kernel carries over from step to step.
pub proof fn lemma_kernel_chain(a: Matrix, b: Matrix, c: Matrix)
    requires
        same_kernel(a, b),
        same_kernel(b, c),
    ensures
        same_kernel(a, c),
{
    assert forall|v: spec_fn(int) -> real| #[trigger] annihilates(a, v) <==> annihilates(c, v) by {
        assert(annihilates(a, v) <==> annihilates(b, v));
        assert(annihilates(b, v) <==> annihilates(c, v));
    }
}

} // verus!
