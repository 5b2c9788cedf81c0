use evolutionary_algebra::common::MatrixError;
use evolutionary_algebra::rational::Rational;
use evolutionary_algebra::sparse::SparseMatrix;

fn sparse_of(rows: usize, cols: usize, values: &[i64]) -> SparseMatrix {
    let mut m = SparseMatrix::new(rows, cols);
    for i in 0..rows {
        for j in 0..cols {
            m.set_v(i, j, Rational::from_int(values[i * cols + j]));
        }
    }
    m
}

fn sparse_is(m: &SparseMatrix, rows: usize, cols: usize, values: &[(i64, i64)]) -> bool {
    if m.row() != rows || m.col() != cols {
        return false;
    }
    for i in 0..rows {
        for j in 0..cols {
            let (n, d) = values[i * cols + j];
            match m.get_v(i, j) {
                Ok(v) => {
                    if !v.same(&Rational::new(n, d)) {
                        return false;
                    }
                }
                Err(_) => return false,
            }
        }
    }
    true
}

fn ints(values: &[i64]) -> Vec<(i64, i64)> {
    values.iter().map(|v| (*v, 1)).collect()
}

fn residual(a: &SparseMatrix, x: &SparseMatrix, b: &SparseMatrix) -> Rational {
    a.dot_mul(x).sub(b).norm2_squared()
}

#[test]
fn sparse_new_reads_zero_everywhere() {
    let m = SparseMatrix::new(2, 3);
    assert_eq!(m.row(), 2);
    assert_eq!(m.col(), 3);
    assert_eq!(m.entry_count(), 0);
    for i in 0..2 {
        for j in 0..3 {
            assert!(m.get_v(i, j).unwrap().is_zero());
        }
    }
}

#[test]
fn sparse_never_set_entry_reads_zero() {
    let mut m = SparseMatrix::new(3, 3);
    m.set_v(1, 1, Rational::from_int(5));
    assert!(m.get_v(0, 0).unwrap().is_zero());
    assert!(m.get_v(2, 1).unwrap().is_zero());
    assert!(m.get_v(1, 1).unwrap().same(&Rational::from_int(5)));
    assert_eq!(m.entry_count(), 1);
}

#[test]
fn sparse_get_outside_the_shape() {
    let m = sparse_of(2, 2, &[1, 2, 3, 4]);
    assert!(matches!(m.get_v(2, 0), Err(MatrixError::IndexOutOfBounds)));
    assert!(matches!(m.get_v(0, 2), Err(MatrixError::IndexOutOfBounds)));
}

#[test]
fn sparse_set_outside_the_shape_is_ignored() {
    let mut m = sparse_of(2, 2, &[1, 2, 3, 4]);
    m.set_v(2, 0, Rational::from_int(9));
    m.set_v(0, 2, Rational::from_int(9));
    assert!(sparse_is(&m, 2, 2, &ints(&[1, 2, 3, 4])));
    assert_eq!(m.entry_count(), 4);
}

#[test]
fn sparse_does_not_store_zero() {
    let mut m = SparseMatrix::new(2, 2);
    m.set_v(0, 0, Rational::zero());
    assert_eq!(m.entry_count(), 0);
    m.set_v(0, 0, Rational::from_int(3));
    m.set_v(1, 1, Rational::new(0, 5));
    assert_eq!(m.entry_count(), 1);
    assert!(m.get_v(0, 0).unwrap().same(&Rational::from_int(3)));
}

#[test]
fn sparse_setting_zero_removes_the_entry() {
    let mut m = sparse_of(2, 2, &[1, 2, 3, 4]);
    assert_eq!(m.entry_count(), 4);
    m.set_v(0, 1, Rational::zero());
    assert_eq!(m.entry_count(), 3);
    assert!(m.get_v(0, 1).unwrap().is_zero());
    assert!(sparse_is(&m, 2, 2, &ints(&[1, 0, 3, 4])));
}

#[test]
fn sparse_results_hold_no_zero() {
    let a = sparse_of(2, 2, &[1, 2, 3, 4]);
    let b = sparse_of(2, 2, &[-1, 2, 0, -4]);
    assert_eq!(a.add(&b).entry_count(), 2);
    assert_eq!(a.sub(&a).entry_count(), 0);
    assert_eq!(SparseMatrix::eye(4).entry_count(), 4);
    assert_eq!(SparseMatrix::zeros(4).entry_count(), 0);
    assert_eq!(SparseMatrix::ones(3).entry_count(), 9);
    assert_eq!(a.diag().entry_count(), 2);
    assert_eq!(a.scalar_mul(Rational::zero()).entry_count(), 0);
}

#[test]
fn sparse_transpose_swaps_the_shape() {
    let m = sparse_of(2, 3, &[1, 2, 3, 4, 5, 6]);
    assert!(sparse_is(&m.t(), 3, 2, &ints(&[1, 4, 2, 5, 3, 6])));
}

#[test]
fn sparse_slice_and_concat() {
    let m = sparse_of(3, 3, &[1, 2, 3, 4, 5, 6, 7, 8, 9]);
    assert!(sparse_is(&m.slice(1, 2, 0, 1), 2, 2, &ints(&[4, 5, 7, 8])));
    let a = sparse_of(2, 2, &[1, 2, 3, 4]);
    let b = sparse_of(2, 1, &[5, 6]);
    assert!(sparse_is(&a.concat(&b), 2, 3, &ints(&[1, 2, 5, 3, 4, 6])));
}

#[test]
fn sparse_products() {
    let a = sparse_of(2, 3, &[1, 2, 3, 4, 5, 6]);
    let b = sparse_of(3, 2, &[7, 8, 9, 10, 11, 12]);
    assert!(sparse_is(&a.dot_mul(&b), 2, 2, &ints(&[58, 64, 139, 154])));
    let c = sparse_of(2, 2, &[1, 2, 3, 4]);
    let d = sparse_of(2, 2, &[5, 6, 7, 8]);
    assert!(sparse_is(&c.mul(&d), 2, 2, &ints(&[5, 12, 21, 32])));
    assert!(sparse_is(&c.scalar_mul(Rational::new(1, 2)), 2, 2, &[(1, 2), (1, 1), (3, 2), (2, 1)]));
}

#[test]
fn sparse_neg_add_sub() {
    let a = sparse_of(2, 2, &[1, -2, 3, 0]);
    let b = sparse_of(2, 2, &[5, 6, 7, 8]);
    assert!(sparse_is(&a.neg(), 2, 2, &ints(&[-1, 2, -3, 0])));
    assert!(sparse_is(&a.add(&b), 2, 2, &ints(&[6, 4, 10, 8])));
    assert!(sparse_is(&a.sub(&b), 2, 2, &ints(&[-4, -8, -4, -8])));
}

#[test]
fn sparse_ones_zeros_eye() {
    assert!(sparse_is(&SparseMatrix::ones(2), 2, 2, &ints(&[1, 1, 1, 1])));
    assert!(sparse_is(&SparseMatrix::zeros(2), 2, 2, &ints(&[0, 0, 0, 0])));
    assert!(sparse_is(&SparseMatrix::eye(3), 3, 3, &ints(&[1, 0, 0, 0, 1, 0, 0, 0, 1])));
}

#[test]
fn sparse_bands() {
    let m = sparse_of(3, 3, &[1, 2, 3, 4, 5, 6, 7, 8, 9]);
    assert!(sparse_is(&m.diag(), 3, 3, &ints(&[1, 0, 0, 0, 5, 0, 0, 0, 9])));
    assert!(sparse_is(&m.tri_u(), 3, 3, &ints(&[1, 2, 3, 0, 5, 6, 0, 0, 9])));
    assert!(sparse_is(&m.tri_l(), 3, 3, &ints(&[1, 0, 0, 4, 5, 0, 7, 8, 9])));
    assert!(sparse_is(&m.tri_strict_u(), 3, 3, &ints(&[0, 2, 3, 0, 0, 6, 0, 0, 0])));
    assert!(sparse_is(&m.tri_strict_l(), 3, 3, &ints(&[0, 0, 0, 4, 0, 0, 7, 8, 0])));
}

#[test]
fn sparse_trace_and_norm() {
    let m = sparse_of(3, 3, &[1, 2, 3, 4, 5, 6, 7, 8, 9]);
    assert!(m.trace().same(&Rational::from_int(15)));
    assert!(sparse_of(2, 2, &[1, 2, 3, 4]).norm2_squared().same(&Rational::from_int(30)));
}

#[test]
fn sparse_cofactor_engine() {
    let m = sparse_of(3, 3, &[1, 2, 3, 0, 1, 4, 5, 6, 0]);
    assert!(sparse_is(&m.cofactors(1, 1), 2, 2, &ints(&[1, 3, 5, 0])));
    assert!(m.det_adj().same(&Rational::one()));
    assert!(sparse_is(&m.adjoint(), 3, 3, &ints(&[-24, 18, 5, 20, -15, -4, -5, 4, 1])));
    assert!(sparse_is(&m.inv_adj().unwrap(), 3, 3, &ints(&[-24, 18, 5, 20, -15, -4, -5, 4, 1])));
    assert!(matches!(sparse_of(2, 2, &[1, 2, 2, 4]).inv_adj(), Err(MatrixError::Singular)));
    assert!(sparse_of(2, 2, &[4, 1, 1, 3]).det_adj().same(&Rational::from_int(11)));
}

#[test]
fn sparse_det_ge() {
    assert!(sparse_of(2, 2, &[4, 1, 1, 3]).det_ge().same(&Rational::from_int(11)));
    assert!(sparse_of(2, 2, &[1, 2, 2, 4]).det_ge().is_zero());
    assert!(sparse_of(3, 3, &[2, -3, 1, 2, 0, -1, 1, 4, 5]).det_ge().same(&Rational::from_int(49)));
    assert!(sparse_of(3, 3, &[0, 1, 0, 1, 0, 0, 0, 0, 1]).det_ge().same(&Rational::from_int(-1)));
    assert!(sparse_of(3, 3, &[0, 0, 1, 1, 0, 0, 0, 1, 0]).det_ge().same(&Rational::from_int(1)));
}

#[test]
fn sparse_determinant_of_the_matrix_without_rows_is_one() {
    let empty = SparseMatrix::new(0, 0);
    assert!(empty.det_adj().same(&Rational::one()));
    assert!(empty.det_ge().same(&Rational::one()));
}

#[test]
fn sparse_inverse_of_a_single_entry() {
    let m = sparse_of(1, 1, &[2]);
    assert!(sparse_is(&m.adjoint(), 1, 1, &ints(&[1])));
    assert!(sparse_is(&m.inv_adj().unwrap(), 1, 1, &[(1, 2)]));
    assert!(sparse_is(&m.inv_ge().unwrap(), 1, 1, &[(1, 2)]));
    assert!(matches!(SparseMatrix::new(1, 1).inv_adj(), Err(MatrixError::Singular)));
    assert!(matches!(SparseMatrix::new(1, 1).inv_ge(), Err(MatrixError::Singular)));
}

#[test]
fn sparse_elimination_without_rows_or_right_sides() {
    let x = SparseMatrix::solve_ge(&SparseMatrix::new(0, 0), &SparseMatrix::new(0, 3)).unwrap();
    assert_eq!((x.row(), x.col()), (0, 3));
    let a = sparse_of(2, 2, &[4, 1, 1, 3]);
    let y = SparseMatrix::solve_ge(&a, &SparseMatrix::new(2, 0)).unwrap();
    assert_eq!((y.row(), y.col()), (2, 0));
    let empty = SparseMatrix::new(0, 0).inv_ge().unwrap();
    assert_eq!((empty.row(), empty.col()), (0, 0));
}

#[test]
fn sparse_sor_returns_zero_where_no_step_can_be_made() {
    // The normal matrix of the zero matrix is zero, so `D - w E` has no
    // inverse.
    let a = SparseMatrix::new(1, 1);
    let b = sparse_of(1, 1, &[1]);
    let x = SparseMatrix::solve_sor(&a, &b, Rational::one(), 1);
    assert!(sparse_is(&x, 1, 1, &ints(&[0])));
    // A column of zeros in a larger matrix does the same.
    let c = sparse_of(2, 2, &[1, 0, 2, 0]);
    let d = sparse_of(2, 3, &[1, 2, 3, 4, 5, 6]);
    let y = SparseMatrix::solve_sor(&c, &d, Rational::new(3, 2), 7);
    assert!(sparse_is(&y, 2, 3, &ints(&[0, 0, 0, 0, 0, 0])));
}

#[test]
fn sparse_sor_without_unknowns() {
    let x = SparseMatrix::solve_sor(&SparseMatrix::new(2, 0), &sparse_of(2, 1, &[1, 2]), Rational::one(), 3);
    assert_eq!((x.row(), x.col()), (0, 1));
}

#[test]
fn sparse_cg_on_a_right_side_without_columns() {
    let a = sparse_of(2, 2, &[4, 1, 1, 3]);
    let x = SparseMatrix::solve_cg(&a, &SparseMatrix::new(2, 0), 5);
    assert_eq!((x.row(), x.col()), (2, 0));
    let y = SparseMatrix::solve_cg(&sparse_of(3, 2, &[1, 0, 0, 1, 1, 1]), &SparseMatrix::new(3, 0), 0);
    assert_eq!((y.row(), y.col()), (2, 0));
}

#[test]
fn sparse_elimination_solves_two_by_two() {
    let a = sparse_of(2, 2, &[4, 1, 1, 3]);
    let b = sparse_of(2, 1, &[1, 2]);
    let x = SparseMatrix::solve_ge(&a, &b).unwrap();
    assert!(sparse_is(&x, 2, 1, &[(1, 11), (7, 11)]));
}

#[test]
fn sparse_elimination_reports_singular() {
    let a = sparse_of(2, 2, &[1, 2, 2, 4]);
    for b in [[1, 2], [0, 0], [5, -3]] {
        let b = sparse_of(2, 1, &b);
        assert!(matches!(SparseMatrix::solve_ge(&a, &b), Err(MatrixError::Singular)));
    }
}

#[test]
fn sparse_inv_ge() {
    let n = sparse_of(3, 3, &[1, 2, 3, 0, 1, 4, 5, 6, 0]);
    assert!(sparse_is(&n.inv_ge().unwrap(), 3, 3, &ints(&[-24, 18, 5, 20, -15, -4, -5, 4, 1])));
    assert!(matches!(sparse_of(2, 2, &[1, 2, 2, 4]).inv_ge(), Err(MatrixError::Singular)));
}

#[test]
fn sparse_show() {
    let mut m = SparseMatrix::new(2, 2);
    m.set_v(0, 0, Rational::new(3, 4));
    m.set_v(1, 1, Rational::from_int(-2));
    assert_eq!(m.show(), "3/4 0 \n0 -2 \n");
}

#[test]
fn sparse_sor_without_a_step_is_zero() {
    let a = sparse_of(2, 2, &[4, 1, 1, 3]);
    let b = sparse_of(2, 1, &[1, 2]);
    let x = SparseMatrix::solve_sor(&a, &b, Rational::one(), 0);
    assert!(sparse_is(&x, 2, 1, &ints(&[0, 0])));
}

#[test]
fn sparse_sor_first_step() {
    // One step from zero is the offset (D - wE)^-1 (w A^T b). Here A is
    // diagonal, so A^T A = diag(4, 9), E = F = 0, and the step gives
    // w * A^T b / D = (1/2) * (2*2, 3*3) / (4, 9) = (1/2, 1/2).
    let a = sparse_of(2, 2, &[2, 0, 0, 3]);
    let b = sparse_of(2, 1, &[2, 3]);
    let x = SparseMatrix::solve_sor(&a, &b, Rational::new(1, 2), 1);
    assert!(sparse_is(&x, 2, 1, &[(1, 2), (1, 2)]));
    let y = SparseMatrix::solve_sor(&a, &b, Rational::new(1, 2), 2);
    assert!(sparse_is(&y, 2, 1, &[(3, 4), (3, 4)]));
}

#[test]
fn sparse_sor_converges_on_a_dominant_system() {
    let a = sparse_of(3, 3, &[4, 1, 0, 1, 4, 1, 0, 1, 4]);
    let truth = sparse_of(3, 1, &[1, 2, 3]);
    let b = a.dot_mul(&truth);
    let w = Rational::new(19, 20);
    let r1 = residual(&a, &SparseMatrix::solve_sor(&a, &b, w.clone(), 1), &b);
    let r3 = residual(&a, &SparseMatrix::solve_sor(&a, &b, w.clone(), 3), &b);
    let r6 = residual(&a, &SparseMatrix::solve_sor(&a, &b, w.clone(), 6), &b);
    let r12 = residual(&a, &SparseMatrix::solve_sor(&a, &b, w.clone(), 12), &b);
    assert!(r3.lt(&r1));
    assert!(r6.lt(&r3));
    assert!(r12.lt(&r6));
    assert!(r12.lt(&Rational::new(1, 1000)));
}

#[test]
fn sparse_cg_without_a_step_is_zero() {
    let a = sparse_of(2, 2, &[4, 1, 1, 3]);
    let b = sparse_of(2, 1, &[1, 2]);
    let x = SparseMatrix::solve_cg(&a, &b, 0);
    assert!(sparse_is(&x, 2, 1, &ints(&[0, 0])));
}

#[test]
fn sparse_cg_is_exact_after_as_many_steps_as_unknowns() {
    let a = sparse_of(3, 3, &[4, 1, 0, 1, 4, 1, 0, 1, 4]);
    let truth = sparse_of(3, 1, &[1, 2, 3]);
    let b = a.dot_mul(&truth);
    let x = SparseMatrix::solve_cg(&a, &b, 3);
    assert!(sparse_is(&x, 3, 1, &ints(&[1, 2, 3])));
    let more = SparseMatrix::solve_cg(&a, &b, 50);
    assert!(sparse_is(&more, 3, 1, &ints(&[1, 2, 3])));
}

#[test]
fn sparse_cg_residual_decreases() {
    let a = sparse_of(3, 3, &[4, 1, 0, 1, 4, 1, 0, 1, 4]);
    let b = sparse_of(3, 1, &[1, 0, 2]);
    let r0 = residual(&a, &SparseMatrix::solve_cg(&a, &b, 0), &b);
    let r1 = residual(&a, &SparseMatrix::solve_cg(&a, &b, 1), &b);
    let r2 = residual(&a, &SparseMatrix::solve_cg(&a, &b, 2), &b);
    let r3 = residual(&a, &SparseMatrix::solve_cg(&a, &b, 3), &b);
    assert!(r1.lt(&r0));
    assert!(r2.lt(&r1));
    assert!(r3.lt(&r2));
    assert!(r3.is_zero());
}

#[test]
fn sparse_cg_on_a_zero_right_side() {
    let a = sparse_of(2, 2, &[4, 1, 1, 3]);
    let b = sparse_of(2, 1, &[0, 0]);
    let x = SparseMatrix::solve_cg(&a, &b, 5);
    assert!(sparse_is(&x, 2, 1, &ints(&[0, 0])));
}

#[test]
fn sparse_cg_on_a_tall_system() {
    // Least squares: the columns of A are orthogonal, so the solution of
    // the normal equations is A^T b divided by the squared column lengths.
    let a = sparse_of(3, 2, &[1, 0, 0, 1, 1, 0]);
    let b = sparse_of(3, 1, &[1, 5, 3]);
    let x = SparseMatrix::solve_cg(&a, &b, 2);
    assert!(sparse_is(&x, 2, 1, &ints(&[2, 5])));
}
