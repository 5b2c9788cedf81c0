use evolutionary_algebra::common::MatrixError;
use evolutionary_algebra::dense::DenseMatrix;
use evolutionary_algebra::rational::Rational;

fn dense_of(rows: usize, cols: usize, values: &[i64]) -> DenseMatrix {
    let mut m = DenseMatrix::new(rows, cols);
    for i in 0..rows {
        for j in 0..cols {
            m.set_v(i, j, Rational::from_int(values[i * cols + j]));
        }
    }
    m
}

fn dense_is(m: &DenseMatrix, rows: usize, cols: usize, values: &[(i64, i64)]) -> bool {
    if m.row() != rows || m.col() != cols {
        return false;
    }
    for i in 0..rows {
        for j in 0..cols {
            let (n, d) = values[i * cols + j];
            match m.get_v(i, j) {
                Ok(v) => {
                    if !v.same(&Rational::new(n, d)) {
                        return false;
                    }
                }
                Err(_) => return false,
            }
        }
    }
    true
}

fn whole(values: &[i64]) -> Vec<(i64, i64)> {
    values.iter().map(|v| (*v, 1)).collect()
}

#[test]
fn dense_new_has_no_entry() {
    let m = DenseMatrix::new(2, 3);
    assert_eq!(m.row(), 2);
    assert_eq!(m.col(), 3);
    assert!(!m.is_complete());
    assert!(matches!(m.get_v(0, 0), Err(MatrixError::EntryNotFound)));
    assert!(matches!(m.get_v(1, 2), Err(MatrixError::EntryNotFound)));
}

#[test]
fn dense_get_outside_the_shape() {
    let m = dense_of(2, 2, &[1, 2, 3, 4]);
    assert!(matches!(m.get_v(2, 0), Err(MatrixError::IndexOutOfBounds)));
    assert!(matches!(m.get_v(0, 2), Err(MatrixError::IndexOutOfBounds)));
    assert!(matches!(m.get_v(7, 9), Err(MatrixError::IndexOutOfBounds)));
}

#[test]
fn dense_set_outside_the_shape_is_ignored() {
    let mut m = dense_of(2, 2, &[1, 2, 3, 4]);
    m.set_v(2, 0, Rational::from_int(9));
    m.set_v(0, 2, Rational::from_int(9));
    assert!(dense_is(&m, 2, 2, &whole(&[1, 2, 3, 4])));
}

#[test]
fn dense_set_overwrites() {
    let mut m = dense_of(2, 2, &[1, 2, 3, 4]);
    m.set_v(1, 0, Rational::new(5, 2));
    assert!(dense_is(&m, 2, 2, &[(1, 1), (2, 1), (5, 2), (4, 1)]));
}

#[test]
fn dense_zero_is_stored() {
    let mut m = DenseMatrix::new(1, 1);
    m.set_v(0, 0, Rational::zero());
    assert!(m.is_complete());
    assert!(m.get_v(0, 0).unwrap().is_zero());
}

#[test]
fn dense_transpose() {
    let m = dense_of(2, 3, &[1, 2, 3, 4, 5, 6]);
    assert!(dense_is(&m.t(), 3, 2, &whole(&[1, 4, 2, 5, 3, 6])));
}

#[test]
fn dense_slice() {
    let m = dense_of(3, 3, &[1, 2, 3, 4, 5, 6, 7, 8, 9]);
    assert!(dense_is(&m.slice(1, 2, 0, 1), 2, 2, &whole(&[4, 5, 7, 8])));
    assert!(dense_is(&m.slice(0, 0, 2, 2), 1, 1, &whole(&[3])));
    assert!(dense_is(&m.slice(0, 2, 0, 2), 3, 3, &whole(&[1, 2, 3, 4, 5, 6, 7, 8, 9])));
}

#[test]
fn dense_safe_slice() {
    let m = dense_of(3, 3, &[1, 2, 3, 4, 5, 6, 7, 8, 9]);
    assert!(dense_is(&m.safe_slice(1, 2, 1, 2).unwrap(), 2, 2, &whole(&[5, 6, 8, 9])));
    assert!(matches!(m.safe_slice(0, 3, 0, 1), Err(MatrixError::IndexOutOfBounds)));
    assert!(matches!(m.safe_slice(0, 1, 0, 3), Err(MatrixError::IndexOutOfBounds)));
    assert!(matches!(m.safe_slice(2, 1, 0, 1), Err(MatrixError::IndexOutOfBounds)));
    assert!(matches!(m.safe_slice(0, 1, 2, 1), Err(MatrixError::IndexOutOfBounds)));
    let mut partial = DenseMatrix::new(2, 2);
    partial.set_v(0, 0, Rational::one());
    assert!(matches!(partial.safe_slice(0, 0, 0, 0), Err(MatrixError::EntryNotFound)));
}

#[test]
fn dense_concat() {
    let a = dense_of(2, 2, &[1, 2, 3, 4]);
    let b = dense_of(2, 1, &[5, 6]);
    assert!(dense_is(&a.concat(&b), 2, 3, &whole(&[1, 2, 5, 3, 4, 6])));
}

#[test]
fn dense_scalar_mul() {
    let a = dense_of(2, 2, &[1, 2, 3, 4]);
    assert!(dense_is(&a.scalar_mul(Rational::new(1, 2)), 2, 2, &[(1, 2), (1, 1), (3, 2), (2, 1)]));
}

#[test]
fn dense_elementwise_mul() {
    let a = dense_of(2, 2, &[1, 2, 3, 4]);
    let b = dense_of(2, 2, &[5, 6, 7, 8]);
    assert!(dense_is(&a.mul(&b), 2, 2, &whole(&[5, 12, 21, 32])));
}

#[test]
fn dense_dot_mul() {
    let a = dense_of(2, 3, &[1, 2, 3, 4, 5, 6]);
    let b = dense_of(3, 2, &[7, 8, 9, 10, 11, 12]);
    assert!(dense_is(&a.dot_mul(&b), 2, 2, &whole(&[58, 64, 139, 154])));
}

#[test]
fn dense_safe_dot_mul() {
    let a = dense_of(2, 3, &[1, 2, 3, 4, 5, 6]);
    let b = dense_of(3, 2, &[7, 8, 9, 10, 11, 12]);
    assert!(dense_is(&a.safe_dot_mul(&b).unwrap(), 2, 2, &whole(&[58, 64, 139, 154])));
    assert!(matches!(a.safe_dot_mul(&a), Err(MatrixError::ShapeMismatch)));
    let empty = DenseMatrix::new(3, 2);
    assert!(matches!(a.safe_dot_mul(&empty), Err(MatrixError::EntryNotFound)));
}

#[test]
fn dense_neg_add_sub() {
    let a = dense_of(2, 2, &[1, -2, 3, 0]);
    let b = dense_of(2, 2, &[5, 6, 7, 8]);
    assert!(dense_is(&a.neg(), 2, 2, &whole(&[-1, 2, -3, 0])));
    assert!(dense_is(&a.add(&b), 2, 2, &whole(&[6, 4, 10, 8])));
    assert!(dense_is(&a.sub(&b), 2, 2, &whole(&[-4, -8, -4, -8])));
}

#[test]
fn dense_safe_add_and_sub() {
    let a = dense_of(2, 2, &[1, 2, 3, 4]);
    let b = dense_of(2, 2, &[5, 6, 7, 8]);
    let c = dense_of(2, 3, &[1, 2, 3, 4, 5, 6]);
    assert!(dense_is(&a.safe_add(&b).unwrap(), 2, 2, &whole(&[6, 8, 10, 12])));
    assert!(dense_is(&a.safe_sub(&b).unwrap(), 2, 2, &whole(&[-4, -4, -4, -4])));
    assert!(matches!(a.safe_add(&c), Err(MatrixError::ShapeMismatch)));
    assert!(matches!(a.safe_sub(&c), Err(MatrixError::ShapeMismatch)));
    assert!(matches!(c.safe_add(&a), Err(MatrixError::ShapeMismatch)));
    let partial = DenseMatrix::new(2, 2);
    assert!(matches!(a.safe_add(&partial), Err(MatrixError::EntryNotFound)));
    assert!(matches!(partial.safe_sub(&a), Err(MatrixError::EntryNotFound)));
}

#[test]
fn dense_ones_zeros_eye() {
    assert!(dense_is(&DenseMatrix::ones(2), 2, 2, &whole(&[1, 1, 1, 1])));
    assert!(dense_is(&DenseMatrix::zeros(2), 2, 2, &whole(&[0, 0, 0, 0])));
    assert!(dense_is(&DenseMatrix::eye(3), 3, 3, &whole(&[1, 0, 0, 0, 1, 0, 0, 0, 1])));
    assert!(DenseMatrix::zeros(0).is_complete());
    assert_eq!(DenseMatrix::eye(0).row(), 0);
}

#[test]
fn dense_bands() {
    let m = dense_of(3, 3, &[1, 2, 3, 4, 5, 6, 7, 8, 9]);
    assert!(dense_is(&m.diag(), 3, 3, &whole(&[1, 0, 0, 0, 5, 0, 0, 0, 9])));
    assert!(dense_is(&m.tri_u(), 3, 3, &whole(&[1, 2, 3, 0, 5, 6, 0, 0, 9])));
    assert!(dense_is(&m.tri_l(), 3, 3, &whole(&[1, 0, 0, 4, 5, 0, 7, 8, 9])));
}

#[test]
fn dense_trace() {
    let m = dense_of(3, 3, &[1, 2, 3, 4, 5, 6, 7, 8, 9]);
    assert!(m.trace().same(&Rational::from_int(15)));
    let wide = dense_of(2, 3, &[1, 2, 3, 4, 5, 6]);
    assert!(wide.trace().same(&Rational::from_int(6)));
    let tall = dense_of(3, 2, &[1, 2, 3, 4, 5, 6]);
    assert!(tall.trace().same(&Rational::from_int(5)));
}

#[test]
fn dense_norm2_squared() {
    let m = dense_of(2, 2, &[1, 2, 3, 4]);
    assert!(m.norm2_squared().same(&Rational::from_int(30)));
    let v = dense_of(3, 1, &[2, 3, 6]);
    assert!(v.norm2_squared().same(&Rational::from_int(49)));
}

#[test]
fn dense_cofactors() {
    let m = dense_of(3, 3, &[1, 2, 3, 4, 5, 6, 7, 8, 9]);
    assert!(dense_is(&m.cofactors(0, 0), 2, 2, &whole(&[5, 6, 8, 9])));
    assert!(dense_is(&m.cofactors(1, 1), 2, 2, &whole(&[1, 3, 7, 9])));
    assert!(dense_is(&m.cofactors(2, 0), 2, 2, &whole(&[2, 3, 5, 6])));
}

#[test]
fn dense_det_adj() {
    assert!(dense_of(1, 1, &[7]).det_adj().same(&Rational::from_int(7)));
    assert!(dense_of(2, 2, &[4, 1, 1, 3]).det_adj().same(&Rational::from_int(11)));
    assert!(dense_of(3, 3, &[2, 0, 1, 1, 3, 2, 1, 1, 1]).det_adj().same(&Rational::from_int(0)));
    assert!(dense_of(3, 3, &[2, -3, 1, 2, 0, -1, 1, 4, 5]).det_adj().same(&Rational::from_int(49)));
    assert!(dense_of(4, 4, &[1, 0, 2, -1, 3, 0, 0, 5, 2, 1, 4, -3, 1, 0, 5, 0])
        .det_adj()
        .same(&Rational::from_int(30)));
    assert!(dense_of(2, 3, &[1, 2, 3, 4, 5, 6]).det_adj().is_zero());
}

#[test]
fn dense_determinant_of_the_matrix_without_rows_is_one() {
    let empty = DenseMatrix::new(0, 0);
    assert!(empty.det_adj().same(&Rational::one()));
    assert!(empty.det_ge().same(&Rational::one()));
    assert!(empty.det_adj().same(&empty.det_ge()));
}

#[test]
fn dense_det_ge() {
    assert!(dense_of(1, 1, &[7]).det_ge().same(&Rational::from_int(7)));
    assert!(dense_of(2, 2, &[4, 1, 1, 3]).det_ge().same(&Rational::from_int(11)));
    assert!(dense_of(2, 2, &[1, 2, 2, 4]).det_ge().is_zero());
    assert!(dense_of(3, 3, &[2, -3, 1, 2, 0, -1, 1, 4, 5]).det_ge().same(&Rational::from_int(49)));
    assert!(dense_of(3, 3, &[0, 1, 0, 1, 0, 0, 0, 0, 1]).det_ge().same(&Rational::from_int(-1)));
    assert!(dense_of(2, 3, &[1, 2, 3, 4, 5, 6]).det_ge().is_zero());
}

#[test]
fn dense_adjoint() {
    let m = dense_of(2, 2, &[4, 1, 1, 3]);
    assert!(dense_is(&m.adjoint(), 2, 2, &whole(&[3, -1, -1, 4])));
    let n = dense_of(3, 3, &[1, 2, 3, 0, 1, 4, 5, 6, 0]);
    assert!(dense_is(&n.adjoint(), 3, 3, &whole(&[-24, 18, 5, 20, -15, -4, -5, 4, 1])));
}

#[test]
fn dense_inv_adj() {
    let m = dense_of(2, 2, &[4, 1, 1, 3]);
    assert!(dense_is(&m.inv_adj().unwrap(), 2, 2, &[(3, 11), (-1, 11), (-1, 11), (4, 11)]));
    let n = dense_of(3, 3, &[1, 2, 3, 0, 1, 4, 5, 6, 0]);
    assert!(dense_is(&n.inv_adj().unwrap(), 3, 3, &whole(&[-24, 18, 5, 20, -15, -4, -5, 4, 1])));
    let s = dense_of(2, 2, &[1, 2, 2, 4]);
    assert!(matches!(s.inv_adj(), Err(MatrixError::Singular)));
}

#[test]
fn dense_inv_ge() {
    let m = dense_of(2, 2, &[4, 1, 1, 3]);
    assert!(dense_is(&m.inv_ge().unwrap(), 2, 2, &[(3, 11), (-1, 11), (-1, 11), (4, 11)]));
    let n = dense_of(3, 3, &[1, 2, 3, 0, 1, 4, 5, 6, 0]);
    assert!(dense_is(&n.inv_ge().unwrap(), 3, 3, &whole(&[-24, 18, 5, 20, -15, -4, -5, 4, 1])));
    let s = dense_of(2, 2, &[1, 2, 2, 4]);
    assert!(matches!(s.inv_ge(), Err(MatrixError::Singular)));
}

#[test]
fn dense_elimination_needs_a_row_exchange() {
    let a = dense_of(2, 2, &[0, 1, 1, 0]);
    let b = dense_of(2, 1, &[3, 5]);
    let x = DenseMatrix::solve_ge(&a, &b).unwrap();
    assert!(dense_is(&x, 2, 1, &whole(&[5, 3])));
}

#[test]
fn dense_elimination_with_several_right_sides() {
    let a = dense_of(2, 2, &[2, 0, 0, 4]);
    let b = dense_of(2, 3, &[2, 4, 6, 4, 8, 12]);
    let x = DenseMatrix::solve_ge(&a, &b).unwrap();
    assert!(dense_is(&x, 2, 3, &whole(&[1, 2, 3, 1, 2, 3])));
}

#[test]
fn dense_elimination_solves_two_by_two() {
    let a = dense_of(2, 2, &[4, 1, 1, 3]);
    let b = dense_of(2, 1, &[1, 2]);
    let x = DenseMatrix::solve_ge(&a, &b).unwrap();
    assert!(dense_is(&x, 2, 1, &[(1, 11), (7, 11)]));
    let near = |v: &Rational, n: i64| v.sub(&Rational::new(n, 10000)).abs().lt(&Rational::new(1, 10000));
    assert!(near(&x.get_v(0, 0).unwrap(), 909));
    assert!(near(&x.get_v(1, 0).unwrap(), 6364));
    assert!(a.det_adj().same(&Rational::from_int(11)));
}

#[test]
fn dense_elimination_reports_singular() {
    let a = dense_of(2, 2, &[1, 2, 2, 4]);
    for b in [[1, 2], [0, 0], [5, -3], [1, 0]] {
        let b = dense_of(2, 1, &b);
        assert!(matches!(DenseMatrix::solve_ge(&a, &b), Err(MatrixError::Singular)));
    }
    let zero = dense_of(1, 1, &[0]);
    assert!(matches!(DenseMatrix::solve_ge(&zero, &dense_of(1, 1, &[1])), Err(MatrixError::Singular)));
}

#[test]
fn dense_show() {
    let mut m = dense_of(2, 2, &[1, 2, 3, 4]);
    m.set_v(0, 1, Rational::new(-1, 2));
    assert_eq!(m.show(), "1 -1/2 \n3 4 \n");
    assert_eq!(DenseMatrix::new(2, 2).show(), "");
    assert_eq!(DenseMatrix::new(0, 0).show(), "");
}

#[test]
fn dense_from_a_list() {
    let values: Vec<Rational> = [1, 2, 3, 4, 5, 6].iter().map(|v| Rational::from_int(*v)).collect();
    let m = DenseMatrix::from(2, 3, &values);
    assert!(dense_is(&m, 2, 3, &whole(&[1, 2, 3, 4, 5, 6])));
    let n = DenseMatrix::from(2, 2, &values);
    assert!(dense_is(&n, 2, 2, &whole(&[1, 2, 3, 4])));
}

#[test]
fn dense_inverse_of_a_single_entry() {
    // The cofactor of the only entry is the determinant of the matrix
    // without rows, which is one.
    let m = dense_of(1, 1, &[2]);
    assert!(dense_is(&m.adjoint(), 1, 1, &whole(&[1])));
    assert!(dense_is(&m.inv_adj().unwrap(), 1, 1, &[(1, 2)]));
    assert!(dense_is(&m.inv_ge().unwrap(), 1, 1, &[(1, 2)]));
    let n = dense_of(1, 1, &[-3]);
    assert!(dense_is(&n.inv_adj().unwrap(), 1, 1, &[(-1, 3)]));
    assert!(dense_is(&n.inv_ge().unwrap(), 1, 1, &[(-1, 3)]));
    let zero = dense_of(1, 1, &[0]);
    assert!(matches!(zero.inv_adj(), Err(MatrixError::Singular)));
    assert!(matches!(zero.inv_ge(), Err(MatrixError::Singular)));
}

#[test]
fn dense_inverse_of_the_matrix_without_rows() {
    let empty = DenseMatrix::new(0, 0);
    let by_adjoint = empty.inv_adj().unwrap();
    let by_elimination = empty.inv_ge().unwrap();
    assert_eq!((by_adjoint.row(), by_adjoint.col()), (0, 0));
    assert_eq!((by_elimination.row(), by_elimination.col()), (0, 0));
}

#[test]
fn dense_elimination_without_rows_or_right_sides() {
    let x = DenseMatrix::solve_ge(&DenseMatrix::new(0, 0), &DenseMatrix::new(0, 3)).unwrap();
    assert_eq!((x.row(), x.col()), (0, 3));
    let a = dense_of(2, 2, &[4, 1, 1, 3]);
    let y = DenseMatrix::solve_ge(&a, &DenseMatrix::new(2, 0)).unwrap();
    assert_eq!((y.row(), y.col()), (2, 0));
    assert!(y.is_complete());
    let s = dense_of(2, 2, &[1, 2, 2, 4]);
    assert!(matches!(DenseMatrix::solve_ge(&s, &DenseMatrix::new(2, 0)), Err(MatrixError::Singular)));
}

#[test]
fn dense_shapes_without_entries() {
    let empty = DenseMatrix::new(0, 3);
    assert!(empty.is_complete());
    assert_eq!(empty.t().row(), 3);
    assert_eq!(empty.t().col(), 0);
    assert!(empty.trace().is_zero());
    assert!(empty.norm2_squared().is_zero());
    let wide = dense_of(2, 2, &[1, 2, 3, 4]).concat(&DenseMatrix::new(2, 0));
    assert!(dense_is(&wide, 2, 2, &whole(&[1, 2, 3, 4])));
    let product = DenseMatrix::new(2, 0).dot_mul(&DenseMatrix::new(0, 2));
    assert!(dense_is(&product, 2, 2, &whole(&[0, 0, 0, 0])));
}
