use kalman_rs::inverse::{try_inverse, InverseError};
use kalman_rs::matrix::Matrix;
use kalman_rs::rational::Rational;

fn whole(n: i32) -> Rational {
    Rational::from_int(n)
}

fn ratio(n: i64, d: i64) -> Rational {
    Rational::new(n, d).unwrap()
}

fn matrix<const R: usize, const C: usize>(rows: [[i32; C]; R]) -> Matrix<R, C> {
    Matrix::from_rows(rows.iter().map(|r| r.iter().map(|x| whole(*x)).collect()).collect()).unwrap()
}

#[test]
fn from_rows_checks_the_shape() {
    let two_by_two = vec![vec![whole(1), whole(2)], vec![whole(3), whole(4)]];
    assert!(Matrix::<2, 2>::from_rows(two_by_two.clone()).is_some());
    assert!(Matrix::<2, 3>::from_rows(two_by_two.clone()).is_none());
    assert!(Matrix::<3, 2>::from_rows(two_by_two.clone()).is_none());
    let ragged = vec![vec![whole(1), whole(2)], vec![whole(3)]];
    assert!(Matrix::<2, 2>::from_rows(ragged).is_none());
    assert!(Matrix::<0, 2>::from_rows(vec![]).is_none());
}

#[test]
fn entries_are_read_by_row_and_column() {
    let m = matrix([[1, 2, 3], [4, 5, 6]]);
    assert_eq!(m.get(0, 2), whole(3));
    assert_eq!(m.get(1, 0), whole(4));
    let changed = m.with_entry(1, 2, whole(-6));
    assert!(changed.eq_value(&matrix([[1, 2, 3], [4, 5, -6]])));
    assert!(m.eq_value(&matrix([[1, 2, 3], [4, 5, 6]])));
    assert!(m.duplicate().eq_value(&m));
    assert!(!changed.eq_value(&m));
}

#[test]
fn product_is_rows_times_columns() {
    let a = matrix([[1, 2, 3], [4, 5, 6]]);
    let b = matrix([[7, 8], [9, 10], [11, 12]]);
    assert!(a.mul(&b).unwrap().eq_value(&matrix([[58, 64], [139, 154]])));
    assert!(b.mul(&a).unwrap().eq_value(&matrix([[39, 54, 69], [49, 68, 87], [59, 82, 105]])));
}

#[test]
fn identity_changes_nothing() {
    let a = matrix([[1, 2, 3], [4, 5, 6]]);
    assert!(Matrix::<2, 2>::identity().mul(&a).unwrap().eq_value(&a));
    assert!(a.mul(&Matrix::<3, 3>::identity()).unwrap().eq_value(&a));
}

#[test]
fn sum_difference_and_transpose() {
    let a = matrix([[1, 2], [3, 4]]);
    let b = matrix([[10, 20], [30, 40]]);
    assert!(a.add(&b).unwrap().eq_value(&matrix([[11, 22], [33, 44]])));
    assert!(a.sub(&b).unwrap().eq_value(&matrix([[-9, -18], [-27, -36]])));
    assert!(matrix([[1, 2, 3], [4, 5, 6]]).transpose().eq_value(&matrix([[1, 4], [2, 5], [3, 6]])));
    assert!(matrix([[1, 2, 3], [4, 5, 6]]).top_rows::<1>().eq_value(&matrix([[1, 2, 3]])));
    assert!(Matrix::<2, 3>::filled(whole(7)).eq_value(&matrix([[7, 7, 7], [7, 7, 7]])));
}

#[test]
fn sums_and_products_that_do_not_fit_give_nothing() {
    let big: Matrix<2, 2> = Matrix::filled(ratio(i64::MAX, 1));
    let one: Matrix<2, 2> = Matrix::filled(whole(1));
    assert!(big.add(&one).is_none());
    assert!(big.mul(&one).is_none());
    assert!(big.sub(&big).unwrap().eq_value(&Matrix::filled(whole(0))));
    // a partial sum that does not fit stops the product, though the whole sum would
    let row: Matrix<1, 2> = Matrix::from_rows(vec![vec![ratio(i64::MAX, 1), ratio(i64::MAX, 1)]]).unwrap();
    let up_down: Matrix<2, 1> = matrix([[1], [-1]]);
    assert!(row.mul(&up_down).unwrap().eq_value(&matrix([[0]])));
    let up_up_down: Matrix<3, 1> = matrix([[1], [1], [-1]]);
    let long_row: Matrix<1, 3> =
        Matrix::from_rows(vec![vec![ratio(i64::MAX, 1), whole(1), whole(1)]]).unwrap();
    assert!(long_row.mul(&up_up_down).is_none());
}

#[test]
fn inverse_of_two_by_two() {
    let m = matrix([[2, 1], [5, 3]]);
    let x = try_inverse(&m).unwrap();
    assert!(x.eq_value(&matrix([[3, -1], [-5, 2]])));
    assert!(x.mul(&m).unwrap().eq_value(&Matrix::identity()));
    assert!(m.mul(&x).unwrap().eq_value(&Matrix::identity()));
}

#[test]
fn inverse_with_fractions() {
    let m = matrix([[2, 0], [0, 4]]);
    let x = try_inverse(&m).unwrap();
    assert_eq!(x.get(0, 0), ratio(1, 2));
    assert_eq!(x.get(1, 1), ratio(1, 4));
    assert_eq!(x.get(0, 1), whole(0));
}

#[test]
fn inverse_needs_a_row_exchange() {
    let m = matrix([[0, 1, 0], [0, 0, 1], [1, 0, 0]]);
    let x = try_inverse(&m).unwrap();
    assert!(x.eq_value(&matrix([[0, 0, 1], [1, 0, 0], [0, 1, 0]])));
    let n = matrix([[0, 2], [3, 1]]);
    let y = try_inverse(&n).unwrap();
    assert!(y.mul(&n).unwrap().eq_value(&Matrix::identity()));
    assert_eq!(y.get(0, 0), ratio(-1, 6));
}

#[test]
fn inverse_of_four_by_four() {
    let m = matrix([[1, 5, 7, 2], [3, 5, 7, 4], [8, 4, 1, 9], [2, 6, 4, 8]]);
    let x = try_inverse(&m).unwrap();
    assert!(x.mul(&m).unwrap().eq_value(&Matrix::identity()));
    assert!(m.mul(&x).unwrap().eq_value(&Matrix::identity()));
}

#[test]
fn singular_matrices_are_told() {
    assert_eq!(try_inverse(&matrix([[1, 2], [2, 4]])).err(), Some(InverseError::Singular));
    assert_eq!(try_inverse(&matrix([[0, 0], [0, 0]])).err(), Some(InverseError::Singular));
    assert_eq!(
        try_inverse(&matrix([[1, 2, 3], [4, 5, 6], [7, 8, 9]])).err(),
        Some(InverseError::Singular)
    );
    assert_eq!(try_inverse(&matrix([[0]])).err(), Some(InverseError::Singular));
}

#[test]
fn inverse_that_does_not_fit_is_unresolved() {
    let m: Matrix<2, 2> = Matrix::from_rows(vec![
        vec![ratio(i64::MAX, 1), whole(1)],
        vec![whole(1), ratio(1, i64::MAX)],
    ])
    .unwrap();
    // the determinant is zero here, but the elimination leaves the stored numbers first
    let r = try_inverse(&m);
    assert!(r.is_err());
    let n: Matrix<2, 2> = Matrix::from_rows(vec![
        vec![ratio(1, i64::MAX), whole(0)],
        vec![whole(1), ratio(1, i64::MAX)],
    ])
    .unwrap();
    assert_eq!(try_inverse(&n).err(), Some(InverseError::Unresolved));
}
