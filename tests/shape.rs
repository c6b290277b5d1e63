use alumine::alg::{Matrix, Vector};

#[test]
fn rows_and_columns() {
    let a = Matrix::new(3, 2, |x, y| 10 * x + y);
    assert_eq!(a.row(1).data(), &[1, 11, 21]);
    assert_eq!(a.col(2).data(), &[20, 21]);
    assert!(!a.is_squared());
    let cols = [Vector::from_slice(&[0usize, 1]), Vector::from_slice(&[10, 11]), Vector::from_slice(&[20, 21])];
    assert_eq!(Matrix::from_cols(&cols), a);
    let rows = [a.row(0), a.row(1)];
    assert_eq!(Matrix::from_rows(&rows), a);
    assert_eq!(Matrix::<usize>::from_cols(&[]), Matrix::dummy());
}

#[test]
fn swaps_and_writes() {
    let mut a = Matrix::new(3, 2, |x, y| 10 * x + y);
    a.swap_rows(0, 1);
    assert_eq!(a.row(0).data(), &[1, 11, 21]);
    a.swap_cols(0, 2);
    assert_eq!(a.row(0).data(), &[21, 11, 1]);
    a.swap((0, 0), (1, 1));
    assert_eq!(a.get(0, 0), 10);
    assert_eq!(a.get(1, 1), 21);
    a.set(2, 1, 99);
    assert_eq!(a.get(2, 1), 99);
    a.set_col(1, Vector::from_slice(&[7]));
    assert_eq!(a.col(1).data(), &[7, 21]);
    a.set_row(1, Vector::from_slice(&[5, 6, 8]));
    assert_eq!(a.row(1).data(), &[5, 6, 8]);
}

#[test]
fn builders_and_norm() {
    let d = Matrix::diagonal(Vector::from_slice(&[2i64, 3]));
    assert_eq!(d.get(0, 0), 2);
    assert_eq!(d.get(1, 0), 0);
    assert_eq!(d.get(1, 1), 3);
    assert_eq!(d.norm(), 13);
    let z = Matrix::<i64>::zero(2, 3);
    assert_eq!(z.width(), 2);
    assert_eq!(z.height(), 3);
    let a = Matrix::new(2, 2, |x, y| (x + 2 * y) as i64);
    assert_eq!(a.add(&a), a.mul_scalar(2));
    assert_eq!(a.mul_scalar(5).div_scalar(-2).get(1, 1), -7);
    let r = Matrix::from_row(&Vector::from_slice(&[1usize, 2, 3]));
    assert_eq!(r.to_vector().data(), &[1, 2, 3]);
}

#[test]
fn swapping_a_line_with_itself_changes_nothing() {
    let a = Matrix::new(3, 3, |x, y| 3 * x + y);
    let mut b = a.clone();
    b.swap_rows(1, 1);
    b.swap_cols(2, 2);
    b.swap((0, 1), (0, 1));
    assert_eq!(a, b);
}

#[test]
fn keeping_no_columns_leaves_an_empty_width() {
    let mut a = Matrix::new(3, 2, |x, y| x + y);
    a.keep_cols(1..1);
    assert_eq!(a.width(), 0);
    assert_eq!(a.height(), 2);
    let mut b = Matrix::new(3, 2, |x, y| 10 * x + y);
    b.keep_cols(1..3);
    assert_eq!(b, Matrix::new(2, 2, |x, y| 10 * (x + 1) + y));
}
