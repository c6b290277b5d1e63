use alumine::alg::{Matrix, Vector};

#[test]
fn test_i3() {
    let i3 = Matrix::scalar(3, 1);
    assert_eq!(i3.n, 3);
    assert_eq!(i3.m, 3);
    assert_eq!(i3[(0, 0)], 1);
    assert_eq!(i3[(1, 1)], 1);
    assert_eq!(i3[(2, 2)], 1);
}

#[test]
fn test_add() {
    let i3 = Matrix::scalar(3, 1);
    let double = i3.add(&i3);
    assert_eq!(double, Matrix::scalar(3, 2));
}

#[test]
fn test_transpose() {
    let v = Vector::new(4, |i| 1 + i);

    assert_eq!(Matrix::from_row(&v), Matrix::from_col(&v).transpose());

    let m = Matrix::new(4, 3, |x, y| x + 4 * y);
    let n = Matrix::new(3, 4, |x, y| y + 4 * x);

    assert!(m != n);
    assert_eq!(m.transpose().transpose(), m);
    assert_eq!(m.transpose(), n);
    assert_eq!(n.transpose(), m);
}

#[test]
fn test_transpose_commutation() {
    let a = Matrix::new(5, 3, |x, y| (x + 5 * y) as i64);
    let b = Matrix::new(4, 5, |x, y| (x + y + 2 * (x + y) % 2) as i64);

    assert_eq!(a.mul(&b).transpose(), b.transpose().mul(&a.transpose()));
}

#[test]
fn test_from_row() {
    let v = Vector::new(4, |i| 1 + i);
    let m = Matrix::new(4, 1, |x, _| 1 + x);

    assert_eq!(Matrix::from_row(&v), m);
    assert_eq!(m.to_vector(), v);
}

#[test]
fn test_sub() {
    let a = Matrix::new(4, 3, |x, y| (x + y) as i64);
    assert_eq!(a.sub(&a), Matrix::zero(4, 3));
}

#[test]
fn test_cols() {
    let a = Matrix::new(4, 4, |x, y| x + y);
    let b = Matrix::new(4, 4, |x, y| 8 - (x + y));

    let mut c = a.clone();
    c.append_cols(b.clone());
    c.keep_cols(4..8);
    assert_eq!(b, c);

    let mut d = b.clone();
    d.append_cols(a.clone());
    d.keep_cols(4..8);
    assert_eq!(a, d);
}

#[test]
fn test_determinant() {
    let i5 = Matrix::<i64>::identity(5);
    assert_eq!(i5.determinant(), 1);
}

#[test]
fn test_inverse() {
    let a = Matrix::new(2, 2, |x, y| (x + y) as i64);
    let b = a.inverse().unwrap();

    assert_eq!(a.mul(&b), Matrix::identity(2));
}

#[test]
fn test_mul() {
    let m = Matrix::new(4, 4, |x, y| (x + y) as i64);
    let v = Vector::new(4, |i| (i + 1) as i64);

    assert_eq!(Matrix::from_col(&m.mul_vector(&v)), m.mul(&Matrix::from_col(&v)));
}
