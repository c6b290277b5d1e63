use alumine::matrix::Matrix;

#[test]
fn matrix_test_i3() {
    let i3 = Matrix::diagonal(3, 1);
    assert_eq!(i3.n, 3);
    assert_eq!(i3.m, 3);
    assert_eq!(i3[(0, 0)], 1);
    assert_eq!(i3[(1, 1)], 1);
    assert_eq!(i3[(2, 2)], 1);
}

#[test]
fn matrix_test_add() {
    let i3 = Matrix::diagonal(3, 1);
    let double = i3.add(&i3);
    assert_eq!(double, Matrix::diagonal(3, 2));
}

#[test]
fn row_major_product_and_scaling() {
    let a = Matrix::new(2, 2, |x, y| (1 + x + 2 * y) as i64);
    let i2 = Matrix::diagonal(2, 1);
    assert_eq!(a.mul(&i2), a);
    let p = a.mul(&a);
    assert_eq!(p.get(0, 0), 7);
    assert_eq!(p.get(1, 0), 10);
    assert_eq!(p.get(0, 1), 15);
    assert_eq!(p.get(1, 1), 22);
    assert_eq!(a.mul_scalar(3).get(1, 1), 12);
    assert_eq!(a.mul_scalar(-3).div_scalar(2).get(1, 1), -6);
    assert_eq!(a.sub(&a), Matrix::diagonal(2, 0));
}
