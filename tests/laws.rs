use alumine::alg::{Matrix, Vector};

#[test]
fn identity_determinant_is_one() {
    for n in 0..6 {
        assert_eq!(Matrix::<i64>::identity(n).determinant(), 1);
    }
}

#[test]
fn determinant_has_no_signs() {
    let a = Matrix::new(2, 2, |x, y| (1 + x + 2 * y) as i64);
    // products over the two permutations: 1 * 4 + 2 * 3
    assert_eq!(a.determinant(), 10);
    assert_eq!(Matrix::<i64>::zero(3, 2).determinant(), 0);
    let b = Matrix::new(3, 3, |x, y| (1 + x + 3 * y) as i64);
    // 1*5*9 + 1*8*6 + 4*2*9 + 4*8*3 + 7*2*6 + 7*5*3
    assert_eq!(b.determinant(), 45 + 48 + 72 + 96 + 84 + 105);
}

#[test]
fn transpose_twice_is_identity_map() {
    let a = Matrix::new(3, 5, |x, y| (x * 7 + y) as i64 - 9);
    assert_eq!(a.transpose().transpose(), a);
    assert_eq!(a.transpose().width(), 5);
    assert_eq!(a.transpose().get(4, 2), a.get(2, 4));
}

#[test]
fn transpose_of_product_reverses_order() {
    let a = Matrix::new(2, 3, |x, y| x as i64 - 2 * y as i64);
    let b = Matrix::new(4, 2, |x, y| (x * y) as i64 + 1);
    assert_eq!(a.mul(&b).transpose(), b.transpose().mul(&a.transpose()));
}

#[test]
fn products_through_matrix_and_vector_agree() {
    let m = Matrix::new(4, 4, |x, y| (x + y) as i64);
    let v = Vector::new(4, |i| (i + 1) as i64);
    let p = m.mul_vector(&v);
    assert_eq!(p.data(), &[20, 30, 40, 50]);
    assert_eq!(Matrix::from_col(&p), m.mul(&Matrix::from_col(&v)));
}

#[test]
fn append_then_keep_recovers_columns() {
    let a = Matrix::new(4, 4, |x, y| (x + y) as i64);
    let b = Matrix::new(4, 4, |x, y| 8 - (x + y) as i64);
    let mut c = a.clone();
    c.append_cols(b.clone());
    assert_eq!(c.width(), 8);
    let mut left = c.clone();
    left.keep_cols(0..4);
    assert_eq!(left, a);
    c.keep_cols(4..8);
    assert_eq!(c, b);
}

#[test]
fn inverse_of_singular_matrix_is_none() {
    let a = Matrix::new(2, 2, |_, _| 1i64);
    assert_eq!(a.inverse(), None);
    assert_eq!(Matrix::<i64>::zero(3, 3).invert_in_place(), None);
}

#[test]
fn inverse_with_pivoting() {
    let a = Matrix::new(3, 3, |x, y| match (x, y) {
        (0, 1) | (1, 0) | (2, 2) => 1i64,
        _ => 0,
    });
    let b = a.inverse().unwrap();
    assert_eq!(b, a);
    assert_eq!(a.mul(&b), Matrix::identity(3));
    let d = Matrix::scalar(2, 2i64);
    // 1 / 2 rounds toward zero
    assert_eq!(d.inverse().unwrap(), Matrix::zero(2, 2));
}

#[test]
fn exact_inverse_is_a_left_inverse() {
    let a = Matrix::new(3, 3, |x, y| match (x, y) {
        (0, 0) | (1, 1) | (2, 2) => 1i64,
        (1, 0) => 2,
        (2, 1) => -3,
        _ => 0,
    });
    let b = a.inverse().unwrap();
    assert_eq!(b.mul(&a), Matrix::identity(3));
    assert_eq!(a.mul(&b), Matrix::identity(3));
}
