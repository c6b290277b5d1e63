use alumine::alg::Vector;

#[test]
fn test_dot() {
    let a = Vector::from_copies(5, 1);
    let b = Vector::from_copies(5, 2);

    let norm = a.dot(&b);

    assert_eq!(norm, 10);
}

#[test]
fn vector_algebra() {
    let a = Vector::from_slice(&[1i64, -2, 3]);
    let b = Vector::from_vec(vec![4i64, 5, -6]);
    assert_eq!(a.dim(), 3);
    assert_eq!(a.dot(&b), 4 - 10 - 18);
    assert_eq!(a.norm_sq(), 14);
    assert_eq!(a.add(&b).data(), &[5, 3, -3]);
    assert_eq!(a.sub(&b).data(), &[-3, -7, 9]);
    assert_eq!(a.mul_scalar(-2).data(), &[-2, 4, -6]);
    let mut c = a.clone();
    c.add_in_place(&b);
    assert_eq!(c, a.add(&b));
    assert_eq!(Vector::<i64>::zero(2).data(), &[0, 0]);
    assert_eq!(Vector::<i64>::dummy().dim(), 0);
    let collected: Vec<i64> = b.into_iter().collect();
    assert_eq!(collected, vec![4, 5, -6]);
}

#[test]
fn division_rounds_toward_zero() {
    let a = Vector::from_slice(&[7i64, -7, 6, -1]);
    assert_eq!(a.div_scalar(2).data(), &[3, -3, 3, 0]);
    assert_eq!(a.div_scalar(-2).data(), &[-3, 3, -3, 0]);
}

#[test]
fn outer_product_is_column_times_row() {
    let a = Vector::from_slice(&[1i64, 2]);
    let b = Vector::from_slice(&[3i64, 4, 5]);
    let o = a.outer_product(&b);
    assert_eq!(o.width(), 3);
    assert_eq!(o.height(), 2);
    assert_eq!(o.get(0, 0), 3);
    assert_eq!(o.get(2, 1), 10);
    assert_eq!(o.get(1, 1), 8);
}
