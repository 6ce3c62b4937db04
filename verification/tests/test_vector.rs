use mini_matrix::{Rational, Vector};

/// The rational denoting the integer `x`.
fn ri(x: i64) -> Rational {
    Rational::from_int(x)
}

/// The rational `n / d`.
fn rq(n: i64, d: i64) -> Rational {
    Rational::new(n, d)
}

/// A vector from integer entries.
fn vi(entries: Vec<i64>) -> Vector {
    Vector::from(entries.into_iter().map(ri).collect())
}

#[test]
fn test_vector_test_from() {
    let u = vi(vec![2, 3]);
    assert_eq!(u, vi(vec![2, 3]));

    let v = vi(vec![5, 7, 9, 11]);
    assert_eq!(v, vi(vec![5, 7, 9, 11]));
}

#[test]
fn test_vector_test_size() {
    let u = vi(vec![2, 3]);
    assert_eq!(u.size(), 2);

    let v = vi(vec![5, 7, 9, 11]);
    assert_eq!(v.size(), 4);
}

#[test]
fn test_vector_test_zero() {
    let u = Vector::zero(3);
    assert_eq!(u, vi(vec![0, 0, 0]));

    let v = Vector::zero(5);
    assert_eq!(v, vi(vec![0, 0, 0, 0, 0]));
}

#[test]
fn test_vector_test_add() {
    let mut u = vi(vec![2, 3]);
    let v = vi(vec![5, 7]);
    u.add(&v);
    assert_eq!(u, vi(vec![7, 10]));
}

#[test]
fn test_vector_test_add_subject() {
    let mut v1 = vi(vec![0, 0]);
    v1.add(&vi(vec![0, 0]));
    assert_eq!(v1, vi(vec![0, 0]));

    let mut v1 = vi(vec![1, 0]);
    v1.add(&vi(vec![0, 1]));
    assert_eq!(v1, vi(vec![1, 1]));

    let mut v1 = vi(vec![1, 1]);
    v1.add(&vi(vec![1, 1]));
    assert_eq!(v1, vi(vec![2, 2]));

    let mut v1 = vi(vec![21, 21]);
    v1.add(&vi(vec![21, 21]));
    assert_eq!(v1, vi(vec![42, 42]));

    let mut v1 = vi(vec![-21, 21]);
    v1.add(&vi(vec![21, -21]));
    assert_eq!(v1, vi(vec![0, 0]));

    let mut v1 = vi(vec![0, 1, 2, 3, 4, 5, 6, 7, 8, 9]);
    v1.add(&vi(vec![9, 8, 7, 6, 5, 4, 3, 2, 1, 0]));
    assert_eq!(v1, vi(vec![9, 9, 9, 9, 9, 9, 9, 9, 9, 9]));
}

#[test]
fn test_vector_test_sub() {
    let mut u = vi(vec![2, 3]);
    let v = vi(vec![5, 7]);
    u.sub(&v);
    assert_eq!(u, vi(vec![-3, -4]));
}

#[test]
fn test_vector_test_sub_subject() {
    let mut v1 = vi(vec![0, 0]);
    v1.sub(&vi(vec![0, 0]));
    assert_eq!(v1, vi(vec![0, 0]));

    let mut v1 = vi(vec![1, 0]);
    v1.sub(&vi(vec![0, 1]));
    assert_eq!(v1, vi(vec![1, -1]));

    let mut v1 = vi(vec![1, 1]);
    v1.sub(&vi(vec![1, 1]));
    assert_eq!(v1, vi(vec![0, 0]));

    let mut v1 = vi(vec![21, 21]);
    v1.sub(&vi(vec![21, 21]));
    assert_eq!(v1, vi(vec![0, 0]));

    let mut v1 = vi(vec![-21, 21]);
    v1.sub(&vi(vec![21, -21]));
    assert_eq!(v1, vi(vec![-42, 42]));

    let mut v1 = vi(vec![0, 1, 2, 3, 4, 5, 6, 7, 8, 9]);
    v1.sub(&vi(vec![9, 8, 7, 6, 5, 4, 3, 2, 1, 0]));
    assert_eq!(v1, vi(vec![-9, -7, -5, -3, -1, 1, 3, 5, 7, 9]));
}

#[test]
fn test_vector_test_scl() {
    let mut u = vi(vec![2, 3]);
    u.scl(ri(3));
    assert_eq!(u, vi(vec![6, 9]));
}

#[test]
fn test_vector_test_scl_subject() {
    let mut v0 = vi(vec![0, 0]);
    let mut v1 = vi(vec![1, 0]);
    let mut v2 = vi(vec![1, 1]);
    let mut v3 = vi(vec![21, 21]);
    let mut v4 = vi(vec![42, 42]);

    v0.scl(ri(1));
    v1.scl(ri(1));
    v2.scl(ri(2));
    v3.scl(ri(2));
    v4.scl(rq(1, 2));
    assert_eq!(v0, vi(vec![0, 0]));
    assert_eq!(v1, vi(vec![1, 0]));
    assert_eq!(v2, vi(vec![2, 2]));
    assert_eq!(v3, vi(vec![42, 42]));
    assert_eq!(v4, vi(vec![21, 21]));
}

#[test]
fn test_dot() {
    let u = vi(vec![2, 3]);
    let v = vi(vec![5, 7]);
    assert_eq!(u.dot(&v), ri(31));
}

#[test]
fn test_dot_product_subject() {
    let v1 = vi(vec![0, 0]);
    let v2 = vi(vec![0, 0]);
    assert_eq!(v1.dot(&v2), ri(0));

    let v3 = vi(vec![1, 0]);
    let v4 = vi(vec![0, 0]);
    assert_eq!(v3.dot(&v4), ri(0));

    let v5 = vi(vec![1, 0]);
    let v6 = vi(vec![1, 0]);
    assert_eq!(v5.dot(&v6), ri(1));

    let v7 = vi(vec![1, 0]);
    let v8 = vi(vec![0, 1]);
    assert_eq!(v7.dot(&v8), ri(0));

    let v9 = vi(vec![1, 1]);
    let v10 = vi(vec![1, 1]);
    assert_eq!(v9.dot(&v10), ri(2));

    let v11 = vi(vec![4, 2]);
    let v12 = vi(vec![2, 1]);
    assert_eq!(v11.dot(&v12), ri(10));
}

#[test]
fn test_norm1() {
    let u = vi(vec![2, 3]);
    let v = vi(vec![5, 7]);
    assert_eq!(u.norm_1(), ri(5));
    assert_eq!(v.norm_1(), ri(12));
}

#[test]
fn test_norm_inf() {
    let u = vi(vec![2, 3]);
    let v = vi(vec![5, 7]);
    assert_eq!(u.norm_inf(), ri(3));
    assert_eq!(v.norm_inf(), ri(7));
}

#[test]
fn test_norm1_subject() {
    let v1 = vi(vec![0]);
    assert_eq!(v1.norm_1(), ri(0));

    let v2 = vi(vec![1]);
    assert_eq!(v2.norm_1(), ri(1));

    let v3 = vi(vec![0, 0]);
    assert_eq!(v3.norm_1(), ri(0));

    let v4 = vi(vec![1, 0]);
    assert_eq!(v4.norm_1(), ri(1));

    let v5 = vi(vec![2, 1]);
    assert_eq!(v5.norm_1(), ri(3));

    let v6 = vi(vec![4, 2]);
    assert_eq!(v6.norm_1(), ri(6));

    let v7 = vi(vec![-4, -2]);
    assert_eq!(v7.norm_1(), ri(6));
}

#[test]
fn test_norm_inf_subject() {
    let v1 = vi(vec![0]);
    assert_eq!(v1.norm_inf(), ri(0));

    let v2 = vi(vec![1]);
    assert_eq!(v2.norm_inf(), ri(1));

    let v3 = vi(vec![0, 0]);
    assert_eq!(v3.norm_inf(), ri(0));

    let v4 = vi(vec![1, 0]);
    assert_eq!(v4.norm_inf(), ri(1));

    let v5 = vi(vec![2, 1]);
    assert_eq!(v5.norm_inf(), ri(2));

    let v6 = vi(vec![4, 2]);
    assert_eq!(v6.norm_inf(), ri(4));

    let v7 = vi(vec![-4, -2]);
    assert_eq!(v7.norm_inf(), ri(4));
}

#[test]
fn test_neg_trait() {
    let u = vi(vec![2, 3]);
    let v = u.neg();
    assert_eq!(v, vi(vec![-2, -3]));
}

#[test]
fn test_vector_test_add_trait() {
    let mut u = vi(vec![2, 3]);
    let v = vi(vec![5, 7]);
    u.add(&v);
    assert_eq!(u, vi(vec![7, 10]));
}

#[test]
fn test_add_assign_trait() {
    let mut u = vi(vec![2, 3]);
    let v = vi(vec![5, 7]);
    u.add(&v);
    assert_eq!(u, vi(vec![7, 10]));
}

#[test]
fn test_vector_test_sub_trait() {
    let mut u = vi(vec![2, 3]);
    let v = vi(vec![5, 7]);
    u.sub(&v);
    assert_eq!(u, vi(vec![-3, -4]));
}

#[test]
fn test_sub_assign_trait() {
    let mut u = vi(vec![2, 3]);
    let v = vi(vec![5, 7]);
    u.sub(&v);
    assert_eq!(u, vi(vec![-3, -4]));
}

#[test]
fn test_mul_with_number_trait() {
    let mut u = vi(vec![2, 3]);
    u.scl(ri(3));
    assert_eq!(u, vi(vec![6, 9]));
}

#[test]
fn test_mul_with_vector_trait() {
    let u = vi(vec![2, 3]);
    let v = vi(vec![5, 7]);
    assert_eq!(u.dot(&v), ri(31));
}

#[test]
fn test_vector_test_index() {
    let u = vi(vec![2, 3]);
    assert_eq!(u.get(0), ri(2));
    assert_eq!(u.get(1), ri(3));
}

#[test]
#[should_panic]
fn test_index_out_of_bounds() {
    let u = vi(vec![2, 3]);
    let _ = u.get(2);
}

#[test]
fn test_vector_test_index_mut() {
    let mut u = vi(vec![2, 3]);
    u.set(0, ri(5));
    u.set(1, ri(7));
    assert_eq!(u, vi(vec![5, 7]));
}

#[test]
#[should_panic]
fn test_index_mut_out_of_bounds() {
    let mut u = vi(vec![2, 3]);
    u.set(2, ri(5));
}

#[test]
fn test_rational_reduction() {
    assert_eq!(Rational::new(2, 4), rq(1, 2));
    assert_eq!(Rational::new(-6, -4), rq(3, 2));
    assert_eq!(Rational::new(3, -6), rq(-1, 2));
    assert_eq!(ri(0), Rational::new(0, 7));
}

#[test]
fn test_rational_arithmetic() {
    assert_eq!(rq(1, 2).add(&rq(1, 3)), rq(5, 6));
    assert_eq!(rq(1, 2).sub(&rq(1, 3)), rq(1, 6));
    assert_eq!(rq(2, 3).mul(&rq(3, 4)), rq(1, 2));
    assert_eq!(rq(1, 2).div(&rq(3, 2)), rq(1, 3));
    assert_eq!(rq(-7, 2).abs(), rq(7, 2));
    assert_eq!(rq(7, 2).neg(), rq(-7, 2));
    assert!(rq(1, 3).lt(&rq(1, 2)));
    assert!(!rq(1, 2).lt(&rq(1, 2)));
    assert!(rq(0, 5).is_zero());
    assert!(!rq(1, 5).is_zero());
}
