use mini_matrix::{cross_product, lerp, linear_combination, Rational, Vector};

/// The rational denoting the integer `x`.
fn ri(x: i64) -> Rational {
    Rational::from_int(x)
}

/// The rational `n / d`.
fn rq(n: i64, d: i64) -> Rational {
    Rational::new(n, d)
}

/// A vector from integer entries.
fn vi(entries: Vec<i64>) -> Vector {
    Vector::from(entries.into_iter().map(ri).collect())
}

#[test]
fn test_linear_combination() {
    let e1 = vi(vec![1, 0, 0]);
    let e2 = vi(vec![0, 1, 0]);
    let e3 = vi(vec![0, 0, 1]);

    let v1 = vi(vec![1, 2, 3]);
    let v2 = vi(vec![0, 10, -100]);

    let expected = Vector::from(vec![ri(10), ri(-2), rq(1, 2)]);
    let result = linear_combination(&vec![e1, e2, e3], &vec![ri(10), ri(-2), rq(1, 2)]);
    assert_eq!(result, expected);

    let expected = vi(vec![10, 0, 230]);
    let result = linear_combination(&vec![v1, v2], &vec![ri(10), ri(-2)]);
    assert_eq!(result, expected);
}

#[test]
fn test_li_combination_subject() {
    let v1 = vi(vec![-42, 42]);
    assert_eq!(
        linear_combination(&vec![v1], &vec![ri(-1)]),
        vi(vec![42, -42])
    );

    let v2 = vi(vec![-42]);
    assert_eq!(
        linear_combination(
            &vec![v2.clone(), v2.clone(), v2.clone()],
            &vec![ri(-1), ri(1), ri(0)]
        ),
        vi(vec![0])
    );

    let v3 = vi(vec![-42, 42]);
    let v4 = vi(vec![1, 3]);
    let v5 = vi(vec![10, 20]);
    assert_eq!(
        linear_combination(&vec![v3, v4, v5], &vec![ri(1), ri(-10), ri(-1)]),
        vi(vec![-62, -8])
    );

    let v6 = Vector::from(vec![ri(-42), ri(100), rq(-139, 2)]);
    let v7 = vi(vec![1, 3, 5]);
    assert_eq!(
        linear_combination(&vec![v6, v7], &vec![ri(1), ri(-10)]),
        Vector::from(vec![ri(-52), ri(70), rq(-239, 2)])
    );
}

#[test]
fn test_cross_product() {
    let u = vi(vec![0, 0, 1]);
    let v = vi(vec![1, 0, 0]);
    assert_eq!(cross_product(&u, &v), vi(vec![0, 1, 0]));

    let u = vi(vec![1, 2, 3]);
    let v = vi(vec![4, 5, 6]);
    assert_eq!(cross_product(&u, &v), vi(vec![-3, 6, -3]));

    let u = vi(vec![4, 2, -3]);
    let v = vi(vec![-2, -5, 16]);
    assert_eq!(cross_product(&u, &v), vi(vec![17, -58, -16]));
}

#[test]
fn test_cross_product_subject() {
    let u1 = vi(vec![0, 0, 0]);
    let v1 = vi(vec![0, 0, 0]);
    assert_eq!(cross_product(&u1, &v1), vi(vec![0, 0, 0]));

    let u2 = vi(vec![1, 0, 0]);
    let v2 = vi(vec![0, 0, 0]);
    assert_eq!(cross_product(&u2, &v2), vi(vec![0, 0, 0]));

    let u3 = vi(vec![1, 0, 0]);
    let v3 = vi(vec![0, 1, 0]);
    assert_eq!(cross_product(&u3, &v3), vi(vec![0, 0, 1]));

    let u4 = vi(vec![8, 7, -4]);
    let v4 = vi(vec![3, 2, 1]);
    assert_eq!(cross_product(&u4, &v4), vi(vec![15, -20, -5]));

    let u5 = vi(vec![1, 1, 1]);
    let v5 = vi(vec![0, 0, 0]);
    assert_eq!(cross_product(&u5, &v5), vi(vec![0, 0, 0]));

    let u6 = vi(vec![1, 1, 1]);
    let v6 = vi(vec![1, 1, 1]);
    assert_eq!(cross_product(&u6, &v6), vi(vec![0, 0, 0]));

    let u7 = vi(vec![1, 2, 3]);
    let v7 = vi(vec![4, 5, 6]);
    assert_eq!(cross_product(&u7, &v7), vi(vec![-3, 6, -3]));
}

#[test]
fn test_lerp() {
    let u = vi(vec![1, 2, 3]);
    let v = vi(vec![4, 5, 6]);

    assert_eq!(lerp(&u, &v, ri(0)), u);
    assert_eq!(lerp(&u, &v, ri(1)), v);
    assert_eq!(
        lerp(&u, &v, rq(1, 2)),
        Vector::from(vec![rq(5, 2), rq(7, 2), rq(9, 2)])
    );
}
