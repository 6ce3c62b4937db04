use mini_matrix::{Matrix, MatrixError, Rational, Vector};

/// The rational denoting the integer `x`.
fn ri(x: i64) -> Rational {
    Rational::from_int(x)
}

/// The rational `n / d`.
fn rq(n: i64, d: i64) -> Rational {
    Rational::new(n, d)
}

/// A matrix from integer rows.
fn mi(rows: Vec<Vec<i64>>) -> Matrix {
    Matrix::from(
        rows.into_iter()
            .map(|r| r.into_iter().map(ri).collect())
            .collect(),
    )
}

/// A vector from integer entries.
fn vi(entries: Vec<i64>) -> Vector {
    Vector::from(entries.into_iter().map(ri).collect())
}

#[test]
fn test_matrix_test_from() {
    let m = mi(vec![vec![2, 3], vec![5, 7]]);
    assert_eq!(m, mi(vec![vec![2, 3], vec![5, 7]]));

    let n = mi(vec![vec![11, 13, 17], vec![19, 23, 29]]);
    assert_eq!(n, mi(vec![vec![11, 13, 17], vec![19, 23, 29]]));
}

#[test]
fn test_matrix_test_size() {
    let m = mi(vec![vec![2, 3], vec![5, 7]]);
    assert_eq!(m.size(), (2, 2));

    let n = mi(vec![vec![11, 13, 17], vec![19, 23, 29]]);
    assert_eq!(n.size(), (2, 3));
}

#[test]
fn test_matrix_test_zero() {
    let m = Matrix::zero(2, 3);
    assert_eq!(m, mi(vec![vec![0, 0, 0], vec![0, 0, 0]]));

    let n = Matrix::zero(3, 4);
    assert_eq!(n, mi(vec![vec![0, 0, 0, 0], vec![0, 0, 0, 0], vec![0, 0, 0, 0]]));
}

#[test]
fn test_matrix_test_add() {
    let mut m = mi(vec![vec![2, 3], vec![5, 7]]);
    let n = mi(vec![vec![11, 13], vec![17, 19]]);
    m.add(&n);
    assert_eq!(m, mi(vec![vec![13, 16], vec![22, 26]]));
}

#[test]
fn test_matrix_test_add_subject() {
    let mut m1 = mi(vec![vec![0, 0], vec![0, 0]]);
    let m2 = mi(vec![vec![0, 0], vec![0, 0]]);
    m1.add(&m2);
    assert_eq!(m1, mi(vec![vec![0, 0], vec![0, 0]]));

    let mut m1 = mi(vec![vec![1, 0], vec![0, 1]]);
    let m2 = mi(vec![vec![0, 0], vec![0, 0]]);
    m1.add(&m2);
    assert_eq!(m1, mi(vec![vec![1, 0], vec![0, 1]]));

    let mut m1 = mi(vec![vec![1, 1], vec![1, 1]]);
    let m2 = mi(vec![vec![1, 1], vec![1, 1]]);
    m1.add(&m2);
    assert_eq!(m1, mi(vec![vec![2, 2], vec![2, 2]]));

    let mut m1 = mi(vec![vec![21, 21], vec![21, 21]]);
    let m2 = mi(vec![vec![21, 21], vec![21, 21]]);
    m1.add(&m2);
    assert_eq!(m1, mi(vec![vec![42, 42], vec![42, 42]]));
}

#[test]
fn test_matrix_test_sub() {
    let mut m = mi(vec![vec![2, 3], vec![5, 7]]);
    let n = mi(vec![vec![11, 13], vec![17, 19]]);
    m.sub(&n);
    assert_eq!(m, mi(vec![vec![-9, -10], vec![-12, -12]]));
}

#[test]
fn test_matrix_test_sub_subject() {
    let mut a = mi(vec![vec![0, 0], vec![0, 0]]);
    a.sub(&mi(vec![vec![0, 0], vec![0, 0]]));
    assert_eq!(a, mi(vec![vec![0, 0], vec![0, 0]]));

    let mut b = mi(vec![vec![1, 0], vec![0, 1]]);
    b.sub(&mi(vec![vec![0, 0], vec![0, 0]]));
    assert_eq!(b, mi(vec![vec![1, 0], vec![0, 1]]));

    let mut c = mi(vec![vec![1, 1], vec![1, 1]]);
    c.sub(&mi(vec![vec![1, 1], vec![1, 1]]));
    assert_eq!(c, mi(vec![vec![0, 0], vec![0, 0]]));

    let mut d = mi(vec![vec![21, 21], vec![21, 21]]);
    d.sub(&mi(vec![vec![21, 21], vec![21, 21]]));
    assert_eq!(d, mi(vec![vec![0, 0], vec![0, 0]]));
}

#[test]
fn test_matrix_test_scl() {
    let mut m = mi(vec![vec![2, 3], vec![5, 7]]);
    m.scl(ri(2));
    assert_eq!(m, mi(vec![vec![4, 6], vec![10, 14]]));
}

#[test]
fn test_matrix_test_scl_subject() {
    let mut m0 = mi(vec![vec![0, 0], vec![0, 0]]);
    let mut m1 = mi(vec![vec![1, 0], vec![0, 1]]);
    let mut m2 = mi(vec![vec![1, 2], vec![3, 4]]);
    let mut m3 = mi(vec![vec![21, 21], vec![21, 21]]);

    m0.scl(ri(0));
    m1.scl(ri(1));
    m2.scl(ri(2));
    m3.scl(rq(1, 2));
    assert_eq!(m0, mi(vec![vec![0, 0], vec![0, 0]]));
    assert_eq!(m1, mi(vec![vec![1, 0], vec![0, 1]]));
    assert_eq!(m2, mi(vec![vec![2, 4], vec![6, 8]]));
    assert_eq!(
        m3,
        Matrix::from(vec![
            vec![rq(21, 2), rq(21, 2)],
            vec![rq(21, 2), rq(21, 2)]
        ])
    );
}

#[test]
fn test_matrix_test_add_trait() {
    let mut m = mi(vec![vec![2, 3], vec![5, 7]]);
    let n = mi(vec![vec![11, 13], vec![17, 19]]);
    m.add(&n);
    assert_eq!(m, mi(vec![vec![13, 16], vec![22, 26]]));
}

#[test]
fn test_matrix_test_sub_trait() {
    let mut m = mi(vec![vec![2, 3], vec![5, 7]]);
    let n = mi(vec![vec![11, 13], vec![17, 19]]);
    m.sub(&n);
    assert_eq!(m, mi(vec![vec![-9, -10], vec![-12, -12]]));
}

#[test]
fn test_mul_trait() {
    let mut m = mi(vec![vec![2, 3], vec![5, 7]]);
    m.scl(ri(2));
    assert_eq!(m, mi(vec![vec![4, 6], vec![10, 14]]));
}

#[test]
fn test_matrix_test_index() {
    let m = mi(vec![vec![2, 3], vec![5, 7]]);
    assert_eq!(m.get(0, 0), ri(2));
    assert_eq!(m.get(0, 1), ri(3));
    assert_eq!(m.get(1, 0), ri(5));
    assert_eq!(m.get(1, 1), ri(7));
}

#[test]
fn test_matrix_test_index_mut() {
    let mut m = mi(vec![vec![2, 3], vec![5, 7]]);
    m.set(0, 0, ri(11));
    m.set(0, 1, ri(13));
    m.set(1, 0, ri(17));
    m.set(1, 1, ri(19));
    assert_eq!(m, mi(vec![vec![11, 13], vec![17, 19]]));
}

#[test]
fn test_matrix_vec_mul() {
    let u = mi(vec![vec![1, 0], vec![0, 1]]);
    let v = vi(vec![4, 2]);
    assert_eq!(u.mul_vec(&v), vi(vec![4, 2]));

    let u = mi(vec![vec![2, 0], vec![0, 2]]);
    let v = vi(vec![4, 2]);
    assert_eq!(u.mul_vec(&v), vi(vec![8, 4]));

    let u = mi(vec![vec![2, -2], vec![-2, 2]]);
    let v = vi(vec![4, 2]);
    assert_eq!(u.mul_vec(&v), vi(vec![4, -4]));
}

#[test]
fn test_mul_vec_subject() {
    let mat1 = mi(vec![vec![0, 0], vec![0, 0]]);
    let vec1 = vi(vec![1, 2]);
    assert_eq!(mat1.mul_vec(&vec1), vi(vec![0, 0]));

    let mat2 = mi(vec![vec![1, 0], vec![0, 1]]);
    let vec2 = vi(vec![3, 4]);
    assert_eq!(mat2.mul_vec(&vec2), vi(vec![3, 4]));

    let mat3 = mi(vec![vec![1, 1], vec![1, 1]]);
    let vec3 = vi(vec![4, 2]);
    assert_eq!(mat3.mul_vec(&vec3), vi(vec![6, 6]));

    let mat4 = mi(vec![vec![2, 0], vec![0, 2]]);
    let vec4 = vi(vec![2, 1]);
    assert_eq!(mat4.mul_vec(&vec4), vi(vec![4, 2]));

    let mat5 = Matrix::from(vec![vec![rq(1, 2), ri(0)], vec![ri(0), rq(1, 2)]]);
    let vec5 = vi(vec![4, 2]);
    assert_eq!(mat5.mul_vec(&vec5), vi(vec![2, 1]));
}

#[test]
fn test_mul_mat_subject() {
    let mat1 = mi(vec![vec![0, 0], vec![0, 0]]);
    let mat2 = mi(vec![vec![1, 2], vec![3, 4]]);
    assert_eq!(mat1.mul_mat(&mat2), mi(vec![vec![0, 0], vec![0, 0]]));

    let mat3 = mi(vec![vec![1, 0], vec![0, 1]]);
    let mat4 = mi(vec![vec![2, 3], vec![4, 5]]);
    assert_eq!(mat3.mul_mat(&mat4), mi(vec![vec![2, 3], vec![4, 5]]));

    let mat5 = mi(vec![vec![1, 1], vec![1, 1]]);
    let mat6 = mi(vec![vec![1, 2], vec![3, 4]]);
    assert_eq!(mat5.mul_mat(&mat6), mi(vec![vec![4, 6], vec![4, 6]]));

    let mat7 = mi(vec![vec![2, 0], vec![0, 2]]);
    let mat8 = mi(vec![vec![1, 2], vec![3, 4]]);
    assert_eq!(mat7.mul_mat(&mat8), mi(vec![vec![2, 4], vec![6, 8]]));
}

#[test]
fn test_matrix_matrix_mul() {
    let u = mi(vec![vec![1, 0], vec![0, 1]]);
    let v = mi(vec![vec![1, 0], vec![0, 1]]);
    assert_eq!(u.mul_mat(&v), mi(vec![vec![1, 0], vec![0, 1]]));

    let u = mi(vec![vec![1, 0], vec![0, 1]]);
    let v = mi(vec![vec![2, 1], vec![4, 2]]);
    assert_eq!(u.mul_mat(&v), mi(vec![vec![2, 1], vec![4, 2]]));

    let u = mi(vec![vec![3, -5], vec![6, 8]]);
    let v = mi(vec![vec![2, 1], vec![4, 2]]);
    assert_eq!(u.mul_mat(&v), mi(vec![vec![-14, -7], vec![44, 22]]));
}

#[test]
fn test_trace() {
    let m = mi(vec![vec![2, 3], vec![5, 7]]);
    assert_eq!(m.trace(), ri(9));

    let u = mi(vec![vec![1, 0], vec![0, 1]]);
    assert_eq!(u.trace(), ri(2));

    let u = mi(vec![vec![2, -5, 0], vec![4, 3, 7], vec![-2, 3, 4]]);
    assert_eq!(u.trace(), ri(9));

    let u = mi(vec![vec![-2, -8, 4], vec![1, -23, 4], vec![0, 6, 4]]);
    assert_eq!(u.trace(), ri(-21));
}

#[test]
fn test_trace_subject() {
    let mat1 = mi(vec![vec![0, 0], vec![0, 0]]);
    assert_eq!(mat1.trace(), ri(0));

    let mat2 = mi(vec![vec![1, 0], vec![0, 1]]);
    assert_eq!(mat2.trace(), ri(2));

    let mat3 = mi(vec![vec![1, 2], vec![3, 4]]);
    assert_eq!(mat3.trace(), ri(5));

    let mat4 = mi(vec![vec![8, -7], vec![4, 2]]);
    assert_eq!(mat4.trace(), ri(10));

    let mat5 = mi(vec![vec![1, 0, 0], vec![0, 1, 0], vec![0, 0, 1]]);
    assert_eq!(mat5.trace(), ri(3));

    let mat6 = mi(vec![vec![5, -3, 2], vec![0, 7, 1], vec![4, -1, 6]]);
    assert_eq!(mat6.trace(), ri(18));
}

#[test]
fn test_transpose() {
    let m = mi(vec![vec![1, 2, 3], vec![4, 5, 6], vec![7, 8, 9]]);
    let expected = mi(vec![vec![1, 4, 7], vec![2, 5, 8], vec![3, 6, 9]]);
    assert_eq!(m.transpose(), expected);

    let u = mi(vec![vec![1, 0], vec![0, 1]]);
    let expected = mi(vec![vec![1, 0], vec![0, 1]]);
    assert_eq!(u.transpose(), expected);

    let u = mi(vec![vec![2, -5, 0], vec![4, 3, 7], vec![-2, 3, 4]]);
    let expected = mi(vec![vec![2, 4, -2], vec![-5, 3, 3], vec![0, 7, 4]]);
    assert_eq!(u.transpose(), expected);

    let u = mi(vec![vec![-2, -8, 4], vec![1, -23, 4], vec![0, 6, 4]]);
    let expected = mi(vec![vec![-2, 1, 0], vec![-8, -23, 6], vec![4, 4, 4]]);
    assert_eq!(u.transpose(), expected);
}

#[test]
fn test_row_echelon_from() {
    let u = mi(vec![vec![1, 0, 0], vec![0, 1, 0], vec![0, 0, 1]]);
    let expected = mi(vec![vec![1, 0, 0], vec![0, 1, 0], vec![0, 0, 1]]);
    assert_eq!(u.row_echelon(), expected);

    let u = mi(vec![vec![1, 2], vec![3, 4]]);
    let expected = mi(vec![vec![1, 0], vec![0, 1]]);
    assert_eq!(u.row_echelon(), expected);

    let u = mi(vec![vec![1, 2], vec![2, 4]]);
    let expected = mi(vec![vec![1, 2], vec![0, 0]]);
    assert_eq!(u.row_echelon(), expected);
}

#[test]
fn test_row_echelon_subject() {
    let mat1 = mi(vec![vec![0, 0], vec![0, 0]]);
    assert_eq!(mat1.row_echelon(), mi(vec![vec![0, 0], vec![0, 0]]));

    let mat2 = mi(vec![vec![1, 0], vec![0, 1]]);
    assert_eq!(mat2.row_echelon(), mi(vec![vec![1, 0], vec![0, 1]]));

    let mat3 = mi(vec![vec![4, 2], vec![2, 1]]);
    assert_eq!(
        mat3.row_echelon(),
        Matrix::from(vec![vec![ri(1), rq(1, 2)], vec![ri(0), ri(0)]])
    );

    let mat4 = mi(vec![vec![-7, 2], vec![4, 8]]);
    assert_eq!(mat4.row_echelon(), mi(vec![vec![1, 0], vec![0, 1]]));

    let mat5 = mi(vec![vec![1, 2], vec![4, 8]]);
    assert_eq!(mat5.row_echelon(), mi(vec![vec![1, 2], vec![0, 0]]));
}

#[test]
fn test_determinant() {
    let m = mi(vec![vec![1, 2], vec![3, 4]]);
    assert_eq!(m.determinant(), ri(-2));

    let u = mi(vec![vec![1, 0], vec![0, 1]]);
    assert_eq!(u.determinant(), ri(1));

    let u = mi(vec![vec![2, -5, 0], vec![4, 3, 7], vec![-2, 3, 4]]);
    assert_eq!(u.determinant(), ri(132));

    let u = mi(vec![vec![-2, -8, 4], vec![1, -23, 4], vec![0, 6, 4]]);
    assert_eq!(u.determinant(), ri(288));

    let u = mi(vec![vec![1, -1], vec![-1, 1]]);
    assert_eq!(u.determinant(), ri(0));

    let u = mi(vec![vec![2, 0, 0], vec![0, 2, 0], vec![0, 0, 2]]);
    assert_eq!(u.determinant(), ri(8));

    let u = mi(vec![vec![8, 5, -2], vec![4, 7, 20], vec![7, 6, 1]]);
    assert_eq!(u.determinant(), ri(-174));

    let u = Matrix::from(vec![
        vec![ri(8), ri(5), ri(-2), ri(4)],
        vec![ri(4), rq(5, 2), ri(20), ri(4)],
        vec![ri(8), ri(5), ri(1), ri(4)],
        vec![ri(28), ri(-4), ri(17), ri(1)],
    ]);
    assert_eq!(u.determinant(), ri(1032));
}

#[test]
fn test_determinant_subject() {
    let mat1 = mi(vec![vec![0, 0], vec![0, 0]]);
    assert_eq!(mat1.determinant(), ri(0));

    let mat2 = mi(vec![vec![1, 0], vec![0, 1]]);
    assert_eq!(mat2.determinant(), ri(1));

    let mat3 = mi(vec![vec![2, 0], vec![0, 2]]);
    assert_eq!(mat3.determinant(), ri(4));

    let mat4 = mi(vec![vec![1, 1], vec![1, 1]]);
    assert_eq!(mat4.determinant(), ri(0));

    let mat5 = mi(vec![vec![0, 1], vec![1, 0]]);
    assert_eq!(mat5.determinant(), ri(-1));

    let mat6 = mi(vec![vec![1, 2], vec![3, 4]]);
    assert_eq!(mat6.determinant(), ri(-2));

    let mat7 = mi(vec![vec![-7, 5], vec![4, 6]]);
    assert_eq!(mat7.determinant(), ri(-62));

    let mat8 = mi(vec![vec![1, 0, 0], vec![0, 1, 0], vec![0, 0, 1]]);
    assert_eq!(mat8.determinant(), ri(1));
}

#[test]
fn test_inverse_identity_2x2() {
    let matrix = mi(vec![vec![1, 0], vec![0, 1]]);
    let expected = mi(vec![vec![1, 0], vec![0, 1]]);
    assert_eq!(matrix.inverse().unwrap(), expected);
}

#[test]
fn test_inverse_scalar_2x2() {
    let matrix = mi(vec![vec![2, 0], vec![0, 2]]);
    let expected = Matrix::from(vec![vec![rq(1, 2), ri(0)], vec![ri(0), rq(1, 2)]]);
    assert_eq!(matrix.inverse().unwrap(), expected);
}

#[test]
fn test_inverse_scaled_identity_2x2() {
    let matrix = Matrix::from(vec![vec![rq(1, 2), ri(0)], vec![ri(0), rq(1, 2)]]);
    let expected = mi(vec![vec![2, 0], vec![0, 2]]);
    assert_eq!(matrix.inverse().unwrap(), expected);
}

#[test]
fn test_inverse_swap_2x2() {
    let matrix = mi(vec![vec![0, 1], vec![1, 0]]);
    let expected = mi(vec![vec![0, 1], vec![1, 0]]);
    assert_eq!(matrix.inverse().unwrap(), expected);
}

#[test]
fn test_inverse_non_trivial_2x2() {
    let matrix = mi(vec![vec![1, 2], vec![3, 4]]);
    let expected = Matrix::from(vec![
        vec![ri(-2), ri(1)],
        vec![rq(3, 2), rq(-1, 2)],
    ]);
    assert_eq!(matrix.inverse().unwrap(), expected);
}

#[test]
fn test_inverse_identity_3x3() {
    let matrix = mi(vec![vec![1, 0, 0], vec![0, 1, 0], vec![0, 0, 1]]);
    let expected = mi(vec![vec![1, 0, 0], vec![0, 1, 0], vec![0, 0, 1]]);
    assert_eq!(matrix.inverse().unwrap(), expected);
}

#[test]
fn test_inverse_singular_returns_error() {
    let singular = mi(vec![vec![1, 2], vec![2, 4]]);
    assert_eq!(singular.determinant(), ri(0));
    assert_eq!(singular.inverse(), Err(MatrixError::Singular));

    let singular3 = mi(vec![vec![1, 1, 1], vec![2, 2, 2], vec![3, 3, 3]]);
    assert_eq!(singular3.determinant(), ri(0));
    assert_eq!(singular3.inverse(), Err(MatrixError::Singular));
}

#[test]
fn test_inverse_non_square_returns_error() {
    let wide = mi(vec![vec![1, 2, 3], vec![4, 5, 6]]);
    assert_eq!(wide.inverse(), Err(MatrixError::DimensionMismatch));
}

#[test]
fn test_inverse_oversize_returns_error() {
    let big = mi(vec![
        vec![1, 0, 0, 0],
        vec![0, 1, 0, 0],
        vec![0, 0, 1, 0],
        vec![0, 0, 0, 1],
    ]);
    assert_eq!(big.inverse(), Err(MatrixError::UnsupportedDimension));
}

#[test]
fn test_inverse_product_is_identity() {
    let a = mi(vec![vec![1, 2], vec![3, 4]]);
    let inv = a.inverse().unwrap();
    assert_eq!(a.mul_mat(&inv), mi(vec![vec![1, 0], vec![0, 1]]));

    let b = mi(vec![vec![8, 5, -2], vec![4, 7, 20], vec![7, 6, 1]]);
    let binv = b.inverse().unwrap();
    assert_eq!(
        b.mul_mat(&binv),
        mi(vec![vec![1, 0, 0], vec![0, 1, 0], vec![0, 0, 1]])
    );
}

#[test]
fn test_inverse_round_trip() {
    let a = mi(vec![vec![1, 2], vec![3, 4]]);
    let back = a.inverse().unwrap().inverse().unwrap();
    assert_eq!(back, a);

    let b = mi(vec![vec![2, 0], vec![0, 2]]);
    assert_eq!(b.inverse().unwrap().inverse().unwrap(), b);
}

#[test]
fn test_row_echelon_idempotent() {
    let cases = vec![
        mi(vec![vec![1, 2], vec![2, 4]]),
        mi(vec![vec![4, 2], vec![2, 1]]),
        mi(vec![vec![-7, 2], vec![4, 8]]),
        mi(vec![vec![1, 2, 0, 0], vec![2, 4, 0, 0], vec![-1, 2, 1, 1]]),
        mi(vec![vec![0, 0], vec![0, 0]]),
    ];
    for m in cases {
        let once = m.row_echelon();
        let twice = once.row_echelon();
        assert_eq!(twice, once);
    }
}

#[test]
fn test_determinant_identity_sizes() {
    for n in 1..5usize {
        assert_eq!(Matrix::identity(n).determinant(), ri(1));
    }
}

#[test]
fn test_rank_identity_and_zero() {
    for n in 1..5usize {
        assert_eq!(Matrix::identity(n).rank(), n);
    }
    assert_eq!(Matrix::zero(3, 4).rank(), 0);
    assert_eq!(Matrix::zero(2, 2).rank(), 0);
}

#[test]
fn test_rank_subject() {
    let u = mi(vec![vec![1, 0, 0], vec![0, 1, 0], vec![0, 0, 1]]);
    assert_eq!(u.rank(), 3);

    let u = mi(vec![vec![1, 2, 0, 0], vec![2, 4, 0, 0], vec![-1, 2, 1, 1]]);
    assert_eq!(u.rank(), 2);

    let u = mi(vec![vec![8, 5, -2], vec![4, 7, 20], vec![7, 6, 1], vec![21, 18, 7]]);
    assert_eq!(u.rank(), 3);
}

#[test]
fn test_from_vecs_pads_with_zero() {
    let m = Matrix::from_vecs(vec![vec![ri(1), ri(2)], vec![ri(3)]], 3, 2);
    assert_eq!(m, mi(vec![vec![1, 2], vec![3, 0], vec![0, 0]]));
}

#[test]
fn test_identity() {
    let a = Matrix::identity(3);
    assert_eq!(a, mi(vec![vec![1, 0, 0], vec![0, 1, 0], vec![0, 0, 1]]));
}

#[test]
fn test_cofactor2x2() {
    let m = mi(vec![vec![1, 2, 3], vec![4, 5, 6], vec![7, 8, 9]]);
    assert_eq!(m.cofactor2x2(0, 0), mi(vec![vec![5, 6], vec![8, 9]]));
    assert_eq!(m.cofactor2x2(1, 1), mi(vec![vec![1, 3], vec![7, 9]]));
    assert_eq!(m.cofactor2x2(2, 2), mi(vec![vec![1, 2], vec![4, 5]]));
}

#[test]
fn test_cofactor1x1() {
    let m = mi(vec![vec![1, 2], vec![3, 4]]);
    assert_eq!(m.cofactor1x1(0, 0), mi(vec![vec![4]]));
    assert_eq!(m.cofactor1x1(0, 1), mi(vec![vec![3]]));
    assert_eq!(m.cofactor1x1(1, 0), mi(vec![vec![2]]));
    assert_eq!(m.cofactor1x1(1, 1), mi(vec![vec![1]]));
}
