//! Determinants of square matrices up to four rows, by closed formulas and
//! cofactor expansion.
//!
//! Sizes one to three use the direct formulas; size four expands along the
//! first row into four three-row minors with alternating signs. The minor
//! extraction shared with the inverse lives here too.

use crate::matrix::Matrix;
use crate::rational::{
    nadd, nmul, nsub, radd, rat_fits, rat_ok, rat_one, rat_zero, rmul, rsub, Rat, Rational,
};
use vstd::prelude::*;

verus! {

/// The matrix with row `row` and column `col` removed, relative order kept.
pub open spec fn minor_spec(m: Seq<Seq<Rat>>, row: int, col: int) -> Seq<Seq<Rat>> {
    Seq::new(
        (m.len() - 1) as nat,
        |i: int|
            Seq::new(
                (m[0].len() - 1) as nat,
                |j: int|
                    m[if i < row {
                        i
                    } else {
                        i + 1
                    }][
                        if j < col {
                            j
                        } else {
                            j + 1
                        }
                    ],
            ),
    )
}

/// The determinant of a two-row matrix.
pub open spec fn det2_spec(m: Seq<Seq<Rat>>) -> Rat {
    nsub(nmul(m[0][0], m[1][1]), nmul(m[0][1], m[1][0]))
}

/// Every product and difference of the two-row formula is representable.
pub open spec fn det2_fits(m: Seq<Seq<Rat>>) -> bool {
    &&& rat_fits(rmul(m[0][0], m[1][1]))
    &&& rat_fits(rmul(m[0][1], m[1][0]))
    &&& rat_fits(rsub(nmul(m[0][0], m[1][1]), nmul(m[0][1], m[1][0])))
}

/// The determinant of a three-row matrix: cofactor expansion along the
/// first row.
pub open spec fn det3_spec(m: Seq<Seq<Rat>>) -> Rat {
    let t1 = nmul(m[0][0], nsub(nmul(m[1][1], m[2][2]), nmul(m[1][2], m[2][1])));
    let t2 = nmul(m[0][1], nsub(nmul(m[1][0], m[2][2]), nmul(m[1][2], m[2][0])));
    let t3 = nmul(m[0][2], nsub(nmul(m[1][0], m[2][1]), nmul(m[1][1], m[2][0])));
    nadd(nsub(t1, t2), t3)
}

/// Every product, difference and sum of the three-row formula is
/// representable.
pub open spec fn det3_fits(m: Seq<Seq<Rat>>) -> bool {
    let s1 = nsub(nmul(m[1][1], m[2][2]), nmul(m[1][2], m[2][1]));
    let s2 = nsub(nmul(m[1][0], m[2][2]), nmul(m[1][2], m[2][0]));
    let s3 = nsub(nmul(m[1][0], m[2][1]), nmul(m[1][1], m[2][0]));
    let t1 = nmul(m[0][0], s1);
    let t2 = nmul(m[0][1], s2);
    let t3 = nmul(m[0][2], s3);
    &&& rat_fits(rmul(m[1][1], m[2][2]))
    &&& rat_fits(rmul(m[1][2], m[2][1]))
    &&& rat_fits(rsub(nmul(m[1][1], m[2][2]), nmul(m[1][2], m[2][1])))
    &&& rat_fits(rmul(m[1][0], m[2][2]))
    &&& rat_fits(rmul(m[1][2], m[2][0]))
    &&& rat_fits(rsub(nmul(m[1][0], m[2][2]), nmul(m[1][2], m[2][0])))
    &&& rat_fits(rmul(m[1][0], m[2][1]))
    &&& rat_fits(rmul(m[1][1], m[2][0]))
    &&& rat_fits(rsub(nmul(m[1][0], m[2][1]), nmul(m[1][1], m[2][0])))
    &&& rat_fits(rmul(m[0][0], s1))
    &&& rat_fits(rmul(m[0][1], s2))
    &&& rat_fits(rmul(m[0][2], s3))
    &&& rat_fits(rsub(t1, t2))
    &&& rat_fits(radd(nsub(t1, t2), t3))
}

/// The sign of the first-row cofactor in column `i`: plus for even
/// columns, minus for odd ones.
pub open spec fn sign_spec(i: int) -> Rat {
    if i % 2 == 0 {
        rat_one()
    } else {
        Rat { n: -1, d: 1 }
    }
}

/// One term of the four-row expansion: the sign, times the first-row
/// entry, times the determinant of its minor.
pub open spec fn det4_term(m: Seq<Seq<Rat>>, i: int) -> Rat {
    nmul(nmul(sign_spec(i), m[0][i]), det3_spec(minor_spec(m, 0, i)))
}

/// The first `k` terms of the four-row expansion, accumulated left to
/// right from zero.
pub open spec fn det4_sum(m: Seq<Seq<Rat>>, k: int) -> Rat
    decreases k,
{
    if k <= 0 {
        rat_zero()
    } else {
        nadd(det4_sum(m, k - 1), det4_term(m, k - 1))
    }
}

/// The determinant of a four-row matrix: cofactor expansion along the
/// first row into four three-row minors.
pub open spec fn det4_spec(m: Seq<Seq<Rat>>) -> Rat {
    det4_sum(m, 4)
}

/// Every intermediate value of the four-row expansion is representable.
pub open spec fn det4_fits(m: Seq<Seq<Rat>>) -> bool {
    forall|i: int|
        0 <= i < 4 ==> {
            &&& det3_fits(#[trigger] minor_spec(m, 0, i))
            &&& rat_fits(rmul(sign_spec(i), m[0][i]))
            &&& rat_fits(rmul(nmul(sign_spec(i), m[0][i]), det3_spec(minor_spec(m, 0, i))))
            &&& rat_fits(radd(det4_sum(m, i), det4_term(m, i)))
        }
}

/// The determinant of a square matrix of one to four rows.
pub open spec fn det_spec(m: Seq<Seq<Rat>>) -> Rat {
    if m.len() <= 1 {
        m[0][0]
    } else if m.len() == 2 {
        det2_spec(m)
    } else if m.len() == 3 {
        det3_spec(m)
    } else {
        det4_spec(m)
    }
}

/// Every intermediate value of the determinant formula is representable.
pub open spec fn det_fits(m: Seq<Seq<Rat>>) -> bool {
    if m.len() <= 1 {
        true
    } else if m.len() == 2 {
        det2_fits(m)
    } else if m.len() == 3 {
        det3_fits(m)
    } else {
        det4_fits(m)
    }
}

impl Matrix {
    /// The matrix with row `row` and column `col` removed.
    fn minor(&self, row: usize, col: usize) -> (r: Matrix)
        requires
            self.wf(),
            self@.len() >= 1,
            self.spec_cols() >= 1,
            row < self@.len(),
            col < self.spec_cols(),
        ensures
            r.wf(),
            r@.len() == self@.len() - 1,
            r.spec_cols() == self.spec_cols() - 1,
            r@ == minor_spec(self@, row as int, col as int),
    {
        let (rows, cols) = self.size();
        let mut r = Matrix::zero(rows - 1, cols - 1);
        let mut i: usize = 0;
        while i < rows - 1
            invariant
                i <= rows - 1,
                self.wf(),
                self@.len() == rows,
                self.spec_cols() == cols,
                rows >= 1,
                cols >= 1,
                row < rows,
                col < cols,
                r.wf(),
                r@.len() == rows - 1,
                r.spec_cols() == cols - 1,
                forall|a: int, b: int|
                    0 <= a < i && 0 <= b < cols - 1 ==> #[trigger] r@[a][b] == self@[
                        if a < row {
                            a
                        } else {
                            a + 1
                        }
                    ][
                        if b < col {
                            b
                        } else {
                            b + 1
                        }
                    ],
            decreases rows - 1 - i,
        {
            let src_i = if i < row {
                i
            } else {
                i + 1
            };
            let mut j: usize = 0;
            while j < cols - 1
                invariant
                    i < rows - 1,
                    j <= cols - 1,
                    self.wf(),
                    self@.len() == rows,
                    self.spec_cols() == cols,
                    rows >= 1,
                    cols >= 1,
                    row < rows,
                    col < cols,
                    src_i == if i < row {
                        i as int
                    } else {
                        i + 1
                    },
                    r.wf(),
                    r@.len() == rows - 1,
                    r.spec_cols() == cols - 1,
                    forall|a: int, b: int|
                        0 <= a < i && 0 <= b < cols - 1 ==> #[trigger] r@[a][b] == self@[
                            if a < row {
                                a
                            } else {
                                a + 1
                            }
                        ][
                            if b < col {
                                b
                            } else {
                                b + 1
                            }
                        ],
                    forall|b: int|
                        0 <= b < j ==> #[trigger] r@[i as int][b] == self@[src_i as int][
                            if b < col {
                                b
                            } else {
                                b + 1
                            }
                        ],
                decreases cols - 1 - j,
            {
                let src_j = if j < col {
                    j
                } else {
                    j + 1
                };
                let v = self.get(src_i, src_j);
                r.set(i, j, v);
                j += 1;
            }
            i += 1;
        }
        proof {
            assert(r@ =~~= minor_spec(self@, row as int, col as int));
        }
        r
    }

    /// The minor of a three-row square matrix: the two-row matrix left
    /// after removing row `row` and column `col`.
    pub fn cofactor2x2(&self, row: usize, col: usize) -> (r: Matrix)
        requires
            self.wf(),
            self@.len() == 3,
            self.spec_cols() == 3,
            row < 3,
            col < 3,
        ensures
            r.wf(),
            r@.len() == 2,
            r.spec_cols() == 2,
            r@ == minor_spec(self@, row as int, col as int),
    {
        self.minor(row, col)
    }

    /// The minor of a two-row square matrix: the one-row matrix left after
    /// removing row `row` and column `col`.
    pub fn cofactor1x1(&self, row: usize, col: usize) -> (r: Matrix)
        requires
            self.wf(),
            self@.len() == 2,
            self.spec_cols() == 2,
            row < 2,
            col < 2,
        ensures
            r.wf(),
            r@.len() == 1,
            r.spec_cols() == 1,
            r@ == minor_spec(self@, row as int, col as int),
    {
        self.minor(row, col)
    }

    /// The determinant of a two-row matrix, by the direct formula.
    fn det2(&self) -> (r: Rational)
        requires
            self.wf(),
            self@.len() == 2,
            self.spec_cols() == 2,
            det2_fits(self@),
        ensures
            rat_ok(r@),
            r@ == det2_spec(self@),
    {
        self.get(0, 0).mul(&self.get(1, 1)).sub(&self.get(0, 1).mul(&self.get(1, 0)))
    }

    /// The determinant of a three-row matrix, by cofactor expansion along
    /// the first row.
    fn det3(&self) -> (r: Rational)
        requires
            self.wf(),
            self@.len() == 3,
            self.spec_cols() == 3,
            det3_fits(self@),
        ensures
            rat_ok(r@),
            r@ == det3_spec(self@),
    {
        let t1 = self.get(0, 0).mul(
            &self.get(1, 1).mul(&self.get(2, 2)).sub(&self.get(1, 2).mul(&self.get(2, 1))),
        );
        let t2 = self.get(0, 1).mul(
            &self.get(1, 0).mul(&self.get(2, 2)).sub(&self.get(1, 2).mul(&self.get(2, 0))),
        );
        let t3 = self.get(0, 2).mul(
            &self.get(1, 0).mul(&self.get(2, 1)).sub(&self.get(1, 1).mul(&self.get(2, 0))),
        );
        t1.sub(&t2).add(&t3)
    }

    /// The determinant of a square matrix of one to four rows: the sole
    /// entry, the direct formulas, or cofactor expansion along the first
    /// row for four rows.
    pub fn determinant(&self) -> (r: Rational)
        requires
            self.wf(),
            self@.len() == self.spec_cols(),
            1 <= self@.len() <= 4,
            det_fits(self@),
        ensures
            rat_ok(r@),
            r@ == det_spec(self@),
    {
        let (rows, _) = self.size();
        if rows == 1 {
            self.get(0, 0)
        } else if rows == 2 {
            self.det2()
        } else if rows == 3 {
            self.det3()
        } else {
            let mut acc = Rational::zero();
            let mut i: usize = 0;
            while i < 4
                invariant
                    i <= 4,
                    self.wf(),
                    self@.len() == 4,
                    self.spec_cols() == 4,
                    det4_fits(self@),
                    rat_ok(acc@),
                    acc@ == det4_sum(self@, i as int),
                decreases 4 - i,
            {
                let sign = if i % 2 == 0 {
                    Rational::one()
                } else {
                    Rational::one().neg()
                };
                proof {
                    assert(sign@ == sign_spec(i as int));
                }
                let cof = self.minor(0, i);
                let d3 = cof.det3();
                let term = sign.mul(&self.get(0, i)).mul(&d3);
                proof {
                    assert(term@ == det4_term(self@, i as int));
                }
                acc = acc.add(&term);
                i += 1;
            }
            acc
        }
    }
}

} // verus!
