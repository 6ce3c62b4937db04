//! The matrix inverse, built from cofactor minors and the determinant.
//!
//! For a square matrix of one to three rows whose determinant is nonzero,
//! each entry of the cofactor matrix is a signed minor determinant divided
//! by the determinant, and the inverse is its transpose (the adjugate
//! divided by the determinant). Larger or non-square matrices, and
//! singular ones, are reported through [`MatrixError`].

use crate::determinant::{det2_fits, det2_spec, det_fits, det_spec, minor_spec, sign_spec};
use crate::matrix::Matrix;
use crate::rational::{ndiv, nmul, rat_fits, rat_one, rdiv, rmul, Rat, Rational};
use vstd::prelude::*;

verus! {

/// Why a decomposition could not be carried out.
#[derive(Clone, Copy, Debug, PartialEq, Eq, Structural)]
pub enum MatrixError {
    /// An operation requiring a square matrix was invoked on a non-square
    /// one.
    DimensionMismatch,
    /// The matrix is larger than the closed-form formulas support.
    UnsupportedDimension,
    /// The matrix's determinant is zero, so it has no inverse.
    Singular,
}

/// The determinant of the minor at `(i, j)` of a square matrix of one to
/// three rows; for one row the minor is empty and its determinant is one.
pub open spec fn minor_det_spec(m: Seq<Seq<Rat>>, i: int, j: int) -> Rat {
    if m.len() <= 1 {
        rat_one()
    } else if m.len() == 2 {
        minor_spec(m, i, j)[0][0]
    } else {
        det2_spec(minor_spec(m, i, j))
    }
}

/// Entry `(i, j)` of the cofactor matrix divided by the determinant: the
/// signed minor determinant over the determinant.
pub open spec fn cof_entry_spec(m: Seq<Seq<Rat>>, i: int, j: int) -> Rat {
    ndiv(nmul(minor_det_spec(m, i, j), sign_spec(i + j)), det_spec(m))
}

/// Entry `(i, j)` of the inverse: the transposed cofactor-over-determinant
/// matrix.
pub open spec fn inv_entry_spec(m: Seq<Seq<Rat>>, i: int, j: int) -> Rat {
    cof_entry_spec(m, j, i)
}

/// Every intermediate value of the inverse construction is representable.
pub open spec fn inv_fits(m: Seq<Seq<Rat>>) -> bool {
    &&& det_fits(m)
    &&& forall|i: int, j: int|
        0 <= i < m.len() && 0 <= j < m.len() ==> {
            &&& (m.len() == 3 ==> det2_fits(minor_spec(m, i, j)))
            &&& rat_fits(rmul(#[trigger] minor_det_spec(m, i, j), sign_spec(i + j)))
            &&& rat_fits(rdiv(nmul(minor_det_spec(m, i, j), sign_spec(i + j)), det_spec(m)))
        }
}

/// The computed determinant: a valid scalar value denoting the
/// determinant, known nonzero.
pub open spec fn det_value_ok(d: Rat, m: Seq<Seq<Rat>>) -> bool {
    &&& crate::rational::rat_ok(d)
    &&& d == det_spec(m)
    &&& d.n != 0
}

impl Matrix {
    /// The inverse of a square matrix of one to three rows, or the error
    /// saying why there is none: `DimensionMismatch` for a non-square
    /// matrix, `UnsupportedDimension` beyond three rows, `Singular` when
    /// the determinant is zero.
    pub fn inverse(&self) -> (res: Result<Matrix, MatrixError>)
        requires
            self.wf(),
            (self@.len() == self.spec_cols() && 1 <= self@.len() <= 3) ==> inv_fits(self@),
        ensures
            res is Ok <==> (self@.len() == self.spec_cols() && 1 <= self@.len() <= 3
                && det_spec(self@).n != 0),
            self@.len() != self.spec_cols() ==> res == Err::<Matrix, MatrixError>(
                MatrixError::DimensionMismatch,
            ),
            (self@.len() == self.spec_cols() && !(1 <= self@.len() <= 3)) ==> res == Err::<
                Matrix,
                MatrixError,
            >(MatrixError::UnsupportedDimension),
            (self@.len() == self.spec_cols() && 1 <= self@.len() <= 3 && det_spec(self@).n
                == 0) ==> res == Err::<Matrix, MatrixError>(MatrixError::Singular),
            res matches Ok(r) ==> {
                &&& r.wf()
                &&& r@.len() == self@.len()
                &&& r.spec_cols() == self.spec_cols()
                &&& forall|i: int, j: int|
                    0 <= i < self@.len() && 0 <= j < self@.len() ==> #[trigger] r@[i][j]
                        == inv_entry_spec(self@, i, j)
            },
    {
        let (rows, cols) = self.size();
        if rows != cols {
            return Err(MatrixError::DimensionMismatch);
        }
        if rows < 1 || rows > 3 {
            return Err(MatrixError::UnsupportedDimension);
        }
        let det = self.determinant();
        if det.is_zero() {
            return Err(MatrixError::Singular);
        }
        let mut pre = Matrix::zero(rows, cols);
        let mut i: usize = 0;
        while i < rows
            invariant
                i <= rows,
                self.wf(),
                self@.len() == rows,
                self.spec_cols() == rows,
                1 <= rows <= 3,
                inv_fits(self@),
                det_value_ok(det@, self@),
                pre.wf(),
                pre@.len() == rows,
                pre.spec_cols() == rows,
                forall|a: int, b: int|
                    0 <= a < i && 0 <= b < rows ==> #[trigger] pre@[a][b] == cof_entry_spec(
                        self@,
                        a,
                        b,
                    ),
            decreases rows - i,
        {
            let mut j: usize = 0;
            while j < rows
                invariant
                    i < rows,
                    j <= rows,
                    self.wf(),
                    self@.len() == rows,
                    self.spec_cols() == rows,
                    1 <= rows <= 3,
                    inv_fits(self@),
                    det_value_ok(det@, self@),
                    pre.wf(),
                    pre@.len() == rows,
                    pre.spec_cols() == rows,
                    forall|a: int, b: int|
                        0 <= a < i && 0 <= b < rows ==> #[trigger] pre@[a][b] == cof_entry_spec(
                            self@,
                            a,
                            b,
                        ),
                    forall|b: int|
                        0 <= b < j ==> #[trigger] pre@[i as int][b] == cof_entry_spec(
                            self@,
                            i as int,
                            b,
                        ),
                decreases rows - j,
            {
                proof {
                    assert(rat_fits(rmul(
                        minor_det_spec(self@, i as int, j as int),
                        sign_spec(i as int + j as int),
                    )));
                }
                let cof: Rational = if rows == 1 {
                    Rational::one()
                } else if rows == 2 {
                    self.cofactor1x1(i, j).determinant()
                } else {
                    self.cofactor2x2(i, j).determinant()
                };
                proof {
                    assert(cof@ == minor_det_spec(self@, i as int, j as int));
                }
                let sign = if (i + j) % 2 == 0 {
                    Rational::one()
                } else {
                    Rational::one().neg()
                };
                proof {
                    assert(sign@ == sign_spec(i as int + j as int));
                }
                let e = cof.mul(&sign).div(&det);
                pre.set(i, j, e);
                j += 1;
            }
            i += 1;
        }
        let inv = pre.transpose();
        Ok(inv)
    }
}

} // verus!
