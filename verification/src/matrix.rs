//! Matrices of rational scalars with runtime dimensions.
//!
//! A `Matrix` owns a rectangular block of [`Rational`] entries. Its
//! mathematical value is a sequence of rows, each a sequence of [`Rat`]
//! fractions. The container and its element-wise arithmetic live here; the
//! decompositions (row echelon, determinant, inverse, rank) build on this
//! container in their own modules.

use crate::rational::{
    nadd, nmul, nsub, radd, rat_fits, rat_ok, rat_one, rat_zero, rmul, rsub, Rat, Rational,
};
use crate::vector::{dot_fits, dot_spec, Vector};
use vstd::prelude::*;

verus! {

/// Column `j` of the matrix, as a row.
pub open spec fn col_spec(m: Seq<Seq<Rat>>, j: int) -> Seq<Rat> {
    Seq::new(m.len(), |k: int| m[k][j])
}

/// Element-wise sums are representable.
pub open spec fn mat_add_fits(a: Seq<Seq<Rat>>, b: Seq<Seq<Rat>>) -> bool {
    forall|i: int, j: int|
        0 <= i < a.len() && 0 <= j < a[i].len() ==> rat_fits(radd(#[trigger] a[i][j], b[i][j]))
}

/// Element-wise differences are representable.
pub open spec fn mat_sub_fits(a: Seq<Seq<Rat>>, b: Seq<Seq<Rat>>) -> bool {
    forall|i: int, j: int|
        0 <= i < a.len() && 0 <= j < a[i].len() ==> rat_fits(rsub(#[trigger] a[i][j], b[i][j]))
}

/// Element-wise products with the scalar `k` are representable.
pub open spec fn mat_scl_fits(a: Seq<Seq<Rat>>, k: Rat) -> bool {
    forall|i: int, j: int|
        0 <= i < a.len() && 0 <= j < a[i].len() ==> rat_fits(rmul(#[trigger] a[i][j], k))
}

/// The sum of the first `k` diagonal entries, accumulated left to right
/// from zero, every partial sum in lowest terms.
pub open spec fn trace_spec(m: Seq<Seq<Rat>>, k: int) -> Rat
    decreases k,
{
    if k <= 0 {
        rat_zero()
    } else {
        nadd(trace_spec(m, k - 1), m[k - 1][k - 1])
    }
}

/// Every partial sum of the trace is representable.
pub open spec fn trace_fits(m: Seq<Seq<Rat>>, k: int) -> bool
    decreases k,
{
    if k <= 0 {
        true
    } else {
        trace_fits(m, k - 1) && rat_fits(radd(trace_spec(m, k - 1), m[k - 1][k - 1]))
    }
}

/// A prefix of a representable trace is representable.
proof fn lemma_trace_fits_prefix(m: Seq<Seq<Rat>>, k: int, n: int)
    requires
        k <= n,
        trace_fits(m, n),
    ensures
        trace_fits(m, k),
    decreases n - k,
{
    if k < n {
        lemma_trace_fits_prefix(m, k + 1, n);
    }
}

/// Every row of `m` has exactly `cols` entries.
pub open spec fn mat_rect(m: Seq<Seq<Rat>>, cols: int) -> bool {
    forall|i: int| 0 <= i < m.len() ==> (#[trigger] m[i]).len() == cols
}

/// Every entry of the row is a fraction a scalar may hold.
pub open spec fn row_ok(r: Seq<Rat>) -> bool {
    forall|j: int| 0 <= j < r.len() ==> rat_ok(#[trigger] r[j])
}

/// Every entry of `m` is a fraction a scalar may hold.
pub open spec fn mat_vals_ok(m: Seq<Seq<Rat>>) -> bool {
    forall|i: int| 0 <= i < m.len() ==> row_ok(#[trigger] m[i])
}

/// A matrix with `M` rows and `N` columns of rational scalars.
#[derive(Clone, Debug, PartialEq)]
pub struct Matrix {
    cols: usize,
    data: Vec<Vec<Rational>>,
}

impl View for Matrix {
    type V = Seq<Seq<Rat>>;

    closed spec fn view(&self) -> Seq<Seq<Rat>> {
        self.data.deep_view()
    }
}

/// How a matrix views as its rows' fractions: by element.
proof fn lemma_mat_view(d: &Vec<Vec<Rational>>)
    ensures
        d.deep_view().len() == d@.len(),
        forall|i: int| 0 <= i < d@.len() ==> (#[trigger] d.deep_view()[i]).len() == d@[i]@.len(),
        forall|i: int, j: int|
            0 <= i < d@.len() && 0 <= j < d@[i]@.len() ==> #[trigger] d.deep_view()[i][j]
                == d@[i]@[j]@,
{
    assert forall|i: int| 0 <= i < d@.len() implies (#[trigger] d.deep_view()[i]).len()
        == d@[i]@.len() by {
        assert(d.deep_view()[i] == d@[i].deep_view());
    }
    assert forall|i: int, j: int|
        0 <= i < d@.len() && 0 <= j < d@[i]@.len() implies #[trigger] d.deep_view()[i][j]
        == d@[i]@[j]@ by {
        assert(d.deep_view()[i] == d@[i].deep_view());
    }
}

impl Matrix {
    /// The column count, as contracts speak of it.
    pub closed spec fn spec_cols(&self) -> int {
        self.cols as int
    }

    /// The matrix is rectangular with the declared column count and all its
    /// entries are fractions a scalar may hold.
    pub open spec fn wf(&self) -> bool {
        &&& mat_rect(self@, self.spec_cols())
        &&& mat_vals_ok(self@)
    }

    /// Creates a matrix from its rows.
    pub fn from(data: Vec<Vec<Rational>>) -> (r: Matrix)
        requires
            data.deep_view().len() > 0,
            mat_rect(data.deep_view(), data.deep_view()[0].len() as int),
            mat_vals_ok(data.deep_view()),
        ensures
            r.wf(),
            r@ == data.deep_view(),
            r.spec_cols() == data.deep_view()[0].len(),
    {
        proof {
            lemma_mat_view(&data);
            assert(data.deep_view()[0].len() == data@[0]@.len());
        }
        let cols = data[0].len();
        let m = Matrix { cols, data };
        proof {
            assert(m@ == m.data.deep_view());
            assert(m.spec_cols() == m.data.deep_view()[0].len());
        }
        m
    }

    /// The dimensions `(rows, columns)`.
    pub fn size(&self) -> (r: (usize, usize))
        requires
            self.wf(),
        ensures
            r.0 == self@.len(),
            r.1 == self.spec_cols(),
    {
        proof {
            lemma_mat_view(&self.data);
        }
        (self.data.len(), self.cols)
    }

    /// A matrix of the given shape, filled with zero.
    pub fn zero(rows: usize, cols: usize) -> (r: Matrix)
        ensures
            r.wf(),
            r@.len() == rows,
            r.spec_cols() == cols,
            forall|i: int, j: int|
                0 <= i < rows && 0 <= j < cols ==> #[trigger] r@[i][j] == rat_zero(),
    {
        let mut data: Vec<Vec<Rational>> = Vec::new();
        let mut i: usize = 0;
        while i < rows
            invariant
                i <= rows,
                data@.len() == i,
                forall|a: int| 0 <= a < i ==> (#[trigger] data@[a]@).len() == cols,
                forall|a: int, b: int|
                    0 <= a < i && 0 <= b < cols ==> (#[trigger] data@[a]@[b])@ == rat_zero(),
            decreases rows - i,
        {
            let mut row: Vec<Rational> = Vec::new();
            let mut j: usize = 0;
            while j < cols
                invariant
                    j <= cols,
                    row@.len() == j,
                    forall|b: int| 0 <= b < j ==> (#[trigger] row@[b])@ == rat_zero(),
                decreases cols - j,
            {
                row.push(Rational::zero());
                j += 1;
            }
            data.push(row);
            i += 1;
        }
        proof {
            lemma_mat_view(&data);
            crate::rational::lemma_zero_one_ok();
        }
        Matrix { cols, data }
    }

    /// A matrix of the given shape whose entry `(i, j)` is taken from the
    /// given rows where present and is zero elsewhere.
    pub fn from_vecs(vecs: Vec<Vec<Rational>>, rows: usize, cols: usize) -> (r: Matrix)
        requires
            mat_vals_ok(vecs.deep_view()),
        ensures
            r.wf(),
            r@.len() == rows,
            r.spec_cols() == cols,
            forall|i: int, j: int|
                0 <= i < rows && 0 <= j < cols ==> #[trigger] r@[i][j] == if i
                    < vecs.deep_view().len() && j < vecs.deep_view()[i].len() {
                    vecs.deep_view()[i][j]
                } else {
                    rat_zero()
                },
    {
        proof {
            lemma_mat_view(&vecs);
        }
        let mut data: Vec<Vec<Rational>> = Vec::new();
        let mut i: usize = 0;
        while i < rows
            invariant
                i <= rows,
                mat_vals_ok(vecs.deep_view()),
                vecs.deep_view().len() == vecs@.len(),
                forall|a: int| 0 <= a < vecs@.len() ==> (#[trigger] vecs.deep_view()[a]).len()
                    == vecs@[a]@.len(),
                data@.len() == i,
                forall|a: int| 0 <= a < i ==> (#[trigger] data@[a]@).len() == cols,
                forall|a: int, b: int|
                    0 <= a < i && 0 <= b < cols ==> (#[trigger] data@[a]@[b])@ == if a
                        < vecs.deep_view().len() && b < vecs.deep_view()[a].len() {
                        vecs.deep_view()[a][b]
                    } else {
                        rat_zero()
                    },
            decreases rows - i,
        {
            let mut row: Vec<Rational> = Vec::new();
            let mut j: usize = 0;
            while j < cols
                invariant
                    j <= cols,
                    i < rows,
                    mat_vals_ok(vecs.deep_view()),
                    vecs.deep_view().len() == vecs@.len(),
                    forall|a: int| 0 <= a < vecs@.len() ==> (#[trigger] vecs.deep_view()[a]).len()
                        == vecs@[a]@.len(),
                    row@.len() == j,
                    forall|b: int|
                        0 <= b < j ==> (#[trigger] row@[b])@ == if (i as int)
                            < vecs.deep_view().len() && b < vecs.deep_view()[i as int].len() {
                            vecs.deep_view()[i as int][b]
                        } else {
                            rat_zero()
                        },
                decreases cols - j,
            {
                if i < vecs.len() && j < vecs[i].len() {
                    let v = vecs[i][j];
                    proof {
                        lemma_mat_view(&vecs);
                    }
                    row.push(v);
                } else {
                    row.push(Rational::zero());
                }
                j += 1;
            }
            data.push(row);
            i += 1;
        }
        proof {
            lemma_mat_view(&data);
            crate::rational::lemma_zero_one_ok();
        }
        Matrix { cols, data }
    }

    /// The identity matrix of the given size.
    pub fn identity(n: usize) -> (r: Matrix)
        ensures
            r.wf(),
            r@.len() == n,
            r.spec_cols() == n,
            forall|i: int, j: int|
                0 <= i < n && 0 <= j < n ==> #[trigger] r@[i][j] == if i == j {
                    rat_one()
                } else {
                    rat_zero()
                },
    {
        let mut m = Matrix::zero(n, n);
        let mut i: usize = 0;
        while i < n
            invariant
                i <= n,
                m.wf(),
                m@.len() == n,
                m.spec_cols() == n,
                forall|a: int, b: int|
                    0 <= a < n && 0 <= b < n ==> #[trigger] m@[a][b] == if a == b && a < i {
                        rat_one()
                    } else {
                        rat_zero()
                    },
            decreases n - i,
        {
            m.set(i, i, Rational::one());
            i += 1;
        }
        m
    }

    /// An owned copy with the same entries.
    pub fn duplicate(&self) -> (r: Matrix)
        requires
            self.wf(),
        ensures
            r.wf(),
            r@ == self@,
            r.spec_cols() == self.spec_cols(),
    {
        let (rows, cols) = self.size();
        let mut r = Matrix::zero(rows, cols);
        let mut i: usize = 0;
        while i < rows
            invariant
                i <= rows,
                self.wf(),
                self@.len() == rows,
                self.spec_cols() == cols,
                r.wf(),
                r@.len() == rows,
                r.spec_cols() == cols,
                forall|a: int, b: int|
                    0 <= a < i && 0 <= b < cols ==> #[trigger] r@[a][b] == self@[a][b],
            decreases rows - i,
        {
            let mut j: usize = 0;
            while j < cols
                invariant
                    i < rows,
                    j <= cols,
                    self.wf(),
                    self@.len() == rows,
                    self.spec_cols() == cols,
                    r.wf(),
                    r@.len() == rows,
                    r.spec_cols() == cols,
                    forall|a: int, b: int|
                        0 <= a < i && 0 <= b < cols ==> #[trigger] r@[a][b] == self@[a][b],
                    forall|b: int| 0 <= b < j ==> #[trigger] r@[i as int][b] == self@[i as int][b],
                decreases cols - j,
            {
                let v = self.get(i, j);
                r.set(i, j, v);
                j += 1;
            }
            i += 1;
        }
        proof {
            assert(r@ =~~= self@);
        }
        r
    }

    /// The entry at `(i, j)`.
    pub fn get(&self, i: usize, j: usize) -> (r: Rational)
        requires
            self.wf(),
            i < self@.len(),
            j < self.spec_cols(),
        ensures
            r@ == self@[i as int][j as int],
    {
        proof {
            lemma_mat_view(&self.data);
            assert(self@[i as int].len() == self.spec_cols());
            assert(self.data.deep_view()[i as int].len() == self.data@[i as int]@.len());
        }
        self.data[i][j]
    }

    /// Replaces the entry at `(i, j)`.
    pub fn set(&mut self, i: usize, j: usize, v: Rational)
        requires
            old(self).wf(),
            i < old(self)@.len(),
            j < old(self).spec_cols(),
            rat_ok(v@),
        ensures
            final(self).wf(),
            final(self).spec_cols() == old(self).spec_cols(),
            final(self)@ == old(self)@.update(
                i as int,
                old(self)@[i as int].update(j as int, v@),
            ),
    {
        proof {
            lemma_mat_view(&self.data);
            assert(self@[i as int].len() == self.spec_cols());
            assert(self.data.deep_view()[i as int].len() == self.data@[i as int]@.len());
        }
        self.data[i][j] = v;
        proof {
            lemma_mat_view(&self.data);
            assert(self@ =~~= old(self)@.update(
                i as int,
                old(self)@[i as int].update(j as int, v@),
            ));
        }
    }

    /// Adds `other` element-wise, in place.
    pub fn add(&mut self, other: &Matrix)
        requires
            old(self).wf(),
            other.wf(),
            old(self)@.len() == other@.len(),
            old(self).spec_cols() == other.spec_cols(),
            mat_add_fits(old(self)@, other@),
        ensures
            final(self).wf(),
            final(self)@.len() == old(self)@.len(),
            final(self).spec_cols() == old(self).spec_cols(),
            forall|i: int, j: int|
                0 <= i < old(self)@.len() && 0 <= j < old(self).spec_cols()
                    ==> #[trigger] final(self)@[i][j] == nadd(old(self)@[i][j], other@[i][j]),
    {
        let (rows, cols) = self.size();
        let mut i: usize = 0;
        while i < rows
            invariant
                i <= rows,
                self.wf(),
                old(self).wf(),
                other.wf(),
                self@.len() == rows,
                old(self)@.len() == rows,
                other@.len() == rows,
                self.spec_cols() == cols,
                old(self).spec_cols() == cols,
                other.spec_cols() == cols,
                mat_add_fits(old(self)@, other@),
                forall|a: int, b: int|
                    0 <= a < i && 0 <= b < cols ==> #[trigger] self@[a][b] == nadd(
                        old(self)@[a][b],
                        other@[a][b],
                    ),
                forall|a: int, b: int|
                    i <= a < rows && 0 <= b < cols ==> #[trigger] self@[a][b] == old(
                        self,
                    )@[a][b],
            decreases rows - i,
        {
            let mut j: usize = 0;
            while j < cols
                invariant
                    i < rows,
                    j <= cols,
                    self.wf(),
                    old(self).wf(),
                    other.wf(),
                    self@.len() == rows,
                    old(self)@.len() == rows,
                    other@.len() == rows,
                    self.spec_cols() == cols,
                    old(self).spec_cols() == cols,
                    other.spec_cols() == cols,
                    mat_add_fits(old(self)@, other@),
                    forall|a: int, b: int|
                        0 <= a < i && 0 <= b < cols ==> #[trigger] self@[a][b] == nadd(
                            old(self)@[a][b],
                            other@[a][b],
                        ),
                    forall|b: int|
                        0 <= b < j ==> #[trigger] self@[i as int][b] == nadd(
                            old(self)@[i as int][b],
                            other@[i as int][b],
                        ),
                    forall|b: int|
                        j <= b < cols ==> #[trigger] self@[i as int][b] == old(
                            self,
                        )@[i as int][b],
                    forall|a: int, b: int|
                        i < a < rows && 0 <= b < cols ==> #[trigger] self@[a][b] == old(
                            self,
                        )@[a][b],
                decreases cols - j,
            {
                let v = self.get(i, j).add(&other.get(i, j));
                self.set(i, j, v);
                j += 1;
            }
            i += 1;
        }
    }

    /// Subtracts `other` element-wise, in place.
    pub fn sub(&mut self, other: &Matrix)
        requires
            old(self).wf(),
            other.wf(),
            old(self)@.len() == other@.len(),
            old(self).spec_cols() == other.spec_cols(),
            mat_sub_fits(old(self)@, other@),
        ensures
            final(self).wf(),
            final(self)@.len() == old(self)@.len(),
            final(self).spec_cols() == old(self).spec_cols(),
            forall|i: int, j: int|
                0 <= i < old(self)@.len() && 0 <= j < old(self).spec_cols()
                    ==> #[trigger] final(self)@[i][j] == nsub(old(self)@[i][j], other@[i][j]),
    {
        let (rows, cols) = self.size();
        let mut i: usize = 0;
        while i < rows
            invariant
                i <= rows,
                self.wf(),
                old(self).wf(),
                other.wf(),
                self@.len() == rows,
                old(self)@.len() == rows,
                other@.len() == rows,
                self.spec_cols() == cols,
                old(self).spec_cols() == cols,
                other.spec_cols() == cols,
                mat_sub_fits(old(self)@, other@),
                forall|a: int, b: int|
                    0 <= a < i && 0 <= b < cols ==> #[trigger] self@[a][b] == nsub(
                        old(self)@[a][b],
                        other@[a][b],
                    ),
                forall|a: int, b: int|
                    i <= a < rows && 0 <= b < cols ==> #[trigger] self@[a][b] == old(
                        self,
                    )@[a][b],
            decreases rows - i,
        {
            let mut j: usize = 0;
            while j < cols
                invariant
                    i < rows,
                    j <= cols,
                    self.wf(),
                    old(self).wf(),
                    other.wf(),
                    self@.len() == rows,
                    old(self)@.len() == rows,
                    other@.len() == rows,
                    self.spec_cols() == cols,
                    old(self).spec_cols() == cols,
                    other.spec_cols() == cols,
                    mat_sub_fits(old(self)@, other@),
                    forall|a: int, b: int|
                        0 <= a < i && 0 <= b < cols ==> #[trigger] self@[a][b] == nsub(
                            old(self)@[a][b],
                            other@[a][b],
                        ),
                    forall|b: int|
                        0 <= b < j ==> #[trigger] self@[i as int][b] == nsub(
                            old(self)@[i as int][b],
                            other@[i as int][b],
                        ),
                    forall|b: int|
                        j <= b < cols ==> #[trigger] self@[i as int][b] == old(
                            self,
                        )@[i as int][b],
                    forall|a: int, b: int|
                        i < a < rows && 0 <= b < cols ==> #[trigger] self@[a][b] == old(
                            self,
                        )@[a][b],
                decreases cols - j,
            {
                let v = self.get(i, j).sub(&other.get(i, j));
                self.set(i, j, v);
                j += 1;
            }
            i += 1;
        }
    }

    /// Multiplies every entry by `scalar`, in place.
    pub fn scl(&mut self, scalar: Rational)
        requires
            old(self).wf(),
            rat_ok(scalar@),
            mat_scl_fits(old(self)@, scalar@),
        ensures
            final(self).wf(),
            final(self)@.len() == old(self)@.len(),
            final(self).spec_cols() == old(self).spec_cols(),
            forall|i: int, j: int|
                0 <= i < old(self)@.len() && 0 <= j < old(self).spec_cols()
                    ==> #[trigger] final(self)@[i][j] == nmul(old(self)@[i][j], scalar@),
    {
        let (rows, cols) = self.size();
        let mut i: usize = 0;
        while i < rows
            invariant
                i <= rows,
                self.wf(),
                old(self).wf(),
                rat_ok(scalar@),
                self@.len() == rows,
                old(self)@.len() == rows,
                self.spec_cols() == cols,
                old(self).spec_cols() == cols,
                mat_scl_fits(old(self)@, scalar@),
                forall|a: int, b: int|
                    0 <= a < i && 0 <= b < cols ==> #[trigger] self@[a][b] == nmul(
                        old(self)@[a][b],
                        scalar@,
                    ),
                forall|a: int, b: int|
                    i <= a < rows && 0 <= b < cols ==> #[trigger] self@[a][b] == old(
                        self,
                    )@[a][b],
            decreases rows - i,
        {
            let mut j: usize = 0;
            while j < cols
                invariant
                    i < rows,
                    j <= cols,
                    self.wf(),
                    old(self).wf(),
                    rat_ok(scalar@),
                    self@.len() == rows,
                    old(self)@.len() == rows,
                    self.spec_cols() == cols,
                    old(self).spec_cols() == cols,
                    mat_scl_fits(old(self)@, scalar@),
                    forall|a: int, b: int|
                        0 <= a < i && 0 <= b < cols ==> #[trigger] self@[a][b] == nmul(
                            old(self)@[a][b],
                            scalar@,
                        ),
                    forall|b: int|
                        0 <= b < j ==> #[trigger] self@[i as int][b] == nmul(
                            old(self)@[i as int][b],
                            scalar@,
                        ),
                    forall|b: int|
                        j <= b < cols ==> #[trigger] self@[i as int][b] == old(
                            self,
                        )@[i as int][b],
                    forall|a: int, b: int|
                        i < a < rows && 0 <= b < cols ==> #[trigger] self@[a][b] == old(
                            self,
                        )@[a][b],
                decreases cols - j,
            {
                let v = self.get(i, j).mul(&scalar);
                self.set(i, j, v);
                j += 1;
            }
            i += 1;
        }
    }

    /// The transpose: entry `(j, i)` of the result is entry `(i, j)` of
    /// `self`.
    pub fn transpose(&self) -> (r: Matrix)
        requires
            self.wf(),
        ensures
            r.wf(),
            r@.len() == self.spec_cols(),
            r.spec_cols() == self@.len(),
            forall|i: int, j: int|
                0 <= i < self@.len() && 0 <= j < self.spec_cols() ==> #[trigger] r@[j][i]
                    == self@[i][j],
    {
        let (rows, cols) = self.size();
        let mut r = Matrix::zero(cols, rows);
        let mut i: usize = 0;
        while i < rows
            invariant
                i <= rows,
                self.wf(),
                self@.len() == rows,
                self.spec_cols() == cols,
                r.wf(),
                r@.len() == cols,
                r.spec_cols() == rows,
                forall|a: int, b: int|
                    0 <= a < i && 0 <= b < cols ==> #[trigger] r@[b][a] == self@[a][b],
            decreases rows - i,
        {
            let mut j: usize = 0;
            while j < cols
                invariant
                    i < rows,
                    j <= cols,
                    self.wf(),
                    self@.len() == rows,
                    self.spec_cols() == cols,
                    r.wf(),
                    r@.len() == cols,
                    r.spec_cols() == rows,
                    forall|a: int, b: int|
                        0 <= a < i && 0 <= b < cols ==> #[trigger] r@[b][a] == self@[a][b],
                    forall|b: int| 0 <= b < j ==> #[trigger] r@[b][i as int] == self@[i as int][b],
                decreases cols - j,
            {
                let v = self.get(i, j);
                r.set(j, i, v);
                j += 1;
            }
            i += 1;
        }
        r
    }

    /// The trace of a square matrix: the sum of its diagonal entries.
    pub fn trace(&self) -> (r: Rational)
        requires
            self.wf(),
            self@.len() == self.spec_cols(),
            trace_fits(self@, self@.len() as int),
        ensures
            rat_ok(r@),
            r@ == trace_spec(self@, self@.len() as int),
    {
        let (rows, _) = self.size();
        let mut acc = Rational::zero();
        let mut i: usize = 0;
        while i < rows
            invariant
                i <= rows,
                self.wf(),
                self@.len() == rows,
                self.spec_cols() == rows,
                trace_fits(self@, rows as int),
                rat_ok(acc@),
                acc@ == trace_spec(self@, i as int),
            decreases rows - i,
        {
            proof {
                lemma_trace_fits_prefix(self@, i as int + 1, rows as int);
            }
            let d = self.get(i, i);
            acc = acc.add(&d);
            i += 1;
        }
        acc
    }

    /// The matrix applied to a vector: entry `i` of the result is the dot
    /// product of row `i` with the vector.
    pub fn mul_vec(&self, vec: &Vector) -> (r: Vector)
        requires
            self.wf(),
            vec.wf(),
            self.spec_cols() == vec@.len(),
            forall|i: int|
                0 <= i < self@.len() ==> dot_fits(#[trigger] self@[i], vec@, vec@.len() as int),
        ensures
            r.wf(),
            r@.len() == self@.len(),
            forall|i: int|
                0 <= i < self@.len() ==> #[trigger] r@[i] == dot_spec(
                    self@[i],
                    vec@,
                    vec@.len() as int,
                ),
    {
        let (rows, cols) = self.size();
        let mut r = Vector::zero(rows);
        let mut i: usize = 0;
        while i < rows
            invariant
                i <= rows,
                self.wf(),
                vec.wf(),
                self@.len() == rows,
                self.spec_cols() == cols,
                vec@.len() == cols,
                forall|a: int|
                    0 <= a < rows ==> dot_fits(#[trigger] self@[a], vec@, cols as int),
                r.wf(),
                r@.len() == rows,
                forall|a: int|
                    0 <= a < i ==> #[trigger] r@[a] == dot_spec(self@[a], vec@, cols as int),
            decreases rows - i,
        {
            let d = self.row_dot(i, vec);
            r.set(i, d);
            i += 1;
        }
        r
    }

    /// The dot product of row `i` with the vector.
    fn row_dot(&self, i: usize, vec: &Vector) -> (r: Rational)
        requires
            self.wf(),
            vec.wf(),
            i < self@.len(),
            self.spec_cols() == vec@.len(),
            dot_fits(self@[i as int], vec@, vec@.len() as int),
        ensures
            rat_ok(r@),
            r@ == dot_spec(self@[i as int], vec@, vec@.len() as int),
    {
        let cols = self.cols;
        proof {
            lemma_mat_view(&self.data);
        }
        let mut acc = Rational::zero();
        let mut k: usize = 0;
        while k < cols
            invariant
                k <= cols,
                self.wf(),
                vec.wf(),
                i < self@.len(),
                self.spec_cols() == cols,
                vec@.len() == cols,
                dot_fits(self@[i as int], vec@, cols as int),
                rat_ok(acc@),
                acc@ == dot_spec(self@[i as int], vec@, k as int),
            decreases cols - k,
        {
            proof {
                lemma_dot_fits_prefix(self@[i as int], vec@, k as int + 1, cols as int);
            }
            let p = self.get(i, k).mul(&vec.get(k));
            acc = acc.add(&p);
            k += 1;
        }
        acc
    }

    /// The matrix product: entry `(i, j)` of the result is the dot product
    /// of row `i` of `self` with column `j` of `mat`.
    pub fn mul_mat(&self, mat: &Matrix) -> (r: Matrix)
        requires
            self.wf(),
            mat.wf(),
            self.spec_cols() == mat@.len(),
            forall|i: int, j: int|
                0 <= i < self@.len() && 0 <= j < mat.spec_cols() ==> dot_fits(
                    #[trigger] self@[i],
                    #[trigger] col_spec(mat@, j),
                    mat@.len() as int,
                ),
        ensures
            r.wf(),
            r@.len() == self@.len(),
            r.spec_cols() == mat.spec_cols(),
            forall|i: int, j: int|
                0 <= i < self@.len() && 0 <= j < mat.spec_cols() ==> #[trigger] r@[i][j]
                    == dot_spec(self@[i], col_spec(mat@, j), mat@.len() as int),
    {
        let (rows, inner) = self.size();
        let (_, cols) = mat.size();
        let mut r = Matrix::zero(rows, cols);
        let mut i: usize = 0;
        while i < rows
            invariant
                i <= rows,
                self.wf(),
                mat.wf(),
                self@.len() == rows,
                self.spec_cols() == inner,
                mat@.len() == inner,
                mat.spec_cols() == cols,
                forall|a: int, b: int|
                    0 <= a < rows && 0 <= b < cols ==> dot_fits(
                        #[trigger] self@[a],
                        #[trigger] col_spec(mat@, b),
                        inner as int,
                    ),
                r.wf(),
                r@.len() == rows,
                r.spec_cols() == cols,
                forall|a: int, b: int|
                    0 <= a < i && 0 <= b < cols ==> #[trigger] r@[a][b] == dot_spec(
                        self@[a],
                        col_spec(mat@, b),
                        inner as int,
                    ),
            decreases rows - i,
        {
            let mut j: usize = 0;
            while j < cols
                invariant
                    i < rows,
                    j <= cols,
                    self.wf(),
                    mat.wf(),
                    self@.len() == rows,
                    self.spec_cols() == inner,
                    mat@.len() == inner,
                    mat.spec_cols() == cols,
                    forall|a: int, b: int|
                        0 <= a < rows && 0 <= b < cols ==> dot_fits(
                            #[trigger] self@[a],
                            #[trigger] col_spec(mat@, b),
                            inner as int,
                        ),
                    r.wf(),
                    r@.len() == rows,
                    r.spec_cols() == cols,
                    forall|a: int, b: int|
                        0 <= a < i && 0 <= b < cols ==> #[trigger] r@[a][b] == dot_spec(
                            self@[a],
                            col_spec(mat@, b),
                            inner as int,
                        ),
                    forall|b: int|
                        0 <= b < j ==> #[trigger] r@[i as int][b] == dot_spec(
                            self@[i as int],
                            col_spec(mat@, b),
                            inner as int,
                        ),
                decreases cols - j,
            {
                let mut acc = Rational::zero();
                let mut k: usize = 0;
                while k < inner
                    invariant
                        i < rows,
                        j < cols,
                        k <= inner,
                        self.wf(),
                        mat.wf(),
                        self@.len() == rows,
                        self.spec_cols() == inner,
                        mat@.len() == inner,
                        mat.spec_cols() == cols,
                        forall|a: int, b: int|
                            0 <= a < rows && 0 <= b < cols ==> dot_fits(
                                #[trigger] self@[a],
                                #[trigger] col_spec(mat@, b),
                                inner as int,
                            ),
                        rat_ok(acc@),
                        acc@ == dot_spec(self@[i as int], col_spec(mat@, j as int), k as int),
                    decreases inner - k,
                {
                    proof {
                        lemma_dot_fits_prefix(
                            self@[i as int],
                            col_spec(mat@, j as int),
                            k as int + 1,
                            inner as int,
                        );
                        assert(col_spec(mat@, j as int)[k as int] == mat@[k as int][j as int]);
                    }
                    let p = self.get(i, k).mul(&mat.get(k, j));
                    acc = acc.add(&p);
                    k += 1;
                }
                r.set(i, j, acc);
                j += 1;
            }
            i += 1;
        }
        r
    }
}

/// A prefix of a representable dot product is representable.
proof fn lemma_dot_fits_prefix(a: Seq<Rat>, b: Seq<Rat>, k: int, n: int)
    requires
        k <= n,
        dot_fits(a, b, n),
    ensures
        dot_fits(a, b, k),
    decreases n - k,
{
    if k < n {
        lemma_dot_fits_prefix(a, b, k + 1, n);
    }
}

} // verus!
