//! Gaussian elimination to reduced row-echelon form, and the rank.
//!
//! The algorithm keeps a pivot column cursor. For each row in turn it finds
//! the first column at or after the cursor holding a nonzero entry at or
//! below that row (scanning downward), swaps that entry's row up, divides
//! the row by the pivot entry, subtracts multiples of it from every other
//! row to clear the pivot column, and advances cursor and row. When no
//! pivot remains the matrix is left as it stands.
//!
//! The spec functions here mirror that process step by step over fraction
//! sequences, so [`Matrix::row_echelon`] can promise its exact result; the
//! rank is the number of nonzero rows of that result.

use crate::matrix::{mat_rect, mat_vals_ok, Matrix};
use crate::rational::{
    ndiv, nmul, nsub, rat_fits, rat_ok, rdiv, rmul, rsub, Rat, Rational,
};
use vstd::prelude::*;

verus! {

/// The first row at or below `i` whose entry in column `p` is nonzero.
pub open spec fn scan_col(m: Seq<Seq<Rat>>, p: int, i: int) -> Option<int>
    decreases m.len() - i,
{
    if i < 0 || i >= m.len() {
        None
    } else if m[i][p].n != 0 {
        Some(i)
    } else {
        scan_col(m, p, i + 1)
    }
}

/// The first column at or after `p` holding a nonzero entry at or below row
/// `r`, paired with that entry's row.
pub open spec fn find_pivot(m: Seq<Seq<Rat>>, r: int, p: int, cols: int) -> Option<(int, int)>
    decreases cols - p,
{
    if p < 0 || p >= cols {
        None
    } else {
        match scan_col(m, p, r) {
            Some(i) => Some((p, i)),
            None => find_pivot(m, r, p + 1, cols),
        }
    }
}

/// Rows `r` and `i` exchanged.
pub open spec fn swap_rows_spec(m: Seq<Seq<Rat>>, r: int, i: int) -> Seq<Seq<Rat>> {
    m.update(r, m[i]).update(i, m[r])
}

/// Row `r` divided entry by entry by `d`.
pub open spec fn scale_row_spec(m: Seq<Seq<Rat>>, r: int, d: Rat) -> Seq<Seq<Rat>> {
    m.update(r, Seq::new(m[r].len(), |j: int| ndiv(m[r][j], d)))
}

/// Every row but `r` cleared in column `p`: from each other row, its own
/// column-`p` entry times row `r` is subtracted.
pub open spec fn eliminate_spec(m: Seq<Seq<Rat>>, r: int, p: int) -> Seq<Seq<Rat>> {
    Seq::new(
        m.len(),
        |i: int|
            if i == r {
                m[i]
            } else {
                Seq::new(m[i].len(), |j: int| nsub(m[i][j], nmul(m[i][p], m[r][j])))
            },
    )
}

/// The elimination state from row `r` and pivot column `p` on: one pivot
/// step per round until rows, columns or pivots run out.
pub open spec fn rref_from(m: Seq<Seq<Rat>>, r: int, p: int, rows: int, cols: int) -> Seq<
    Seq<Rat>,
>
    decreases rows - r,
{
    if r < 0 || r >= rows || p >= cols {
        m
    } else {
        match find_pivot(m, r, p, cols) {
            None => m,
            Some(pi) => {
                let m1 = swap_rows_spec(m, r, pi.1);
                let m2 = scale_row_spec(m1, r, m1[r][pi.0]);
                let m3 = eliminate_spec(m2, r, pi.0);
                rref_from(m3, r + 1, pi.0 + 1, rows, cols)
            },
        }
    }
}

/// The reduced row-echelon form of `m`, as Gaussian elimination with
/// downward pivot search produces it.
pub open spec fn rref_spec(m: Seq<Seq<Rat>>, cols: int) -> Seq<Seq<Rat>> {
    rref_from(m, 0, 0, m.len() as int, cols)
}

/// Every quotient of a row division step is representable.
pub open spec fn div_row_fits(row: Seq<Rat>, d: Rat) -> bool {
    forall|j: int| 0 <= j < row.len() ==> rat_fits(rdiv(#[trigger] row[j], d))
}

/// Every product and difference of an elimination step is representable.
pub open spec fn elim_fits(m: Seq<Seq<Rat>>, r: int, p: int) -> bool {
    forall|i: int, j: int|
        0 <= i < m.len() && i != r && 0 <= j < m[i].len() ==> rat_fits(
            rmul(m[i][p], m[r][j]),
        ) && rat_fits(rsub(#[trigger] m[i][j], nmul(m[i][p], m[r][j])))
}

/// Every intermediate value of the whole elimination, from row `r` and
/// pivot column `p` on, is representable.
pub open spec fn rref_fits(m: Seq<Seq<Rat>>, r: int, p: int, rows: int, cols: int) -> bool
    decreases rows - r,
{
    if r < 0 || r >= rows || p >= cols {
        true
    } else {
        match find_pivot(m, r, p, cols) {
            None => true,
            Some(pi) => {
                let m1 = swap_rows_spec(m, r, pi.1);
                let m2 = scale_row_spec(m1, r, m1[r][pi.0]);
                &&& div_row_fits(m1[r], m1[r][pi.0])
                &&& elim_fits(m2, r, pi.0)
                &&& rref_fits(eliminate_spec(m2, r, pi.0), r + 1, pi.0 + 1, rows, cols)
            },
        }
    }
}

/// Every entry of the row denotes zero.
pub open spec fn row_is_zero(row: Seq<Rat>) -> bool {
    forall|j: int| 0 <= j < row.len() ==> (#[trigger] row[j]).n == 0
}

/// How many of the first `k` rows are not all zero.
pub open spec fn count_nonzero_rows(m: Seq<Seq<Rat>>, k: int) -> int
    decreases k,
{
    if k <= 0 {
        0
    } else {
        count_nonzero_rows(m, k - 1) + (if row_is_zero(m[k - 1]) {
            0int
        } else {
            1int
        })
    }
}

/// What `find_pivot` returns: a position inside the matrix, at or after the
/// cursor, with a nonzero entry.
pub proof fn lemma_find_pivot_some(m: Seq<Seq<Rat>>, r: int, p: int, cols: int, pi: (int, int))
    requires
        0 <= r,
        0 <= p,
        find_pivot(m, r, p, cols) == Some(pi),
    ensures
        p <= pi.0 < cols,
        r <= pi.1 < m.len(),
        m[pi.1][pi.0].n != 0,
    decreases cols - p,
{
    if p < cols {
        match scan_col(m, p, r) {
            Some(i) => {
                lemma_scan_col_some(m, p, r, i);
            },
            None => {
                lemma_find_pivot_some(m, r, p + 1, cols, pi);
            },
        }
    }
}

/// What `scan_col` returns: a row inside the matrix, at or below the start,
/// with a nonzero entry in the column.
pub proof fn lemma_scan_col_some(m: Seq<Seq<Rat>>, p: int, i0: int, i: int)
    requires
        0 <= i0,
        scan_col(m, p, i0) == Some(i),
    ensures
        i0 <= i < m.len(),
        m[i][p].n != 0,
    decreases m.len() - i0,
{
    if i0 < m.len() && m[i0][p].n == 0 {
        lemma_scan_col_some(m, p, i0 + 1, i);
    }
}

impl Matrix {
    /// Exchanges rows `r` and `i` in place.
    fn swap_rows(&mut self, r: usize, i: usize)
        requires
            old(self).wf(),
            r < old(self)@.len(),
            i < old(self)@.len(),
        ensures
            final(self).wf(),
            final(self).spec_cols() == old(self).spec_cols(),
            final(self)@ == swap_rows_spec(old(self)@, r as int, i as int),
    {
        let (_, cols) = self.size();
        let mut j: usize = 0;
        while j < cols
            invariant
                j <= cols,
                self.wf(),
                old(self).wf(),
                self@.len() == old(self)@.len(),
                r < self@.len(),
                i < self@.len(),
                self.spec_cols() == cols,
                old(self).spec_cols() == cols,
                forall|b: int|
                    0 <= b < j ==> #[trigger] self@[r as int][b] == old(self)@[i as int][b],
                forall|b: int|
                    0 <= b < j ==> #[trigger] self@[i as int][b] == old(self)@[r as int][b],
                forall|b: int|
                    j <= b < cols ==> #[trigger] self@[r as int][b] == old(self)@[r as int][b],
                forall|b: int|
                    j <= b < cols ==> #[trigger] self@[i as int][b] == old(self)@[i as int][b],
                forall|a: int, b: int|
                    0 <= a < self@.len() && a != r && a != i && 0 <= b < cols
                        ==> #[trigger] self@[a][b] == old(self)@[a][b],
            decreases cols - j,
        {
            let x = self.get(r, j);
            let y = self.get(i, j);
            self.set(r, j, y);
            self.set(i, j, x);
            j += 1;
        }
        proof {
            assert(self@ =~~= swap_rows_spec(old(self)@, r as int, i as int));
        }
    }

    /// Divides row `r` entry by entry by `d`, in place.
    fn scale_row(&mut self, r: usize, d: Rational)
        requires
            old(self).wf(),
            r < old(self)@.len(),
            rat_ok(d@),
            d@.n != 0,
            div_row_fits(old(self)@[r as int], d@),
        ensures
            final(self).wf(),
            final(self).spec_cols() == old(self).spec_cols(),
            final(self)@ == scale_row_spec(old(self)@, r as int, d@),
    {
        let (_, cols) = self.size();
        let mut j: usize = 0;
        while j < cols
            invariant
                j <= cols,
                self.wf(),
                old(self).wf(),
                self@.len() == old(self)@.len(),
                r < self@.len(),
                self.spec_cols() == cols,
                old(self).spec_cols() == cols,
                rat_ok(d@),
                d@.n != 0,
                div_row_fits(old(self)@[r as int], d@),
                forall|b: int|
                    0 <= b < j ==> #[trigger] self@[r as int][b] == ndiv(
                        old(self)@[r as int][b],
                        d@,
                    ),
                forall|b: int|
                    j <= b < cols ==> #[trigger] self@[r as int][b] == old(self)@[r as int][b],
                forall|a: int, b: int|
                    0 <= a < self@.len() && a != r && 0 <= b < cols ==> #[trigger] self@[a][b]
                        == old(self)@[a][b],
            decreases cols - j,
        {
            let v = self.get(r, j).div(&d);
            self.set(r, j, v);
            j += 1;
        }
        proof {
            assert(self@ =~~= scale_row_spec(old(self)@, r as int, d@));
        }
    }

    /// Clears column `p` in every row but `r`, in place: from each other
    /// row, its own column-`p` entry times row `r` is subtracted.
    fn eliminate(&mut self, r: usize, p: usize)
        requires
            old(self).wf(),
            r < old(self)@.len(),
            p < old(self).spec_cols(),
            elim_fits(old(self)@, r as int, p as int),
        ensures
            final(self).wf(),
            final(self).spec_cols() == old(self).spec_cols(),
            final(self)@ == eliminate_spec(old(self)@, r as int, p as int),
    {
        let (rows, cols) = self.size();
        let mut i: usize = 0;
        while i < rows
            invariant
                i <= rows,
                self.wf(),
                old(self).wf(),
                self@.len() == rows,
                old(self)@.len() == rows,
                r < rows,
                p < cols,
                self.spec_cols() == cols,
                old(self).spec_cols() == cols,
                elim_fits(old(self)@, r as int, p as int),
                forall|a: int, b: int|
                    0 <= a < i && a != r && 0 <= b < cols ==> #[trigger] self@[a][b] == nsub(
                        old(self)@[a][b],
                        nmul(old(self)@[a][p as int], old(self)@[r as int][b]),
                    ),
                forall|a: int, b: int|
                    i <= a < rows && 0 <= b < cols ==> #[trigger] self@[a][b] == old(
                        self,
                    )@[a][b],
                forall|b: int|
                    0 <= b < cols ==> #[trigger] self@[r as int][b] == old(self)@[r as int][b],
            decreases rows - i,
        {
            if i != r {
                let h = self.get(i, p);
                let mut k: usize = 0;
                while k < cols
                    invariant
                        i < rows,
                        i != r,
                        k <= cols,
                        self.wf(),
                        old(self).wf(),
                        self@.len() == rows,
                        old(self)@.len() == rows,
                        r < rows,
                        p < cols,
                        self.spec_cols() == cols,
                        old(self).spec_cols() == cols,
                        elim_fits(old(self)@, r as int, p as int),
                        h@ == old(self)@[i as int][p as int],
                        rat_ok(h@),
                        forall|a: int, b: int|
                            0 <= a < i && a != r && 0 <= b < cols ==> #[trigger] self@[a][b]
                                == nsub(
                                old(self)@[a][b],
                                nmul(old(self)@[a][p as int], old(self)@[r as int][b]),
                            ),
                        forall|b: int|
                            0 <= b < k ==> #[trigger] self@[i as int][b] == nsub(
                                old(self)@[i as int][b],
                                nmul(old(self)@[i as int][p as int], old(self)@[r as int][b]),
                            ),
                        forall|b: int|
                            k <= b < cols ==> #[trigger] self@[i as int][b] == old(
                                self,
                            )@[i as int][b],
                        forall|a: int, b: int|
                            i < a < rows && 0 <= b < cols ==> #[trigger] self@[a][b] == old(
                                self,
                            )@[a][b],
                        forall|b: int|
                            0 <= b < cols ==> #[trigger] self@[r as int][b] == old(
                                self,
                            )@[r as int][b],
                    decreases cols - k,
                {
                    let v = self.get(i, k).sub(&h.mul(&self.get(r, k)));
                    self.set(i, k, v);
                    k += 1;
                }
            }
            i += 1;
        }
        proof {
            assert(self@ =~~= eliminate_spec(old(self)@, r as int, p as int));
        }
    }

    /// The first column at or after `p` holding a nonzero entry at or below
    /// row `r`, paired with that entry's row; `None` when no pivot remains.
    fn find_pivot_exec(&self, r: usize, p: usize) -> (res: Option<(usize, usize)>)
        requires
            self.wf(),
            r < self@.len(),
            p <= self.spec_cols(),
        ensures
            match res {
                Some(pi) => find_pivot(self@, r as int, p as int, self.spec_cols()) == Some(
                    (pi.0 as int, pi.1 as int),
                ),
                None => find_pivot(self@, r as int, p as int, self.spec_cols()) is None,
            },
    {
        let (rows, cols) = self.size();
        let mut q: usize = p;
        while q < cols
            invariant
                p <= q <= cols,
                self.wf(),
                r < self@.len(),
                self@.len() == rows,
                self.spec_cols() == cols,
                find_pivot(self@, r as int, p as int, cols as int) == find_pivot(
                    self@,
                    r as int,
                    q as int,
                    cols as int,
                ),
            decreases cols - q,
        {
            let mut i: usize = r;
            while i < rows
                invariant
                    r <= i <= rows,
                    p <= q < cols,
                    self.wf(),
                    self@.len() == rows,
                    self.spec_cols() == cols,
                    scan_col(self@, q as int, r as int) == scan_col(self@, q as int, i as int),
                    find_pivot(self@, r as int, p as int, cols as int) == find_pivot(
                        self@,
                        r as int,
                        q as int,
                        cols as int,
                    ),
                decreases rows - i,
            {
                if !self.get(i, q).is_zero() {
                    proof {
                        assert(scan_col(self@, q as int, i as int) == Some(i as int));
                        assert(find_pivot(self@, r as int, q as int, cols as int) == Some(
                            (q as int, i as int),
                        ));
                    }
                    return Some((q, i));
                }
                i += 1;
            }
            proof {
                assert(scan_col(self@, q as int, rows as int) is None);
                assert(find_pivot(self@, r as int, q as int, cols as int) == find_pivot(
                    self@,
                    r as int,
                    q as int + 1,
                    cols as int,
                ));
            }
            q += 1;
        }
        None
    }

    /// The reduced row-echelon form: Gaussian elimination with row
    /// swapping, row normalization and downward pivot search, leaving
    /// `self` untouched.
    pub fn row_echelon(&self) -> (r: Matrix)
        requires
            self.wf(),
            rref_fits(self@, 0, 0, self@.len() as int, self.spec_cols()),
        ensures
            r.wf(),
            r@.len() == self@.len(),
            r.spec_cols() == self.spec_cols(),
            r@ == rref_spec(self@, self.spec_cols()),
    {
        let (rows, cols) = self.size();
        let mut m = self.duplicate();
        let mut row: usize = 0;
        let mut piv: usize = 0;
        while row < rows && piv < cols
            invariant
                row <= rows,
                piv <= cols,
                m.wf(),
                m@.len() == rows,
                m.spec_cols() == cols,
                rref_from(m@, row as int, piv as int, rows as int, cols as int) == rref_spec(
                    self@,
                    cols as int,
                ),
                rref_fits(m@, row as int, piv as int, rows as int, cols as int),
            ensures
                row >= rows || piv >= cols || find_pivot(
                    m@,
                    row as int,
                    piv as int,
                    cols as int,
                ) is None,
                m.wf(),
                m@.len() == rows,
                m.spec_cols() == cols,
                rref_from(m@, row as int, piv as int, rows as int, cols as int) == rref_spec(
                    self@,
                    cols as int,
                ),
            decreases rows - row,
        {
            let found = m.find_pivot_exec(row, piv);
            match found {
                None => {
                    break ;
                },
                Some(pi) => {
                    let (p2, i) = pi;
                    proof {
                        lemma_find_pivot_some(
                            m@,
                            row as int,
                            piv as int,
                            cols as int,
                            (p2 as int, i as int),
                        );
                    }
                    let ghost m0 = m@;
                    m.swap_rows(row, i);
                    let ghost m1 = m@;
                    let d = m.get(row, p2);
                    proof {
                        assert(m1 == swap_rows_spec(m0, row as int, i as int));
                        assert(d@ == m1[row as int][p2 as int]);
                        assert(d@ == m0[i as int][p2 as int]);
                    }
                    m.scale_row(row, d);
                    m.eliminate(row, p2);
                    row += 1;
                    piv = p2 + 1;
                },
            }
        }
        m
    }

    /// The rank: the number of nonzero rows of the reduced row-echelon
    /// form.
    pub fn rank(&self) -> (r: usize)
        requires
            self.wf(),
            rref_fits(self@, 0, 0, self@.len() as int, self.spec_cols()),
        ensures
            r == count_nonzero_rows(
                rref_spec(self@, self.spec_cols()),
                self@.len() as int,
            ),
    {
        let e = self.row_echelon();
        let (rows, cols) = e.size();
        let mut count: usize = 0;
        let mut i: usize = 0;
        while i < rows
            invariant
                i <= rows,
                e.wf(),
                e@.len() == rows,
                e.spec_cols() == cols,
                count <= i,
                count == count_nonzero_rows(e@, i as int),
            decreases rows - i,
        {
            let mut zero = true;
            let mut j: usize = 0;
            while j < cols && zero
                invariant
                    j <= cols,
                    i < rows,
                    e.wf(),
                    e@.len() == rows,
                    e.spec_cols() == cols,
                    zero ==> forall|b: int| 0 <= b < j ==> (#[trigger] e@[i as int][b]).n == 0,
                    !zero ==> !row_is_zero(e@[i as int]),
                decreases cols - j, (if zero { 1int } else { 0int }),
            {
                if !e.get(i, j).is_zero() {
                    zero = false;
                } else {
                    j += 1;
                }
            }
            proof {
                if zero {
                    assert(row_is_zero(e@[i as int]));
                }
            }
            if !zero {
                count += 1;
            }
            i += 1;
        }
        count
    }
}

} // verus!
