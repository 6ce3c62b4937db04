//! Vectors of rational scalars with runtime length.
//!
//! A `Vector` owns a sequence of [`Rational`] entries; its mathematical
//! value is a sequence of [`Rat`] fractions. Element-wise arithmetic, the
//! dot product and the exact norms live here.

use crate::rational::{
    nadd, nmul, nsub, rabs, radd, rat_fits, rat_lt, rat_ok, rat_zero, rmul, rneg, rsub, Rat,
    Rational,
};
use vstd::prelude::*;

verus! {

/// Every entry of `v` is a fraction a scalar may hold.
pub open spec fn vec_ok(v: Seq<Rat>) -> bool {
    forall|j: int| 0 <= j < v.len() ==> rat_ok(#[trigger] v[j])
}

/// Element-wise sums are representable.
pub open spec fn vec_add_fits(a: Seq<Rat>, b: Seq<Rat>) -> bool {
    forall|j: int| 0 <= j < a.len() ==> rat_fits(radd(#[trigger] a[j], b[j]))
}

/// Element-wise differences are representable.
pub open spec fn vec_sub_fits(a: Seq<Rat>, b: Seq<Rat>) -> bool {
    forall|j: int| 0 <= j < a.len() ==> rat_fits(rsub(#[trigger] a[j], b[j]))
}

/// Element-wise products with the scalar `k` are representable.
pub open spec fn vec_scl_fits(a: Seq<Rat>, k: Rat) -> bool {
    forall|j: int| 0 <= j < a.len() ==> rat_fits(rmul(#[trigger] a[j], k))
}

/// The dot product of the first `k` entries, accumulated left to right
/// from zero, every partial sum in lowest terms.
pub open spec fn dot_spec(a: Seq<Rat>, b: Seq<Rat>, k: int) -> Rat
    decreases k,
{
    if k <= 0 {
        rat_zero()
    } else {
        nadd(dot_spec(a, b, k - 1), nmul(a[k - 1], b[k - 1]))
    }
}

/// Every product and partial sum of the dot product is representable.
pub open spec fn dot_fits(a: Seq<Rat>, b: Seq<Rat>, k: int) -> bool
    decreases k,
{
    if k <= 0 {
        true
    } else {
        &&& dot_fits(a, b, k - 1)
        &&& rat_fits(rmul(a[k - 1], b[k - 1]))
        &&& rat_fits(radd(dot_spec(a, b, k - 1), nmul(a[k - 1], b[k - 1])))
    }
}

/// The sum of the magnitudes of the first `k` entries, accumulated left to
/// right from zero.
pub open spec fn norm1_spec(v: Seq<Rat>, k: int) -> Rat
    decreases k,
{
    if k <= 0 {
        rat_zero()
    } else {
        nadd(norm1_spec(v, k - 1), rabs(v[k - 1]))
    }
}

/// Every partial sum of the magnitude sum is representable.
pub open spec fn norm1_fits(v: Seq<Rat>, k: int) -> bool
    decreases k,
{
    if k <= 0 {
        true
    } else {
        norm1_fits(v, k - 1) && rat_fits(radd(norm1_spec(v, k - 1), rabs(v[k - 1])))
    }
}

/// The largest magnitude among the first `k` entries, zero when there are
/// none.
pub open spec fn norm_inf_spec(v: Seq<Rat>, k: int) -> Rat
    decreases k,
{
    if k <= 0 {
        rat_zero()
    } else {
        let m = norm_inf_spec(v, k - 1);
        let a = rabs(v[k - 1]);
        if rat_lt(m, a) {
            a
        } else {
            m
        }
    }
}

/// A vector of `N` rational scalars.
#[derive(Clone, Debug, PartialEq)]
pub struct Vector {
    data: Vec<Rational>,
}

impl View for Vector {
    type V = Seq<Rat>;

    closed spec fn view(&self) -> Seq<Rat> {
        self.data.deep_view()
    }
}

impl DeepView for Vector {
    type V = Seq<Rat>;

    open spec fn deep_view(&self) -> Seq<Rat> {
        self.view()
    }
}

/// How a vector of scalars views as a sequence of fractions: by element.
proof fn lemma_vec_view(r: &Vec<Rational>)
    ensures
        r.deep_view().len() == r@.len(),
        forall|j: int| 0 <= j < r@.len() ==> #[trigger] r.deep_view()[j] == r@[j]@,
{
}

impl Vector {
    /// All entries are fractions a scalar may hold.
    pub open spec fn wf(&self) -> bool {
        vec_ok(self@)
    }

    /// Creates a vector from its entries.
    pub fn from(data: Vec<Rational>) -> (r: Vector)
        requires
            vec_ok(data.deep_view()),
        ensures
            r.wf(),
            r@ == data.deep_view(),
    {
        Vector { data }
    }

    /// The number of entries.
    pub fn size(&self) -> (r: usize)
        ensures
            r == self@.len(),
    {
        proof {
            lemma_vec_view(&self.data);
        }
        self.data.len()
    }

    /// A vector of the given length, filled with zero.
    pub fn zero(n: usize) -> (r: Vector)
        ensures
            r.wf(),
            r@.len() == n,
            forall|j: int| 0 <= j < n ==> #[trigger] r@[j] == rat_zero(),
    {
        let mut data: Vec<Rational> = Vec::new();
        let mut j: usize = 0;
        while j < n
            invariant
                j <= n,
                data@.len() == j,
                forall|b: int| 0 <= b < j ==> (#[trigger] data@[b])@ == rat_zero(),
            decreases n - j,
        {
            data.push(Rational::zero());
            j += 1;
        }
        proof {
            lemma_vec_view(&data);
            crate::rational::lemma_zero_one_ok();
        }
        Vector { data }
    }

    /// The entry at `i`.
    pub fn get(&self, i: usize) -> (r: Rational)
        requires
            i < self@.len(),
        ensures
            r@ == self@[i as int],
    {
        proof {
            lemma_vec_view(&self.data);
        }
        self.data[i]
    }

    /// Replaces the entry at `i`.
    pub fn set(&mut self, i: usize, v: Rational)
        requires
            old(self).wf(),
            i < old(self)@.len(),
            rat_ok(v@),
        ensures
            final(self).wf(),
            final(self)@ == old(self)@.update(i as int, v@),
    {
        proof {
            lemma_vec_view(&self.data);
        }
        self.data[i] = v;
        proof {
            lemma_vec_view(&self.data);
            assert(self@ =~= old(self)@.update(i as int, v@));
        }
    }

    /// Adds `rhs` element-wise, in place.
    pub fn add(&mut self, rhs: &Vector)
        requires
            old(self).wf(),
            rhs.wf(),
            old(self)@.len() == rhs@.len(),
            vec_add_fits(old(self)@, rhs@),
        ensures
            final(self).wf(),
            final(self)@.len() == old(self)@.len(),
            forall|j: int|
                0 <= j < old(self)@.len() ==> #[trigger] final(self)@[j] == nadd(
                    old(self)@[j],
                    rhs@[j],
                ),
    {
        let n = self.size();
        let mut j: usize = 0;
        while j < n
            invariant
                j <= n,
                self.wf(),
                rhs.wf(),
                self@.len() == n,
                old(self)@.len() == n,
                rhs@.len() == n,
                vec_add_fits(old(self)@, rhs@),
                forall|b: int|
                    0 <= b < j ==> #[trigger] self@[b] == nadd(old(self)@[b], rhs@[b]),
                forall|b: int| j <= b < n ==> #[trigger] self@[b] == old(self)@[b],
            decreases n - j,
        {
            let v = self.get(j).add(&rhs.get(j));
            self.set(j, v);
            j += 1;
        }
    }

    /// Subtracts `rhs` element-wise, in place.
    pub fn sub(&mut self, rhs: &Vector)
        requires
            old(self).wf(),
            rhs.wf(),
            old(self)@.len() == rhs@.len(),
            vec_sub_fits(old(self)@, rhs@),
        ensures
            final(self).wf(),
            final(self)@.len() == old(self)@.len(),
            forall|j: int|
                0 <= j < old(self)@.len() ==> #[trigger] final(self)@[j] == nsub(
                    old(self)@[j],
                    rhs@[j],
                ),
    {
        let n = self.size();
        let mut j: usize = 0;
        while j < n
            invariant
                j <= n,
                self.wf(),
                rhs.wf(),
                self@.len() == n,
                old(self)@.len() == n,
                rhs@.len() == n,
                vec_sub_fits(old(self)@, rhs@),
                forall|b: int|
                    0 <= b < j ==> #[trigger] self@[b] == nsub(old(self)@[b], rhs@[b]),
                forall|b: int| j <= b < n ==> #[trigger] self@[b] == old(self)@[b],
            decreases n - j,
        {
            let v = self.get(j).sub(&rhs.get(j));
            self.set(j, v);
            j += 1;
        }
    }

    /// Multiplies every entry by `scalar`, in place.
    pub fn scl(&mut self, scalar: Rational)
        requires
            old(self).wf(),
            rat_ok(scalar@),
            vec_scl_fits(old(self)@, scalar@),
        ensures
            final(self).wf(),
            final(self)@.len() == old(self)@.len(),
            forall|j: int|
                0 <= j < old(self)@.len() ==> #[trigger] final(self)@[j] == nmul(
                    old(self)@[j],
                    scalar@,
                ),
    {
        let n = self.size();
        let mut j: usize = 0;
        while j < n
            invariant
                j <= n,
                self.wf(),
                rat_ok(scalar@),
                self@.len() == n,
                old(self)@.len() == n,
                vec_scl_fits(old(self)@, scalar@),
                forall|b: int|
                    0 <= b < j ==> #[trigger] self@[b] == nmul(old(self)@[b], scalar@),
                forall|b: int| j <= b < n ==> #[trigger] self@[b] == old(self)@[b],
            decreases n - j,
        {
            let v = self.get(j).mul(&scalar);
            self.set(j, v);
            j += 1;
        }
    }

    /// Negates every entry, returning a new vector.
    pub fn neg(&self) -> (r: Vector)
        requires
            self.wf(),
        ensures
            r.wf(),
            r@.len() == self@.len(),
            forall|j: int| 0 <= j < self@.len() ==> #[trigger] r@[j] == rneg(self@[j]),
    {
        let n = self.size();
        let mut data: Vec<Rational> = Vec::new();
        let mut j: usize = 0;
        while j < n
            invariant
                j <= n,
                self.wf(),
                self@.len() == n,
                data@.len() == j,
                forall|b: int| 0 <= b < j ==> (#[trigger] data@[b])@ == rneg(self@[b]),
            decreases n - j,
        {
            data.push(self.get(j).neg());
            j += 1;
        }
        proof {
            lemma_vec_view(&data);
            assert forall|b: int| 0 <= b < n implies rat_ok(rneg(self@[b])) by {
                crate::rational::lemma_rneg_ok(self@[b]);
            }
        }
        Vector { data }
    }

    /// The dot product: the sum of the products of corresponding entries.
    pub fn dot(&self, v: &Vector) -> (r: Rational)
        requires
            self.wf(),
            v.wf(),
            self@.len() == v@.len(),
            dot_fits(self@, v@, self@.len() as int),
        ensures
            rat_ok(r@),
            r@ == dot_spec(self@, v@, self@.len() as int),
    {
        let n = self.size();
        let mut acc = Rational::zero();
        let mut j: usize = 0;
        while j < n
            invariant
                j <= n,
                self.wf(),
                v.wf(),
                self@.len() == n,
                v@.len() == n,
                dot_fits(self@, v@, n as int),
                rat_ok(acc@),
                acc@ == dot_spec(self@, v@, j as int),
            decreases n - j,
        {
            proof {
                lemma_dot_fits_prefix(self@, v@, j as int + 1, n as int);
            }
            let p = self.get(j).mul(&v.get(j));
            acc = acc.add(&p);
            j += 1;
        }
        acc
    }

    /// The Manhattan norm: the sum of the magnitudes of the entries.
    pub fn norm_1(&self) -> (r: Rational)
        requires
            self.wf(),
            norm1_fits(self@, self@.len() as int),
        ensures
            rat_ok(r@),
            r@ == norm1_spec(self@, self@.len() as int),
    {
        let n = self.size();
        let mut acc = Rational::zero();
        let mut j: usize = 0;
        while j < n
            invariant
                j <= n,
                self.wf(),
                self@.len() == n,
                norm1_fits(self@, n as int),
                rat_ok(acc@),
                acc@ == norm1_spec(self@, j as int),
            decreases n - j,
        {
            proof {
                lemma_norm1_fits_prefix(self@, j as int + 1, n as int);
            }
            let a = self.get(j).abs();
            acc = acc.add(&a);
            j += 1;
        }
        acc
    }

    /// The maximum norm: the largest magnitude among the entries.
    pub fn norm_inf(&self) -> (r: Rational)
        requires
            self.wf(),
        ensures
            rat_ok(r@),
            r@ == norm_inf_spec(self@, self@.len() as int),
    {
        let n = self.size();
        let mut acc = Rational::zero();
        let mut j: usize = 0;
        while j < n
            invariant
                j <= n,
                self.wf(),
                self@.len() == n,
                rat_ok(acc@),
                acc@ == norm_inf_spec(self@, j as int),
            decreases n - j,
        {
            let a = self.get(j).abs();
            if acc.lt(&a) {
                acc = a;
            }
            j += 1;
        }
        acc
    }
}

/// A prefix of a representable dot product is representable.
proof fn lemma_dot_fits_prefix(a: Seq<Rat>, b: Seq<Rat>, k: int, n: int)
    requires
        k <= n,
        dot_fits(a, b, n),
    ensures
        dot_fits(a, b, k),
    decreases n - k,
{
    if k < n {
        lemma_dot_fits_prefix(a, b, k + 1, n);
    }
}

/// A prefix of a representable magnitude sum is representable.
proof fn lemma_norm1_fits_prefix(v: Seq<Rat>, k: int, n: int)
    requires
        k <= n,
        norm1_fits(v, n),
    ensures
        norm1_fits(v, k),
    decreases n - k,
{
    if k < n {
        lemma_norm1_fits_prefix(v, k + 1, n);
    }
}

} // verus!
