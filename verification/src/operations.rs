//! Free-standing vector operations: linear combinations, linear
//! interpolation and the three-dimensional cross product, all exact over
//! the rational scalar.

use crate::rational::{
    nadd, nmul, nsub, radd, rat_fits, rat_ok, rat_one, rat_zero, rmul, rsub, Rat, Rational,
};
use crate::vector::{vec_ok, Vector};
use vstd::prelude::*;

verus! {

/// How a list of vectors views as rows of fractions: by element.
proof fn lemma_vecs_view(d: &Vec<Vector>)
    ensures
        d.deep_view().len() == d@.len(),
        forall|i: int| 0 <= i < d@.len() ==> #[trigger] d.deep_view()[i] == d@[i]@,
{
}

/// Entry `j` of the combination of the first `k` vectors, each multiplied
/// by its scalar, accumulated left to right from zero.
pub open spec fn lincomb_entry(vs: Seq<Seq<Rat>>, ss: Seq<Rat>, k: int, j: int) -> Rat
    decreases k,
{
    if k <= 0 {
        rat_zero()
    } else {
        nadd(lincomb_entry(vs, ss, k - 1, j), nmul(vs[k - 1][j], ss[k - 1]))
    }
}

/// Every product and partial sum at entry `j` of the combination is
/// representable.
pub open spec fn lincomb_entry_fits(vs: Seq<Seq<Rat>>, ss: Seq<Rat>, k: int, j: int) -> bool
    decreases k,
{
    if k <= 0 {
        true
    } else {
        &&& lincomb_entry_fits(vs, ss, k - 1, j)
        &&& rat_fits(rmul(vs[k - 1][j], ss[k - 1]))
        &&& rat_fits(radd(lincomb_entry(vs, ss, k - 1, j), nmul(vs[k - 1][j], ss[k - 1])))
    }
}

/// Every intermediate value of the whole combination is representable.
pub open spec fn lincomb_fits(vs: Seq<Seq<Rat>>, ss: Seq<Rat>, n: int) -> bool {
    forall|j: int| 0 <= j < n ==> lincomb_entry_fits(vs, ss, vs.len() as int, j)
}

/// A prefix of a representable combination entry is representable.
proof fn lemma_lincomb_fits_prefix(vs: Seq<Seq<Rat>>, ss: Seq<Rat>, k: int, n: int, j: int)
    requires
        k <= n,
        lincomb_entry_fits(vs, ss, n, j),
    ensures
        lincomb_entry_fits(vs, ss, k, j),
    decreases n - k,
{
    if k < n {
        lemma_lincomb_fits_prefix(vs, ss, k + 1, n, j);
    }
}

/// The linear combination of the vectors with the scalars: the sum of each
/// vector multiplied by its scalar. All vectors share one length.
pub fn linear_combination(vectors: &Vec<Vector>, scalars: &Vec<Rational>) -> (r: Vector)
    requires
        vectors.deep_view().len() == scalars.deep_view().len(),
        vectors.deep_view().len() > 0,
        forall|i: int|
            0 <= i < vectors.deep_view().len() ==> (#[trigger] vectors.deep_view()[i]).len()
                == vectors.deep_view()[0].len(),
        forall|i: int| 0 <= i < vectors.deep_view().len() ==> vec_ok(#[trigger] vectors.deep_view()[i]),
        vec_ok(scalars.deep_view()),
        lincomb_fits(vectors.deep_view(), scalars.deep_view(), vectors.deep_view()[0].len() as int),
    ensures
        r.wf(),
        r@.len() == vectors.deep_view()[0].len(),
        forall|j: int|
            0 <= j < r@.len() ==> #[trigger] r@[j] == lincomb_entry(
                vectors.deep_view(),
                scalars.deep_view(),
                vectors.deep_view().len() as int,
                j,
            ),
{
    proof {
        lemma_vecs_view(vectors);
    }
    let ghost vs = vectors.deep_view();
    let ghost ss = scalars.deep_view();
    let k = vectors.len();
    let n = vectors[0].size();
    let mut r = Vector::zero(n);
    let mut i: usize = 0;
    while i < k
        invariant
            i <= k,
            vs == vectors.deep_view(),
            ss == scalars.deep_view(),
            vs.len() == k,
            ss.len() == k,
            k > 0,
            vectors.deep_view().len() == vectors@.len(),
            forall|a: int| 0 <= a < vectors@.len() ==> #[trigger] vectors.deep_view()[a]
                == vectors@[a]@,
            forall|a: int| 0 <= a < k ==> (#[trigger] vs[a]).len() == n,
            forall|a: int| 0 <= a < k ==> vec_ok(#[trigger] vs[a]),
            vec_ok(ss),
            lincomb_fits(vs, ss, n as int),
            r.wf(),
            r@.len() == n,
            forall|j: int| 0 <= j < n ==> #[trigger] r@[j] == lincomb_entry(vs, ss, i as int, j),
        decreases k - i,
    {
        let v = &vectors[i];
        let s = scalars[i];
        proof {
            assert(v@ == vs[i as int]);
            assert(s@ == ss[i as int]);
        }
        let mut j: usize = 0;
        while j < n
            invariant
                i < k,
                j <= n,
                vs.len() == k,
                ss.len() == k,
                v@ == vs[i as int],
                s@ == ss[i as int],
                forall|a: int| 0 <= a < k ==> (#[trigger] vs[a]).len() == n,
                forall|a: int| 0 <= a < k ==> vec_ok(#[trigger] vs[a]),
                vec_ok(ss),
                lincomb_fits(vs, ss, n as int),
                r.wf(),
                r@.len() == n,
                forall|b: int|
                    0 <= b < j ==> #[trigger] r@[b] == lincomb_entry(vs, ss, i as int + 1, b),
                forall|b: int|
                    j <= b < n ==> #[trigger] r@[b] == lincomb_entry(vs, ss, i as int, b),
            decreases n - j,
        {
            proof {
                lemma_lincomb_fits_prefix(vs, ss, i as int + 1, k as int, j as int);
            }
            let e = r.get(j).add(&v.get(j).mul(&s));
            r.set(j, e);
            j += 1;
        }
        i += 1;
    }
    r
}

/// Every intermediate value of the interpolation is representable.
pub open spec fn lerp_fits(u: Seq<Rat>, v: Seq<Rat>, t: Rat) -> bool {
    &&& rat_fits(rsub(rat_one(), t))
    &&& forall|j: int|
        0 <= j < u.len() ==> {
            &&& rat_fits(rmul(#[trigger] u[j], nsub(rat_one(), t)))
            &&& rat_fits(rmul(v[j], t))
            &&& rat_fits(radd(nmul(u[j], nsub(rat_one(), t)), nmul(v[j], t)))
        }
}

/// Entry `j` of the interpolation: `u[j]` weighted by one minus `t` plus
/// `v[j]` weighted by `t`.
pub open spec fn lerp_entry(u: Seq<Rat>, v: Seq<Rat>, t: Rat, j: int) -> Rat {
    nadd(nmul(u[j], nsub(rat_one(), t)), nmul(v[j], t))
}

/// The linear interpolation between two vectors: `u` weighted by one
/// minus `t` plus `v` weighted by `t`; `t` zero gives `u`, `t` one gives
/// `v`.
pub fn lerp(u: &Vector, v: &Vector, t: Rational) -> (r: Vector)
    requires
        u.wf(),
        v.wf(),
        rat_ok(t@),
        u@.len() == v@.len(),
        lerp_fits(u@, v@, t@),
    ensures
        r.wf(),
        r@.len() == u@.len(),
        forall|j: int| 0 <= j < u@.len() ==> #[trigger] r@[j] == lerp_entry(u@, v@, t@, j),
{
    let s = Rational::one().sub(&t);
    let n = u.size();
    let mut r = Vector::zero(n);
    let mut j: usize = 0;
    while j < n
        invariant
            j <= n,
            u.wf(),
            v.wf(),
            rat_ok(t@),
            u@.len() == n,
            v@.len() == n,
            lerp_fits(u@, v@, t@),
            s@ == nsub(rat_one(), t@),
            rat_ok(s@),
            r.wf(),
            r@.len() == n,
            forall|b: int| 0 <= b < j ==> #[trigger] r@[b] == lerp_entry(u@, v@, t@, b),
        decreases n - j,
    {
        let e = u.get(j).mul(&s).add(&v.get(j).mul(&t));
        r.set(j, e);
        j += 1;
    }
    r
}

/// Every product and difference of the cross product is representable.
pub open spec fn cross_fits(u: Seq<Rat>, v: Seq<Rat>) -> bool {
    &&& rat_fits(rmul(u[1], v[2]))
    &&& rat_fits(rmul(u[2], v[1]))
    &&& rat_fits(rsub(nmul(u[1], v[2]), nmul(u[2], v[1])))
    &&& rat_fits(rmul(u[2], v[0]))
    &&& rat_fits(rmul(u[0], v[2]))
    &&& rat_fits(rsub(nmul(u[2], v[0]), nmul(u[0], v[2])))
    &&& rat_fits(rmul(u[0], v[1]))
    &&& rat_fits(rmul(u[1], v[0]))
    &&& rat_fits(rsub(nmul(u[0], v[1]), nmul(u[1], v[0])))
}

/// The cross product of two three-dimensional vectors.
pub fn cross_product(u: &Vector, v: &Vector) -> (r: Vector)
    requires
        u.wf(),
        v.wf(),
        u@.len() == 3,
        v@.len() == 3,
        cross_fits(u@, v@),
    ensures
        r.wf(),
        r@.len() == 3,
        r@[0] == nsub(nmul(u@[1], v@[2]), nmul(u@[2], v@[1])),
        r@[1] == nsub(nmul(u@[2], v@[0]), nmul(u@[0], v@[2])),
        r@[2] == nsub(nmul(u@[0], v@[1]), nmul(u@[1], v@[0])),
{
    let e0 = u.get(1).mul(&v.get(2)).sub(&u.get(2).mul(&v.get(1)));
    let e1 = u.get(2).mul(&v.get(0)).sub(&u.get(0).mul(&v.get(2)));
    let e2 = u.get(0).mul(&v.get(1)).sub(&u.get(1).mul(&v.get(0)));
    let mut r = Vector::zero(3);
    r.set(0, e0);
    r.set(1, e1);
    r.set(2, e2);
    r
}

} // verus!
