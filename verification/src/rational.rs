//! The scalar field: exact rational numbers.
//!
//! A `Rational` stores a fraction in lowest terms with a positive
//! denominator, both components held in `i64`. Its mathematical value is the
//! ghost fraction [`Rat`], a pair of unbounded integers. Arithmetic is exact:
//! each operation computes the unreduced fraction in wide intermediates and
//! then divides out the greatest common divisor, so a result is representable
//! exactly when its reduced form fits the component type, which is what
//! [`rat_fits`] states.

use vstd::arithmetic::div_mod::{
    lemma_add_mod_noop, lemma_div_nonincreasing, lemma_fundamental_div_mod,
    lemma_fundamental_div_mod_converse, lemma_mod_self_0, lemma_mul_mod_noop_right,
    lemma_small_mod,
};
use vstd::prelude::*;

verus! {

/// The mathematical value of a scalar: the fraction `n / d`.
pub ghost struct Rat {
    /// Numerator.
    pub n: int,
    /// Denominator; well-formed values keep it positive.
    pub d: int,
}

/// A well-formed fraction has a positive denominator.
pub open spec fn rat_wf(a: Rat) -> bool {
    a.d > 0
}

/// Both components of the fraction fit the scalar's component type
/// (the numerator symmetrically, so that its magnitude is always expressible).
pub open spec fn rat_bounded(a: Rat) -> bool {
    &&& -(i64::MAX as int) <= a.n <= i64::MAX as int
    &&& a.d <= i64::MAX as int
}

/// The fraction is in lowest terms: reducing it changes nothing.
pub open spec fn rat_canon(a: Rat) -> bool {
    rnorm(a) == a
}

/// A fraction a scalar may hold: well-formed, within component bounds, and
/// in lowest terms.
pub open spec fn rat_ok(a: Rat) -> bool {
    rat_wf(a) && rat_bounded(a) && rat_canon(a)
}

/// The two fractions denote the same rational number (cross multiplication).
pub open spec fn rat_eq(a: Rat, b: Rat) -> bool {
    a.n * b.d == b.n * a.d
}

/// `a` denotes a rational strictly below the one `b` denotes
/// (meaningful for well-formed fractions).
pub open spec fn rat_lt(a: Rat, b: Rat) -> bool {
    a.n * b.d < b.n * a.d
}

/// The fraction denoting zero.
pub open spec fn rat_zero() -> Rat {
    Rat { n: 0, d: 1 }
}

/// The fraction denoting one.
pub open spec fn rat_one() -> Rat {
    Rat { n: 1, d: 1 }
}

/// Exact sum of two fractions, unreduced.
pub open spec fn radd(a: Rat, b: Rat) -> Rat {
    Rat { n: a.n * b.d + b.n * a.d, d: a.d * b.d }
}

/// Exact difference of two fractions, unreduced.
pub open spec fn rsub(a: Rat, b: Rat) -> Rat {
    Rat { n: a.n * b.d - b.n * a.d, d: a.d * b.d }
}

/// Exact product of two fractions, unreduced.
pub open spec fn rmul(a: Rat, b: Rat) -> Rat {
    Rat { n: a.n * b.n, d: a.d * b.d }
}

/// Exact quotient of two fractions, unreduced, with the sign moved into the
/// numerator so that a division by a nonzero fraction stays well-formed.
pub open spec fn rdiv(a: Rat, b: Rat) -> Rat {
    if b.n >= 0 {
        Rat { n: a.n * b.d, d: a.d * b.n }
    } else {
        Rat { n: -(a.n * b.d), d: -(a.d * b.n) }
    }
}

/// Exact negation.
pub open spec fn rneg(a: Rat) -> Rat {
    Rat { n: -a.n, d: a.d }
}

/// Exact absolute value.
pub open spec fn rabs(a: Rat) -> Rat {
    if a.n >= 0 {
        a
    } else {
        rneg(a)
    }
}

/// A fraction with the sign carried by the numerator: what
/// [`Rational::new`] makes of an arbitrary nonzero denominator.
pub open spec fn rat_signed(n: int, d: int) -> Rat {
    if d < 0 {
        Rat { n: -n, d: -d }
    } else {
        Rat { n: n, d: d }
    }
}

/// Greatest common divisor by the Euclidean algorithm.
pub open spec fn gcd(a: nat, b: nat) -> nat
    decreases b,
{
    if b == 0 {
        a
    } else {
        gcd(b, a % b)
    }
}

/// Magnitude of an integer.
pub open spec fn abs_int(n: int) -> nat {
    if n >= 0 {
        n as nat
    } else {
        (-n) as nat
    }
}

/// The fraction in lowest terms denoting the same rational as `a`:
/// both components divided by their greatest common divisor.
/// Fractions with a nonpositive denominator are left alone.
pub open spec fn rnorm(a: Rat) -> Rat {
    if a.d <= 0 {
        a
    } else {
        let g = gcd(abs_int(a.n), a.d as nat) as int;
        Rat { n: a.n / g, d: a.d / g }
    }
}

/// The reduced form of `a` fits the scalar's component type: exactly the
/// fractions whose sum, difference, product or quotient a scalar operation
/// can return.
pub open spec fn rat_fits(a: Rat) -> bool {
    rat_bounded(rnorm(a))
}

/// The sum as [`Rational::add`] returns it: exact, in lowest terms.
pub open spec fn nadd(a: Rat, b: Rat) -> Rat {
    rnorm(radd(a, b))
}

/// The difference as [`Rational::sub`] returns it: exact, in lowest terms.
pub open spec fn nsub(a: Rat, b: Rat) -> Rat {
    rnorm(rsub(a, b))
}

/// The product as [`Rational::mul`] returns it: exact, in lowest terms.
pub open spec fn nmul(a: Rat, b: Rat) -> Rat {
    rnorm(rmul(a, b))
}

/// The quotient as [`Rational::div`] returns it: exact, in lowest terms.
pub open spec fn ndiv(a: Rat, b: Rat) -> Rat {
    rnorm(rdiv(a, b))
}

/// The greatest common divisor of two numbers, not both zero, is positive
/// and divides both.
pub proof fn lemma_gcd_divides(a: nat, b: nat)
    requires
        a > 0 || b > 0,
    ensures
        gcd(a, b) > 0,
        a % gcd(a, b) == 0,
        b % gcd(a, b) == 0,
    decreases b,
{
    let g = gcd(a, b);
    if b == 0 {
        lemma_mod_self_0(a as int);
        lemma_small_mod(0, a);
    } else {
        let r = a % b;
        lemma_gcd_divides(b, r);
        lemma_fundamental_div_mod(a as int, b as int);
        let q = a as int / b as int;
        lemma_mul_mod_noop_right(q, b as int, g as int);
        lemma_small_mod(0, g);
        assert((b as int) % (g as int) == 0);
        assert(q * ((b as int) % (g as int)) == 0) by (nonlinear_arith)
            requires
                (b as int) % (g as int) == 0,
        ;
        assert((q * b as int) % (g as int) == 0);
        lemma_add_mod_noop(q * b as int, r as int, g as int);
        assert(b as int * q == q * b as int) by (nonlinear_arith);
        assert(a as int == q * b as int + r as int);
        assert((a as int) % (g as int) == 0);
    }
}

/// A positive divisor of a positive number is no larger than it.
proof fn lemma_divisor_le(n: int, d: int)
    requires
        0 < d,
        0 < n,
        n % d == 0,
    ensures
        d <= n,
        1 <= n / d,
        n / d <= n,
    decreases n,
{
    lemma_fundamental_div_mod(n, d);
    assert(n == d * (n / d));
    if n / d <= 0 {
        assert(d * (n / d) <= 0) by (nonlinear_arith)
            requires
                d > 0,
                n / d <= 0,
        ;
    }
    assert(1 <= n / d);
    assert(d * 1 <= d * (n / d)) by (nonlinear_arith)
        requires
            d > 0,
            1 <= n / d,
    ;
    lemma_div_nonincreasing(n, d);
}

/// How the reduced form of a well-formed fraction relates to the fraction:
/// both components are exact quotients by the (positive) greatest common
/// divisor, it is again well-formed, no larger componentwise, and denotes
/// the same rational number.
pub proof fn lemma_rnorm(a: Rat)
    requires
        rat_wf(a),
    ensures
        ({
            let g = gcd(abs_int(a.n), a.d as nat) as int;
            let m = rnorm(a);
            &&& g > 0
            &&& m.d == a.d / g
            &&& m.d * g == a.d
            &&& 1 <= m.d <= a.d
            &&& m.n == if a.n >= 0 {
                abs_int(a.n) as int / g
            } else {
                -(abs_int(a.n) as int / g)
            }
            &&& m.n * g == a.n
            &&& abs_int(m.n) <= abs_int(a.n)
            &&& rat_wf(m)
            &&& rat_eq(m, a)
        }),
{
    let ab = abs_int(a.n);
    let g = gcd(ab, a.d as nat) as int;
    let m = rnorm(a);
    lemma_gcd_divides(ab, a.d as nat);
    assert(g > 0);
    lemma_divisor_le(a.d as int, g);
    lemma_fundamental_div_mod(a.d as int, g);
    assert(m.d * g == a.d) by {
        assert(a.d == g * (a.d / g) + a.d % g);
        assert(g * (a.d / g) == (a.d / g) * g) by (nonlinear_arith);
    }
    lemma_fundamental_div_mod(ab as int, g);
    let qn = ab as int / g;
    assert(qn * g == ab) by {
        assert(ab as int == g * qn + ab as int % g);
        assert(g * qn == qn * g) by (nonlinear_arith);
    }
    if ab > 0 {
        lemma_divisor_le(ab as int, g);
    } else {
        lemma_small_mod(0, g as nat);
        assert(qn == 0) by {
            lemma_fundamental_div_mod_converse(0, g, 0, 0);
            assert(0 == 0 * g + 0);
        }
    }
    if a.n >= 0 {
        assert(m.n == qn);
    } else {
        assert(a.n == -(ab as int));
        assert((-qn) * g + 0 == a.n) by {
            assert((-qn) * g == -(qn * g)) by (nonlinear_arith);
        }
        lemma_fundamental_div_mod_converse(a.n, g, -qn, 0);
        assert(m.n == a.n / g);
        assert(m.n == -qn);
    }
    assert(rat_eq(m, a)) by {
        assert(m.n * (m.d * g) == (m.n * g) * m.d) by (nonlinear_arith);
    }
}

/// Scaling both arguments scales the greatest common divisor.
proof fn lemma_gcd_scale(k: nat, a: nat, b: nat)
    requires
        k > 0,
    ensures
        gcd(k * a, k * b) == k * gcd(a, b),
    decreases b,
{
    if b == 0 {
        assert(k * b == 0) by (nonlinear_arith)
            requires
                b == 0,
        ;
    } else {
        let q = a as int / b as int;
        let r = a % b;
        lemma_fundamental_div_mod(a as int, b as int);
        assert(a as int == b * q + r);
        assert(0 <= q) by {
            vstd::arithmetic::div_mod::lemma_div_pos_is_pos(a as int, b as int);
        }
        assert(k * a == (k * b) * q + k * r) by (nonlinear_arith)
            requires
                a as int == b * q + r,
        ;
        assert(0 <= k * r && k * r < k * b) by (nonlinear_arith)
            requires
                0 <= r < b,
                k > 0,
        ;
        assert((k * a) as int == q * ((k * b) as int) + (k * r) as int) by (nonlinear_arith)
            requires
                k * a == (k * b) * q + k * r,
        ;
        lemma_fundamental_div_mod_converse((k * a) as int, (k * b) as int, q, (k * r) as int);
        assert(k * b != 0) by (nonlinear_arith)
            requires
                k > 0,
                b > 0,
        ;
        assert(gcd(k * a, k * b) == gcd(k * b, (k * a) % (k * b)));
        assert((k * a) % (k * b) == k * r);
        lemma_gcd_scale(k, b, r);
    }
}

/// Dividing both arguments by their greatest common divisor leaves
/// arguments with no common divisor but one.
proof fn lemma_gcd_coprime(a: nat, b: nat)
    requires
        a > 0 || b > 0,
    ensures
        gcd(((a as int) / (gcd(a, b) as int)) as nat, ((b as int) / (gcd(a, b) as int)) as nat)
            == 1,
{
    let g = gcd(a, b);
    lemma_gcd_divides(a, b);
    let a2 = ((a as int) / (g as int)) as nat;
    let b2 = ((b as int) / (g as int)) as nat;
    lemma_fundamental_div_mod(a as int, g as int);
    lemma_fundamental_div_mod(b as int, g as int);
    assert(0 <= a as int / g as int && 0 <= b as int / g as int) by {
        vstd::arithmetic::div_mod::lemma_div_pos_is_pos(a as int, g as int);
        vstd::arithmetic::div_mod::lemma_div_pos_is_pos(b as int, g as int);
    }
    assert(a == g * a2 && b == g * b2);
    lemma_gcd_scale(g, a2, b2);
    assert(gcd(g * a2, g * b2) == g * gcd(a2, b2));
    assert(g * 1 == g && g * gcd(a2, b2) == g ==> gcd(a2, b2) == 1) by (nonlinear_arith)
        requires
            g > 0,
    ;
    assert(g * 1 == g) by (nonlinear_arith);
}

/// Reducing a well-formed fraction once reduces it for good: the result is
/// in lowest terms.
pub proof fn lemma_rnorm_idem(a: Rat)
    requires
        rat_wf(a),
    ensures
        rat_canon(rnorm(a)),
        rat_wf(rnorm(a)),
{
    lemma_rnorm(a);
    let m = rnorm(a);
    let ab = abs_int(a.n);
    let g = gcd(ab, a.d as nat) as int;
    lemma_gcd_coprime(ab, a.d as nat);
    assert(abs_int(m.n) == (ab as int / g) as nat);
    assert(m.d == a.d / g);
    assert(gcd(abs_int(m.n), m.d as nat) == 1);
    assert(m.n / 1int == m.n && m.d / 1int == m.d);
    assert(rnorm(m) == m);
}

/// A fraction in lowest terms has coprime components.
pub proof fn lemma_canon_gcd_one(a: Rat)
    requires
        rat_wf(a),
        rat_canon(a),
    ensures
        gcd(abs_int(a.n), a.d as nat) == 1,
{
    lemma_rnorm(a);
    let g = gcd(abs_int(a.n), a.d as nat) as int;
    assert(rnorm(a).d * g == a.d);
    assert(rnorm(a).d == a.d);
    assert(a.d * g == a.d && a.d > 0 ==> g == 1) by (nonlinear_arith);
}

/// A well-formed fraction with coprime components is in lowest terms.
pub proof fn lemma_coprime_canon(a: Rat)
    requires
        rat_wf(a),
        gcd(abs_int(a.n), a.d as nat) == 1,
    ensures
        rat_canon(a),
{
    assert(a.n / 1int == a.n && a.d / 1int == a.d);
}

/// A fraction over one is in lowest terms.
pub proof fn lemma_int_canon(n: int)
    ensures
        rat_canon(Rat { n: n, d: 1 }),
{
    let ab = abs_int(n);
    if ab == 0 {
        assert(gcd(0, 1) == gcd(1, 0nat % 1nat));
        assert(0nat % 1nat == 0);
        assert(gcd(1, 0) == 1);
    } else {
        assert((ab as int) % 1int == 0);
        assert(ab % 1nat == 0);
        assert(gcd(ab, 1) == gcd(1, ab % 1nat));
        assert(gcd(1, 0) == 1);
    }
    lemma_coprime_canon(Rat { n: n, d: 1 });
}

/// Zero and one are fractions a scalar may hold.
pub proof fn lemma_zero_one_ok()
    ensures
        rat_ok(rat_zero()),
        rat_ok(rat_one()),
{
    lemma_int_canon(0);
    lemma_int_canon(1);
}

/// Negating a fraction a scalar may hold gives another such fraction.
pub proof fn lemma_rneg_ok(a: Rat)
    requires
        rat_ok(a),
    ensures
        rat_ok(rneg(a)),
{
    lemma_canon_gcd_one(a);
    assert(abs_int(rneg(a).n) == abs_int(a.n));
    lemma_coprime_canon(rneg(a));
}

/// A zero-numerator fraction reduces to the exact zero.
pub proof fn lemma_norm_zero(d: int)
    requires
        d > 0,
    ensures
        rnorm(Rat { n: 0, d: d }) == rat_zero(),
{
    lemma_small_mod(0, d as nat);
    assert(gcd(0, d as nat) == gcd(d as nat, 0nat % (d as nat)));
    assert(gcd(d as nat, 0) == d as nat);
    vstd::arithmetic::div_mod::lemma_div_of0(d);
    vstd::arithmetic::div_mod::lemma_div_by_self(d);
}

/// A fraction in lowest terms that denotes zero is the exact zero.
pub proof fn lemma_canon_zero(a: Rat)
    requires
        rat_wf(a),
        rat_canon(a),
        a.n == 0,
    ensures
        a == rat_zero(),
{
    lemma_norm_zero(a.d);
}

/// A fraction with equal positive components reduces to the exact one.
pub proof fn lemma_norm_self(k: int)
    requires
        k > 0,
    ensures
        rnorm(Rat { n: k, d: k }) == rat_one(),
{
    lemma_mod_self_0(k);
    assert(gcd(k as nat, k as nat) == gcd(k as nat, (k as nat) % (k as nat)));
    assert((k as nat) % (k as nat) == 0);
    assert(gcd(k as nat, 0) == k as nat);
    vstd::arithmetic::div_mod::lemma_div_by_self(k);
}

/// Multiplying the exact zero by a well-formed fraction, on either side,
/// gives the exact zero.
pub proof fn lemma_nmul_zero(y: Rat)
    requires
        rat_wf(y),
    ensures
        nmul(rat_zero(), y) == rat_zero(),
        nmul(y, rat_zero()) == rat_zero(),
{
    assert(rmul(rat_zero(), y) == Rat { n: 0, d: y.d });
    assert(rmul(y, rat_zero()) == Rat { n: y.n * 0, d: y.d * 1 });
    assert(y.n * 0 == 0) by (nonlinear_arith);
    lemma_norm_zero(y.d);
}

/// Adding the exact zero, on either side, leaves a fraction in lowest
/// terms unchanged; so does subtracting it.
pub proof fn lemma_zero_neutral(x: Rat)
    requires
        rat_wf(x),
        rat_canon(x),
    ensures
        nadd(rat_zero(), x) == x,
        nadd(x, rat_zero()) == x,
        nsub(x, rat_zero()) == x,
{
    assert(radd(rat_zero(), x) == x);
    assert(radd(x, rat_zero()) == x);
    assert(rsub(x, rat_zero()) == x);
}

/// Multiplying by the exact one, on either side, leaves a fraction in
/// lowest terms unchanged; so does dividing by it.
pub proof fn lemma_one_neutral(x: Rat)
    requires
        rat_wf(x),
        rat_canon(x),
    ensures
        nmul(rat_one(), x) == x,
        nmul(x, rat_one()) == x,
        ndiv(x, rat_one()) == x,
{
    assert(rmul(rat_one(), x) == x);
    assert(rmul(x, rat_one()) == x);
    assert(rdiv(x, rat_one()) == x);
}

/// Dividing the exact zero by a nonzero fraction gives the exact zero.
pub proof fn lemma_ndiv_zero(d: Rat)
    requires
        rat_wf(d),
        d.n != 0,
    ensures
        ndiv(rat_zero(), d) == rat_zero(),
{
    if d.n >= 0 {
        assert(rdiv(rat_zero(), d) == Rat { n: 0 * d.d, d: 1 * d.n });
        assert(0 * d.d == 0) by (nonlinear_arith);
        lemma_norm_zero(d.n);
    } else {
        assert(rdiv(rat_zero(), d) == Rat { n: -(0 * d.d), d: -(1 * d.n) });
        assert(0 * d.d == 0) by (nonlinear_arith);
        lemma_norm_zero(-d.n);
    }
}

/// Subtracting a well-formed fraction from itself gives the exact zero.
pub proof fn lemma_nsub_self(x: Rat)
    requires
        rat_wf(x),
    ensures
        nsub(x, x) == rat_zero(),
{
    assert(rsub(x, x) == Rat { n: x.n * x.d - x.n * x.d, d: x.d * x.d });
    assert(x.d * x.d > 0) by (nonlinear_arith)
        requires
            x.d > 0,
    ;
    lemma_norm_zero(x.d * x.d);
}

/// Dividing a nonzero fraction by itself gives the exact one.
pub proof fn lemma_ndiv_self(x: Rat)
    requires
        rat_wf(x),
        x.n != 0,
    ensures
        ndiv(x, x) == rat_one(),
{
    if x.n >= 0 {
        assert(rdiv(x, x) == Rat { n: x.n * x.d, d: x.d * x.n });
        assert(x.n * x.d == x.d * x.n && x.n * x.d > 0) by (nonlinear_arith)
            requires
                x.n > 0,
                x.d > 0,
        ;
        lemma_norm_self(x.n * x.d);
    } else {
        assert(rdiv(x, x) == Rat { n: -(x.n * x.d), d: -(x.d * x.n) });
        assert(-(x.n * x.d) == -(x.d * x.n) && -(x.n * x.d) > 0) by (nonlinear_arith)
            requires
                x.n < 0,
                x.d > 0,
        ;
        lemma_norm_self(-(x.n * x.d));
    }
}

/// Sums, differences and products of well-formed fractions are
/// well-formed.
pub proof fn lemma_nop_wf(a: Rat, b: Rat)
    requires
        rat_wf(a),
        rat_wf(b),
    ensures
        rat_wf(nadd(a, b)),
        rat_wf(nsub(a, b)),
        rat_wf(nmul(a, b)),
{
    assert(a.d * b.d > 0) by (nonlinear_arith)
        requires
            a.d > 0,
            b.d > 0,
    ;
    lemma_rnorm(radd(a, b));
    lemma_rnorm(rsub(a, b));
    lemma_rnorm(rmul(a, b));
}

/// Denoting the same rational is transitive across a well-formed middle
/// fraction.
pub proof fn lemma_rat_eq_trans(a: Rat, b: Rat, c: Rat)
    by (nonlinear_arith)
    requires
        rat_wf(b),
        rat_eq(a, b),
        rat_eq(b, c),
    ensures
        rat_eq(a, c),
{
}

/// A reduced fraction denotes the same rational as the fraction it came
/// from.
pub proof fn lemma_rnorm_eq(a: Rat)
    requires
        rat_wf(a),
    ensures
        rat_eq(rnorm(a), a),
        rat_eq(a, rnorm(a)),
{
    lemma_rnorm(a);
}

/// Multiplying equal rationals by one fraction gives equal rationals.
pub proof fn lemma_rmul_congr(x: Rat, y: Rat, z: Rat)
    by (nonlinear_arith)
    requires
        rat_eq(y, z),
    ensures
        rat_eq(rmul(x, y), rmul(x, z)),
{
}

/// A product of two factors bounded by `m` in magnitude is bounded by `m * m`.
proof fn lemma_mul_bound(x: int, y: int, m: int)
    by (nonlinear_arith)
    requires
        0 <= m,
        -m <= x <= m,
        -m <= y <= m,
    ensures
        -(m * m) <= x * y <= m * m,
{
}

/// A product of two positive factors is positive.
proof fn lemma_mul_pos(x: int, y: int)
    by (nonlinear_arith)
    requires
        0 < x,
        0 < y,
    ensures
        0 < x * y,
{
}

/// An exact rational scalar: a fraction in lowest terms with a positive
/// denominator. Its mathematical value is the [`Rat`] it views to.
#[derive(Clone, Copy, Debug)]
pub struct Rational {
    num: i64,
    den: i64,
}

impl View for Rational {
    type V = Rat;

    closed spec fn view(&self) -> Rat {
        Rat { n: self.num as int, d: self.den as int }
    }
}

impl DeepView for Rational {
    type V = Rat;

    open spec fn deep_view(&self) -> Rat {
        self.view()
    }
}

/// Euclid's algorithm.
fn gcd_exec(a: u128, b: u128) -> (g: u128)
    ensures
        g as nat == gcd(a as nat, b as nat),
{
    let mut x = a;
    let mut y = b;
    while y != 0
        invariant
            gcd(x as nat, y as nat) == gcd(a as nat, b as nat),
        decreases y,
    {
        let t = x % y;
        x = y;
        y = t;
    }
    x
}

impl Rational {
    /// Builds the scalar holding the reduced form of `n / d`, for a
    /// positive denominator whose reduced form fits the component type.
    fn make(n: i128, d: i128) -> (r: Rational)
        requires
            -(i128::MAX as int) <= n,
            0 < d,
            rat_fits(Rat { n: n as int, d: d as int }),
        ensures
            rat_ok(r@),
            r@ == rnorm(Rat { n: n as int, d: d as int }),
    {
        let ghost a = Rat { n: n as int, d: d as int };
        proof {
            lemma_rnorm(a);
            lemma_rnorm_idem(a);
        }
        let neg = n < 0;
        let mag: u128 = if neg {
            (-n) as u128
        } else {
            n as u128
        };
        let du: u128 = d as u128;
        let g = gcd_exec(mag, du);
        proof {
            lemma_gcd_divides(mag as nat, du as nat);
        }
        let qn = mag / g;
        let qd = du / g;
        assert(qn as int == abs_int(a.n) as int / gcd(abs_int(a.n), a.d as nat) as int);
        assert(qd as int == rnorm(a).d);
        assert(qn <= i64::MAX as u128 && 1 <= qd <= i64::MAX as u128);
        let num: i64 = if neg {
            -(qn as i64)
        } else {
            qn as i64
        };
        let den: i64 = qd as i64;
        Rational { num, den }
    }

    /// The scalar denoting `num / den`, reduced to lowest terms with a
    /// positive denominator.
    pub fn new(num: i64, den: i64) -> (r: Rational)
        requires
            den != 0,
            num > i64::MIN,
            den > i64::MIN,
        ensures
            rat_ok(r@),
            r@ == rnorm(rat_signed(num as int, den as int)),
    {
        let n0: i128 = num as i128;
        let d0: i128 = den as i128;
        let (n, d): (i128, i128) = if d0 < 0 {
            (-n0, -d0)
        } else {
            (n0, d0)
        };
        let ghost a = rat_signed(num as int, den as int);
        assert(n as int == a.n && d as int == a.d);
        proof {
            lemma_rnorm(a);
        }
        Rational::make(n, d)
    }

    /// The scalar denoting the integer `i`.
    pub fn from_int(i: i64) -> (r: Rational)
        requires
            i > i64::MIN,
        ensures
            rat_ok(r@),
            r@ == (Rat { n: i as int, d: 1 }),
    {
        proof {
            lemma_int_canon(i as int);
        }
        Rational { num: i, den: 1 }
    }

    /// The additive identity.
    pub fn zero() -> (r: Rational)
        ensures
            rat_ok(r@),
            r@ == rat_zero(),
    {
        proof {
            lemma_int_canon(0);
        }
        Rational { num: 0, den: 1 }
    }

    /// The multiplicative identity.
    pub fn one() -> (r: Rational)
        ensures
            rat_ok(r@),
            r@ == rat_one(),
    {
        proof {
            lemma_int_canon(1);
        }
        Rational { num: 1, den: 1 }
    }

    /// Whether the scalar denotes zero.
    pub fn is_zero(&self) -> (r: bool)
        ensures
            r <==> self@.n == 0,
            r <==> rat_eq(self@, rat_zero()),
    {
        proof {
            assert(self@.n * 1 == self@.n) by (nonlinear_arith);
            assert(0 * self@.d == 0) by (nonlinear_arith);
        }
        self.num == 0
    }

    /// Exact sum, reduced to lowest terms.
    pub fn add(&self, other: &Rational) -> (r: Rational)
        requires
            rat_ok(self@),
            rat_ok(other@),
            rat_fits(radd(self@, other@)),
        ensures
            rat_ok(r@),
            r@ == rnorm(radd(self@, other@)),
    {
        proof {
            lemma_mul_bound(self@.n, other@.d, i64::MAX as int);
            lemma_mul_bound(other@.n, self@.d, i64::MAX as int);
            lemma_mul_bound(self@.d, other@.d, i64::MAX as int);
            lemma_mul_pos(self@.d, other@.d);
        }
        let n = (self.num as i128) * (other.den as i128) + (other.num as i128) * (self.den
            as i128);
        let d = (self.den as i128) * (other.den as i128);
        assert(n as int == radd(self@, other@).n && d as int == radd(self@, other@).d);
        Rational::make(n, d)
    }

    /// Exact difference, reduced to lowest terms.
    pub fn sub(&self, other: &Rational) -> (r: Rational)
        requires
            rat_ok(self@),
            rat_ok(other@),
            rat_fits(rsub(self@, other@)),
        ensures
            rat_ok(r@),
            r@ == rnorm(rsub(self@, other@)),
    {
        proof {
            lemma_mul_bound(self@.n, other@.d, i64::MAX as int);
            lemma_mul_bound(other@.n, self@.d, i64::MAX as int);
            lemma_mul_bound(self@.d, other@.d, i64::MAX as int);
            lemma_mul_pos(self@.d, other@.d);
        }
        let n = (self.num as i128) * (other.den as i128) - (other.num as i128) * (self.den
            as i128);
        let d = (self.den as i128) * (other.den as i128);
        assert(n as int == rsub(self@, other@).n && d as int == rsub(self@, other@).d);
        Rational::make(n, d)
    }

    /// Exact product, reduced to lowest terms.
    pub fn mul(&self, other: &Rational) -> (r: Rational)
        requires
            rat_ok(self@),
            rat_ok(other@),
            rat_fits(rmul(self@, other@)),
        ensures
            rat_ok(r@),
            r@ == rnorm(rmul(self@, other@)),
    {
        proof {
            lemma_mul_bound(self@.n, other@.n, i64::MAX as int);
            lemma_mul_bound(self@.d, other@.d, i64::MAX as int);
            lemma_mul_pos(self@.d, other@.d);
        }
        let n = (self.num as i128) * (other.num as i128);
        let d = (self.den as i128) * (other.den as i128);
        assert(n as int == rmul(self@, other@).n && d as int == rmul(self@, other@).d);
        Rational::make(n, d)
    }

    /// Exact quotient by a nonzero scalar, reduced to lowest terms.
    pub fn div(&self, other: &Rational) -> (r: Rational)
        requires
            rat_ok(self@),
            rat_ok(other@),
            other@.n != 0,
            rat_fits(rdiv(self@, other@)),
        ensures
            rat_ok(r@),
            r@ == rnorm(rdiv(self@, other@)),
    {
        proof {
            lemma_mul_bound(self@.n, other@.d, i64::MAX as int);
            lemma_mul_bound(self@.d, other@.n, i64::MAX as int);
        }
        let n0 = (self.num as i128) * (other.den as i128);
        let d0 = (self.den as i128) * (other.num as i128);
        let (n, d): (i128, i128) = if d0 < 0 {
            (-n0, -d0)
        } else {
            (n0, d0)
        };
        proof {
            if other@.n > 0 {
                lemma_mul_pos(self@.d, other@.n);
            } else {
                lemma_mul_pos(self@.d, -other@.n);
                assert(self@.d * -other@.n == -(self@.d * other@.n)) by (nonlinear_arith);
            }
        }
        assert(n as int == rdiv(self@, other@).n && d as int == rdiv(self@, other@).d);
        Rational::make(n, d)
    }

    /// Exact negation; a reduced fraction stays reduced.
    pub fn neg(&self) -> (r: Rational)
        requires
            rat_ok(self@),
        ensures
            rat_ok(r@),
            r@ == rneg(self@),
    {
        proof {
            lemma_canon_gcd_one(self@);
            assert(abs_int(rneg(self@).n) == abs_int(self@.n));
            lemma_coprime_canon(rneg(self@));
        }
        Rational { num: -self.num, den: self.den }
    }

    /// Exact absolute value; a reduced fraction stays reduced.
    pub fn abs(&self) -> (r: Rational)
        requires
            rat_ok(self@),
        ensures
            rat_ok(r@),
            r@ == rabs(self@),
    {
        proof {
            lemma_canon_gcd_one(self@);
            assert(abs_int(rneg(self@).n) == abs_int(self@.n));
            lemma_coprime_canon(rneg(self@));
        }
        if self.num < 0 {
            Rational { num: -self.num, den: self.den }
        } else {
            *self
        }
    }

    /// Strict order on the denoted rationals.
    /// The numerator of the reduced fraction.
    pub fn numerator(&self) -> (r: i64)
        ensures
            r as int == self@.n,
    {
        self.num
    }

    /// The (positive) denominator of the reduced fraction.
    pub fn denominator(&self) -> (r: i64)
        ensures
            r as int == self@.d,
    {
        self.den
    }

    pub fn lt(&self, other: &Rational) -> (r: bool)
        requires
            rat_ok(self@),
            rat_ok(other@),
        ensures
            r == rat_lt(self@, other@),
    {
        proof {
            lemma_mul_bound(self@.n, other@.d, i64::MAX as int);
            lemma_mul_bound(other@.n, self@.d, i64::MAX as int);
        }
        (self.num as i128) * (other.den as i128) < (other.num as i128) * (self.den as i128)
    }
}

impl PartialEq for Rational {
    /// Whether the two scalars denote the same rational number.
    fn eq(&self, other: &Rational) -> (r: bool) {
        proof {
            lemma_mul_bound(self.num as int, other.den as int, 0x8000_0000_0000_0000);
            lemma_mul_bound(other.num as int, self.den as int, 0x8000_0000_0000_0000);
        }
        (self.num as i128) * (other.den as i128) == (other.num as i128) * (self.den as i128)
    }
}

impl vstd::std_specs::cmp::PartialEqSpecImpl for Rational {
    open spec fn obeys_eq_spec() -> bool {
        true
    }

    open spec fn eq_spec(&self, other: &Rational) -> bool {
        rat_eq(self@, other@)
    }
}

} // verus!
