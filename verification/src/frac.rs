//! Exact rational scalars.
//!
//! Matrix entries, elementary-operation coefficients and boundary
//! coefficients are rationals `num / den`, kept as machine integers and not
//! necessarily in lowest terms.  Contracts speak of a rational through its
//! mathematical representation, a pair of unbounded integers, and of
//! rational equality through cross-multiplication.

use vstd::prelude::*;

verus! {

/// A rational number `num / den`.  Well-formed values keep `den` positive;
/// two values represent the same rational when cross-multiplication agrees.
#[derive(Clone, Copy, Debug, PartialEq, Eq, Structural)]
pub struct Frac {
    pub num: i128,
    pub den: i128,
}

/// The mathematical representation of a `Frac`: (numerator, denominator).
pub open spec fn fracv(f: Frac) -> (int, int) {
    (f.num as int, f.den as int)
}

/// Machine-level well-formedness: positive denominator, and a numerator
/// whose negation still fits.
pub open spec fn frac_wf(f: Frac) -> bool {
    f.den > 0 && f.num > i128::MIN
}

/// Well-formedness of a representation pair: positive denominator.
pub open spec fn rat_wf(a: (int, int)) -> bool {
    a.1 > 0
}

/// `a` and `b` denote the same rational number.
pub open spec fn rat_eq(a: (int, int), b: (int, int)) -> bool {
    a.0 * b.1 == b.0 * a.1
}

pub open spec fn rat_add(a: (int, int), b: (int, int)) -> (int, int) {
    (a.0 * b.1 + b.0 * a.1, a.1 * b.1)
}

pub open spec fn rat_mul(a: (int, int), b: (int, int)) -> (int, int) {
    (a.0 * b.0, a.1 * b.1)
}

pub open spec fn rat_neg(a: (int, int)) -> (int, int) {
    (-a.0, a.1)
}

/// The multiplicative inverse, with the sign moved to the numerator.
pub open spec fn rat_inv(a: (int, int)) -> (int, int) {
    if a.0 < 0 {
        (-a.1, -a.0)
    } else {
        (a.1, a.0)
    }
}

pub open spec fn rat_is_zero(a: (int, int)) -> bool {
    a.0 == 0
}

/// The value fits the machine scalar range, with the negation still
/// representable.
pub open spec fn in_scalar_range(x: int) -> bool {
    i128::MIN < x <= i128::MAX
}

/// The exact addition of `a` and `b` stays within the machine range:
/// both cross-products, their sum, and the product of the denominators.
pub open spec fn rat_add_fits(a: (int, int), b: (int, int)) -> bool {
    &&& i128::MIN <= a.0 * b.1 <= i128::MAX
    &&& i128::MIN <= b.0 * a.1 <= i128::MAX
    &&& in_scalar_range(a.0 * b.1 + b.0 * a.1)
    &&& i128::MIN <= a.1 * b.1 <= i128::MAX
}

/// The exact multiplication of `a` and `b` stays within the machine
/// range: the product of the numerators and of the denominators.
pub open spec fn rat_mul_fits(a: (int, int), b: (int, int)) -> bool {
    &&& in_scalar_range(a.0 * b.0)
    &&& i128::MIN <= a.1 * b.1 <= i128::MAX
}

pub open spec fn rat_is_one(a: (int, int)) -> bool {
    a.0 == a.1
}

/// Rational equality is transitive (on representations with nonzero
/// denominators).
pub proof fn lemma_rat_eq_trans(a: (int, int), b: (int, int), c: (int, int))
    requires
        b.1 != 0,
        rat_eq(a, b),
        rat_eq(b, c),
    ensures
        rat_eq(a, c),
{
    assert(a.0 * c.1 == c.0 * a.1) by (nonlinear_arith)
        requires
            b.1 != 0,
            a.0 * b.1 == b.0 * a.1,
            b.0 * c.1 == c.0 * b.1,
    ;
}

proof fn lemma_mul_distribute(x: int, y: int, z: int)
    ensures
        (x + y) * z == x * z + y * z,
{
    assert((x + y) * z == x * z + y * z) by (nonlinear_arith);
}

proof fn lemma_mul_shuffle(p: int, q: int, r: int, s: int)
    ensures
        (p * q) * (r * s) == (p * r) * (q * s),
        (p * q) * (r * s) == (p * s) * (q * r),
{
    assert((p * q) * (r * s) == (p * r) * (q * s)) by (nonlinear_arith);
    assert((p * q) * (r * s) == (p * s) * (q * r)) by (nonlinear_arith);
}

/// Addition respects rational equality.
pub proof fn lemma_rat_add_congruence(a: (int, int), a2: (int, int), b: (int, int), b2: (int, int))
    requires
        rat_eq(a, a2),
        rat_eq(b, b2),
    ensures
        rat_eq(rat_add(a, b), rat_add(a2, b2)),
{
    lemma_mul_distribute(a.0 * b.1, b.0 * a.1, a2.1 * b2.1);
    lemma_mul_shuffle(a.0, b.1, a2.1, b2.1);
    assert((a.0 * a2.1) * (b.1 * b2.1) == (a2.0 * a.1) * (b.1 * b2.1));
    lemma_mul_shuffle(a2.0, a.1, b.1, b2.1);
    lemma_mul_shuffle(a2.0, b2.1, a.1, b.1);
    lemma_mul_shuffle(b.0, a.1, a2.1, b2.1);
    assert((b.0 * b2.1) * (a.1 * a2.1) == (b2.0 * b.1) * (a.1 * a2.1));
    lemma_mul_shuffle(b2.0, b.1, a.1, a2.1);
    lemma_mul_shuffle(b2.0, a2.1, a.1, b.1);
    lemma_mul_distribute(a2.0 * b2.1, b2.0 * a2.1, a.1 * b.1);
}

/// Multiplication respects rational equality.
pub proof fn lemma_rat_mul_congruence(a: (int, int), a2: (int, int), b: (int, int), b2: (int, int))
    requires
        rat_eq(a, a2),
        rat_eq(b, b2),
    ensures
        rat_eq(rat_mul(a, b), rat_mul(a2, b2)),
{
    assert((a.0 * b.0) * (a2.1 * b2.1) == (a2.0 * b2.0) * (a.1 * b.1)) by (nonlinear_arith)
        requires
            a.0 * a2.1 == a2.0 * a.1,
            b.0 * b2.1 == b2.0 * b.1,
    ;
}

/// Scaling by a nonzero rational and then by its inverse returns the
/// original value.
pub proof fn lemma_rat_mul_inv(l: (int, int), x: (int, int))
    requires
        l.0 != 0,
    ensures
        rat_eq(rat_mul(rat_inv(l), rat_mul(l, x)), x),
{
    if l.0 < 0 {
        assert(((-l.1) * (l.0 * x.0)) * x.1 == x.0 * ((-l.0) * (l.1 * x.1))) by (nonlinear_arith);
    } else {
        assert((l.1 * (l.0 * x.0)) * x.1 == x.0 * (l.0 * (l.1 * x.1))) by (nonlinear_arith);
    }
}

/// Adding a multiple of a value and then subtracting the same multiple
/// returns the original value.
pub proof fn lemma_rat_add_cancel(x: (int, int), l: (int, int), y: (int, int))
    ensures
        rat_eq(rat_add(rat_add(x, rat_mul(l, y)), rat_mul(rat_neg(l), y)), x),
{
    let av = l.0 * y.0;
    let bv = l.1 * y.1;
    assert((-l.0) * y.0 == -av) by (nonlinear_arith)
        requires
            av == l.0 * y.0,
    ;
    let p = rat_mul(l, y);
    let q = rat_add(x, p);
    let r = rat_mul(rat_neg(l), y);
    let s = rat_add(q, r);
    assert(q.0 == x.0 * bv + av * x.1);
    assert(q.1 == x.1 * bv);
    assert(s.0 == q.0 * bv + (-av) * q.1);
    assert(s.1 == q.1 * bv);
    assert(((x.0 * bv + av * x.1) * bv + (-av) * (x.1 * bv)) * x.1 == x.0 * ((x.1 * bv) * bv))
        by (nonlinear_arith);
}

impl Frac {
    pub fn zero() -> (r: Frac)
        ensures
            frac_wf(r),
            fracv(r) == (0int, 1int),
    {
        Frac { num: 0, den: 1 }
    }

    pub fn one() -> (r: Frac)
        ensures
            frac_wf(r),
            fracv(r) == (1int, 1int),
    {
        Frac { num: 1, den: 1 }
    }

    pub fn from_int(n: i64) -> (r: Frac)
        ensures
            frac_wf(r),
            fracv(r) == (n as int, 1int),
    {
        Frac { num: n as i128, den: 1 }
    }

    pub fn is_zero(&self) -> (r: bool)
        ensures
            r == rat_is_zero(fracv(*self)),
    {
        self.num == 0
    }

    pub fn is_one(&self) -> (r: bool)
        ensures
            r == rat_is_one(fracv(*self)),
    {
        self.num == self.den
    }

    /// Rational addition; `None` exactly when an intermediate product or
    /// sum leaves the machine range.
    pub fn try_add(self, other: Frac) -> (r: Option<Frac>)
        requires
            frac_wf(self),
            frac_wf(other),
        ensures
            r matches Some(c) ==> frac_wf(c) && fracv(c) == rat_add(
                fracv(self),
                fracv(other),
            ),
            r is Some <==> rat_add_fits(fracv(self), fracv(other)),
    {
        let n1 = self.num.checked_mul(other.den)?;
        let n2 = other.num.checked_mul(self.den)?;
        let n = n1.checked_add(n2)?;
        let d = self.den.checked_mul(other.den)?;
        if n == i128::MIN {
            return None;
        }
        assert(self.den * other.den > 0) by (nonlinear_arith)
            requires
                self.den > 0,
                other.den > 0,
        ;
        Some(Frac { num: n, den: d })
    }

    /// Rational multiplication; `None` exactly when a product leaves the
    /// machine range.
    pub fn try_mul(self, other: Frac) -> (r: Option<Frac>)
        requires
            frac_wf(self),
            frac_wf(other),
        ensures
            r matches Some(c) ==> frac_wf(c) && fracv(c) == rat_mul(
                fracv(self),
                fracv(other),
            ),
            r is Some <==> rat_mul_fits(fracv(self), fracv(other)),
    {
        let n = self.num.checked_mul(other.num)?;
        let d = self.den.checked_mul(other.den)?;
        if n == i128::MIN {
            return None;
        }
        assert(self.den * other.den > 0) by (nonlinear_arith)
            requires
                self.den > 0,
                other.den > 0,
        ;
        Some(Frac { num: n, den: d })
    }

    pub fn neg(self) -> (r: Frac)
        requires
            frac_wf(self),
        ensures
            frac_wf(r),
            fracv(r) == rat_neg(fracv(self)),
    {
        Frac { num: -self.num, den: self.den }
    }

    /// The multiplicative inverse.  The caller must keep the scalar
    /// invertible, that is, nonzero.
    pub fn inv(self) -> (r: Frac)
        requires
            frac_wf(self),
            self.num != 0,
        ensures
            frac_wf(r),
            fracv(r) == rat_inv(fracv(self)),
    {
        if self.num < 0 {
            Frac { num: -self.den, den: -self.num }
        } else {
            Frac { num: self.den, den: self.num }
        }
    }
}

} // verus!
