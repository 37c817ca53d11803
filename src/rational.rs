use vstd::prelude::*;

verus! {

use crate::divisibility::{
    divides, gcd_spec, lemma_divides_le, lemma_divides_mul, lemma_divides_quotient, lemma_gcd,
};
use crate::gcd;
use vstd::arithmetic::div_mod::{lemma_fundamental_div_mod, lemma_fundamental_div_mod_converse};
use std::cmp::Ordering;

/// The value fits in an `i64`.
pub open spec fn fits_i64(x: int) -> bool {
    i64::MIN <= x <= i64::MAX
}

/// Absolute value of an integer.
pub open spec fn abs_int(x: int) -> int {
    if x < 0 {
        -x
    } else {
        x
    }
}

/// The product of two numbers no larger than `2^63` in magnitude lies within `2^126` of
/// zero, and so fits an `i128`.
proof fn lemma_i64_product_bound(a: int, b: int)
    requires
        abs_int(a) <= 0x8000_0000_0000_0000,
        abs_int(b) <= 0x8000_0000_0000_0000,
    ensures
        -0x4000_0000_0000_0000_0000_0000_0000_0000 <= a * b <= 0x4000_0000_0000_0000_0000_0000_0000_0000,
{
    assert(abs_int(a) <= 0x8000_0000_0000_0000);
    assert(abs_int(b) <= 0x8000_0000_0000_0000);
    assert(abs_int(a) * abs_int(b) <= 0x8000_0000_0000_0000 * 0x8000_0000_0000_0000) by (nonlinear_arith)
        requires
            0 <= abs_int(a) <= 0x8000_0000_0000_0000,
            0 <= abs_int(b) <= 0x8000_0000_0000_0000,
    ;
    assert(abs_int(a * b) == abs_int(a) * abs_int(b)) by (nonlinear_arith);
}

/// The magnitude of `x`, which always fits a `u64`.
fn magnitude(x: i64) -> (r: u64)
    ensures
        r == abs_int(x as int),
{
    if x < 0 {
        (-(x as i128)) as u64
    } else {
        x as u64
    }
}

/// `x / g` for a divisor `g` of `x`, keeping the sign of `x`.
fn divide_exact(x: i64, g: u64) -> (r: i64)
    requires
        g >= 2,
        divides(g as nat, abs_int(x as int) as nat),
    ensures
        r == x as int / g as int,
        x as int == r * g,
{
    let m = magnitude(x);
    let q = m / g;
    proof {
        lemma_fundamental_div_mod(m as int, g as int);
        assert(q <= m) by (nonlinear_arith)
            requires
                m == g * q,
                g >= 2,
        ;
        assert(q < 0x8000_0000_0000_0000 || m == 0) by (nonlinear_arith)
            requires
                m == g * q,
                g >= 2,
                m <= 0x8000_0000_0000_0000,
        ;
    }
    if x < 0 {
        proof {
            assert(x as int == (-(q as int)) * g) by (nonlinear_arith)
                requires
                    x as int == -(m as int),
                    m == g * q,
            ;
            lemma_fundamental_div_mod_converse(x as int, g as int, -(q as int), 0);
        }
        -(q as i64)
    } else {
        proof {
            assert(x as int == q * g) by (nonlinear_arith)
                requires
                    x as int == m,
                    m == g * q,
            ;
            lemma_fundamental_div_mod_converse(x as int, g as int, q as int, 0);
        }
        q as i64
    }
}

/// `x` as an `i64`, or `None` when it does not fit.
fn narrow(x: i128) -> (r: Option<i64>)
    ensures
        r.is_some() <==> fits_i64(x as int),
        r matches Some(v) ==> v == x,
{
    if i64::MIN as i128 <= x && x <= i64::MAX as i128 {
        Some(x as i64)
    } else {
        None
    }
}

/// A product of two nonzero `i64` values is nonzero.
proof fn lemma_product_nonzero(a: int, b: int)
    requires
        a != 0,
        b != 0,
    ensures
        a * b != 0,
{
    assert(a * b != 0) by (nonlinear_arith)
        requires
            a != 0,
            b != 0,
    ;
}

/// An exact fraction `top / bottom` of two `i64` values. The denominator is never zero;
/// it may be negative, and the fraction need not be in lowest terms.
#[derive(Debug)]
pub struct Rational {
    top: i64,
    bottom: i64,
}

impl Rational {
    #[verifier::type_invariant]
    spec fn denominator_nonzero(self) -> bool {
        self.bottom != 0
    }

    /// The stored numerator.
    pub closed spec fn num(self) -> int {
        self.top as int
    }

    /// The stored denominator.
    pub closed spec fn den(self) -> int {
        self.bottom as int
    }

    /// The fraction with the given numerator and denominator, as stored.
    pub closed spec fn from_parts(top: int, bottom: int) -> Rational {
        Rational { top: top as i64, bottom: bottom as i64 }
    }

    /// The fraction divided through by the greatest common divisor of the magnitudes of
    /// its numerator and denominator, when that divisor is above one.
    pub open spec fn simplified(self) -> Rational {
        let g = gcd_spec(abs_int(self.num()) as nat, abs_int(self.den()) as nat);
        if g <= 1 {
            self
        } else {
            Rational::from_parts(self.num() / g as int, self.den() / g as int)
        }
    }

    /// The same fraction with both parts negated when the denominator is negative.
    pub open spec fn sign_flipped(self) -> Rational {
        if self.den() < 0 {
            Rational::from_parts(-self.num(), -self.den())
        } else {
            self
        }
    }

    /// Both parts replaced by their magnitudes.
    pub open spec fn magnitudes(self) -> Rational {
        Rational::from_parts(abs_int(self.num()), abs_int(self.den()))
    }

    /// `self + rhs` over the product of the denominators, unreduced.
    pub open spec fn sum(self, rhs: Rational) -> Rational {
        Rational::from_parts(self.num() * rhs.den() + self.den() * rhs.num(), self.den() * rhs.den())
    }

    /// Both parts of `self + rhs` fit an `i64`.
    pub open spec fn sum_fits(self, rhs: Rational) -> bool {
        fits_i64(self.num() * rhs.den() + self.den() * rhs.num()) && fits_i64(self.den() * rhs.den())
    }

    /// `self - rhs` over the product of the denominators, unreduced.
    pub open spec fn difference(self, rhs: Rational) -> Rational {
        Rational::from_parts(self.num() * rhs.den() - self.den() * rhs.num(), self.den() * rhs.den())
    }

    /// Both parts of `self - rhs` fit an `i64`.
    pub open spec fn difference_fits(self, rhs: Rational) -> bool {
        fits_i64(self.num() * rhs.den() - self.den() * rhs.num()) && fits_i64(self.den() * rhs.den())
    }

    /// `self * rhs`, part by part, unreduced.
    pub open spec fn times(self, rhs: Rational) -> Rational {
        Rational::from_parts(self.num() * rhs.num(), self.den() * rhs.den())
    }

    /// Both parts of `self * rhs` fit an `i64`.
    pub open spec fn times_fits(self, rhs: Rational) -> bool {
        fits_i64(self.num() * rhs.num()) && fits_i64(self.den() * rhs.den())
    }

    /// `self` times the reciprocal of `rhs`, unreduced.
    pub open spec fn quotient(self, rhs: Rational) -> Rational {
        Rational::from_parts(self.num() * rhs.den(), self.den() * rhs.num())
    }

    /// `rhs` is not zero and both parts of `self / rhs` fit an `i64`.
    pub open spec fn quotient_fits(self, rhs: Rational) -> bool {
        rhs.num() != 0 && fits_i64(self.num() * rhs.den()) && fits_i64(self.den() * rhs.num())
    }

    /// `self / k`: the denominator times `k`.
    pub open spec fn over(self, k: int) -> Rational {
        Rational::from_parts(self.num(), self.den() * k)
    }

    /// `k` is not zero and the denominator of `self / k` fits an `i64`.
    pub open spec fn over_fits(self, k: int) -> bool {
        k != 0 && fits_i64(self.den() * k)
    }

    /// `-self`: a negative denominator loses its sign, otherwise the numerator is negated.
    pub open spec fn negated(self) -> Rational {
        if self.den() < 0 {
            Rational::from_parts(self.num(), -self.den())
        } else {
            Rational::from_parts(-self.num(), self.den())
        }
    }

    /// The part that `-self` negates is not `i64::MIN`.
    pub open spec fn negated_fits(self) -> bool {
        if self.den() < 0 {
            fits_i64(-self.den())
        } else {
            fits_i64(-self.num())
        }
    }

    /// A fraction built from parts that fit keeps them.
    pub proof fn lemma_from_parts(top: int, bottom: int)
        requires
            fits_i64(top),
            fits_i64(bottom),
        ensures
            Rational::from_parts(top, bottom).num() == top,
            Rational::from_parts(top, bottom).den() == bottom,
    {
    }

    /// The fraction `top / bottom`, stored as given: neither reduced nor sign-normalized.
    pub fn new(top: i64, bottom: i64) -> (r: Rational)
        requires
            bottom != 0,
        ensures
            r.num() == top,
            r.den() == bottom,
    {
        Rational { top, bottom }
    }

    /// Zero, as `0 / 1`.
    pub fn zero() -> (r: Rational)
        ensures
            r.num() == 0,
            r.den() == 1,
    {
        Rational { top: 0, bottom: 1 }
    }

    /// The fraction `top / bottom`, or `None` when `bottom` is zero.
    pub fn try_new(top: i64, bottom: i64) -> (r: Option<Rational>)
        ensures
            r.is_none() <==> bottom == 0,
            r matches Some(q) ==> q.num() == top && q.den() == bottom,
    {
        if bottom == 0 {
            None
        } else {
            Some(Rational::new(top, bottom))
        }
    }

    /// The fraction reduced by the greatest common divisor of the magnitudes of its parts;
    /// returned as it is when that divisor is zero or one. The sign stays where it was.
    pub fn simplify(&self) -> (r: Rational)
        ensures
            r == self.simplified(),
            r.num() == self.simplified().num(),
            r.den() == self.simplified().den(),
    {
        proof {
            use_type_invariant(self);
        }
        let abs_top = magnitude(self.top);
        let abs_bottom = magnitude(self.bottom);
        let g = gcd(abs_top, abs_bottom);
        if g <= 1 {
            Rational { top: self.top, bottom: self.bottom }
        } else {
            let top = divide_exact(self.top, g);
            let bottom = divide_exact(self.bottom, g);
            Rational { top, bottom }
        }
    }

    /// The same fraction with a denominator that is not negative: when the denominator
    /// is negative, both parts are negated.
    pub fn flip_signs(&self) -> (r: Rational)
        requires
            self.den() < 0 ==> fits_i64(-self.num()) && fits_i64(-self.den()),
        ensures
            r == self.sign_flipped(),
            r.num() == self.sign_flipped().num(),
            r.den() == self.sign_flipped().den(),
            r.den() > 0,
    {
        proof {
            use_type_invariant(self);
        }
        if self.bottom < 0 {
            Rational { top: -self.top, bottom: -self.bottom }
        } else {
            Rational { top: self.top, bottom: self.bottom }
        }
    }

    /// Both parts replaced by their magnitudes. This is the magnitude of the fraction;
    /// the sign of a negative fraction is lost.
    pub fn abs(&self) -> (r: Rational)
        requires
            fits_i64(abs_int(self.num())),
            fits_i64(abs_int(self.den())),
        ensures
            r == self.magnitudes(),
            r.num() == abs_int(self.num()),
            r.den() == abs_int(self.den()),
    {
        proof {
            use_type_invariant(self);
        }
        let top = if self.top < 0 {
            -self.top
        } else {
            self.top
        };
        let bottom = if self.bottom < 0 {
            -self.bottom
        } else {
            self.bottom
        };
        Rational { top, bottom }
    }

    /// `self + rhs`, or `None` when a part of the result does not fit an `i64`.
    pub fn checked_add(&self, rhs: &Rational) -> (r: Option<Rational>)
        ensures
            r.is_some() <==> self.sum_fits(*rhs),
            r matches Some(q) ==> q == self.sum(*rhs),
    {
        proof {
            use_type_invariant(self);
            use_type_invariant(rhs);
            lemma_i64_product_bound(self.num(), rhs.den());
            lemma_i64_product_bound(self.den(), rhs.num());
            lemma_i64_product_bound(self.den(), rhs.den());
            lemma_product_nonzero(self.den(), rhs.den());
        }
        let left = (self.top as i128) * (rhs.bottom as i128);
        let right = (self.bottom as i128) * (rhs.top as i128);
        let bottom = (self.bottom as i128) * (rhs.bottom as i128);
        match (left.checked_add(right), narrow(bottom)) {
            (Some(top), Some(bottom)) => match narrow(top) {
                Some(top) => Some(Rational { top, bottom }),
                None => None,
            },
            _ => None,
        }
    }

    /// `self - rhs`, or `None` when a part of the result does not fit an `i64`.
    pub fn checked_sub(&self, rhs: &Rational) -> (r: Option<Rational>)
        ensures
            r.is_some() <==> self.difference_fits(*rhs),
            r matches Some(q) ==> q == self.difference(*rhs),
    {
        proof {
            use_type_invariant(self);
            use_type_invariant(rhs);
            lemma_i64_product_bound(self.num(), rhs.den());
            lemma_i64_product_bound(self.den(), rhs.num());
            lemma_i64_product_bound(self.den(), rhs.den());
            lemma_product_nonzero(self.den(), rhs.den());
        }
        let left = (self.top as i128) * (rhs.bottom as i128);
        let right = (self.bottom as i128) * (rhs.top as i128);
        let bottom = (self.bottom as i128) * (rhs.bottom as i128);
        match (left.checked_sub(right), narrow(bottom)) {
            (Some(top), Some(bottom)) => match narrow(top) {
                Some(top) => Some(Rational { top, bottom }),
                None => None,
            },
            _ => None,
        }
    }

    /// `self * rhs`, or `None` when a part of the result does not fit an `i64`.
    pub fn checked_mul(&self, rhs: &Rational) -> (r: Option<Rational>)
        ensures
            r.is_some() <==> self.times_fits(*rhs),
            r matches Some(q) ==> q == self.times(*rhs),
    {
        proof {
            use_type_invariant(self);
            use_type_invariant(rhs);
            lemma_i64_product_bound(self.num(), rhs.num());
            lemma_i64_product_bound(self.den(), rhs.den());
            lemma_product_nonzero(self.den(), rhs.den());
        }
        let top = (self.top as i128) * (rhs.top as i128);
        let bottom = (self.bottom as i128) * (rhs.bottom as i128);
        match (narrow(top), narrow(bottom)) {
            (Some(top), Some(bottom)) => Some(Rational { top, bottom }),
            _ => None,
        }
    }

    /// `self / rhs`, or `None` when `rhs` is zero or a part of the result does not fit
    /// an `i64`.
    pub fn checked_div(&self, rhs: &Rational) -> (r: Option<Rational>)
        ensures
            r.is_some() <==> self.quotient_fits(*rhs),
            r matches Some(q) ==> q == self.quotient(*rhs),
    {
        proof {
            use_type_invariant(self);
            use_type_invariant(rhs);
            lemma_i64_product_bound(self.num(), rhs.den());
            lemma_i64_product_bound(self.den(), rhs.num());
        }
        if rhs.top == 0 {
            return None;
        }
        proof {
            lemma_product_nonzero(self.den(), rhs.num());
        }
        let top = (self.top as i128) * (rhs.bottom as i128);
        let bottom = (self.bottom as i128) * (rhs.top as i128);
        match (narrow(top), narrow(bottom)) {
            (Some(top), Some(bottom)) => Some(Rational { top, bottom }),
            _ => None,
        }
    }

    /// Replaces `self` with `self + rhs`.
    pub fn add_assign(&mut self, rhs: Rational)
        requires
            old(self).sum_fits(rhs),
        ensures
            *final(self) == old(self).sum(rhs),
    {
        proof {
            use_type_invariant(&*self);
        }
        let lhs = Rational { top: self.top, bottom: self.bottom };
        *self = lhs + rhs;
    }

    /// Replaces `self` with `self - rhs`.
    pub fn sub_assign(&mut self, rhs: Rational)
        requires
            old(self).difference_fits(rhs),
        ensures
            *final(self) == old(self).difference(rhs),
    {
        proof {
            use_type_invariant(&*self);
        }
        let lhs = Rational { top: self.top, bottom: self.bottom };
        *self = lhs - rhs;
    }

    /// Replaces `self` with `self * rhs`.
    pub fn mul_assign(&mut self, rhs: Rational)
        requires
            old(self).times_fits(rhs),
        ensures
            *final(self) == old(self).times(rhs),
    {
        proof {
            use_type_invariant(&*self);
        }
        let lhs = Rational { top: self.top, bottom: self.bottom };
        *self = lhs * rhs;
    }

    /// Replaces `self` with `self / rhs`; `rhs` must not be zero.
    pub fn div_assign(&mut self, rhs: Rational)
        requires
            old(self).quotient_fits(rhs),
        ensures
            *final(self) == old(self).quotient(rhs),
    {
        proof {
            use_type_invariant(&*self);
        }
        let lhs = Rational { top: self.top, bottom: self.bottom };
        *self = lhs / rhs;
    }

    /// Replaces `self` with `self / rhs` for an integer `rhs`, which must not be zero.
    pub fn div_assign_int(&mut self, rhs: i64)
        requires
            old(self).over_fits(rhs as int),
        ensures
            *final(self) == old(self).over(rhs as int),
    {
        proof {
            use_type_invariant(&*self);
        }
        let lhs = Rational { top: self.top, bottom: self.bottom };
        *self = lhs / rhs;
    }

    /// The stored numerator.
    pub fn numerator(&self) -> (r: i64)
        ensures
            r == self.num(),
    {
        self.top
    }

    /// The stored denominator, never zero.
    pub fn denominator(&self) -> (r: i64)
        ensures
            r == self.den(),
            r != 0,
    {
        proof {
            use_type_invariant(self);
        }
        self.bottom
    }
}

impl Default for Rational {
    /// Zero, as `0 / 1`.
    fn default() -> (r: Rational)
        ensures
            r.num() == 0,
            r.den() == 1,
    {
        Rational::zero()
    }
}

impl From<i64> for Rational {
    /// The integer `value`, as `value / 1`.
    fn from(value: i64) -> (r: Rational) {
        Rational::new(value, 1)
    }
}

impl vstd::std_specs::convert::FromSpecImpl<i64> for Rational {
    open spec fn obeys_from_spec() -> bool {
        true
    }

    open spec fn from_spec(value: i64) -> Rational {
        Rational::from_parts(value as int, 1)
    }
}

impl std::ops::Add<Rational> for Rational {
    type Output = Rational;

    /// `self + rhs` over the product of the denominators, unreduced.
    fn add(self, rhs: Rational) -> (r: Rational) {
        proof {
            use_type_invariant(&self);
            use_type_invariant(&rhs);
            lemma_i64_product_bound(self.num(), rhs.den());
            lemma_i64_product_bound(self.den(), rhs.num());
            lemma_i64_product_bound(self.den(), rhs.den());
            lemma_product_nonzero(self.den(), rhs.den());
        }
        let top = (self.top as i128) * (rhs.bottom as i128) + (self.bottom as i128) * (rhs.top as i128);
        let bottom = (self.bottom as i128) * (rhs.bottom as i128);
        Rational { top: top as i64, bottom: bottom as i64 }
    }
}

impl vstd::std_specs::ops::AddSpecImpl<Rational> for Rational {
    open spec fn obeys_add_spec() -> bool {
        true
    }

    open spec fn add_req(self, rhs: Rational) -> bool {
        self.sum_fits(rhs)
    }

    open spec fn add_spec(self, rhs: Rational) -> Rational {
        self.sum(rhs)
    }
}

impl std::ops::Sub<Rational> for Rational {
    type Output = Rational;

    /// `self - rhs` over the product of the denominators, unreduced.
    fn sub(self, rhs: Rational) -> (r: Rational) {
        proof {
            use_type_invariant(&self);
            use_type_invariant(&rhs);
            lemma_i64_product_bound(self.num(), rhs.den());
            lemma_i64_product_bound(self.den(), rhs.num());
            lemma_i64_product_bound(self.den(), rhs.den());
            lemma_product_nonzero(self.den(), rhs.den());
        }
        let top = (self.top as i128) * (rhs.bottom as i128) - (self.bottom as i128) * (rhs.top as i128);
        let bottom = (self.bottom as i128) * (rhs.bottom as i128);
        Rational { top: top as i64, bottom: bottom as i64 }
    }
}

impl vstd::std_specs::ops::SubSpecImpl<Rational> for Rational {
    open spec fn obeys_sub_spec() -> bool {
        true
    }

    open spec fn sub_req(self, rhs: Rational) -> bool {
        self.difference_fits(rhs)
    }

    open spec fn sub_spec(self, rhs: Rational) -> Rational {
        self.difference(rhs)
    }
}

impl std::ops::Mul<Rational> for Rational {
    type Output = Rational;

    /// `self * rhs`, part by part, unreduced.
    fn mul(self, rhs: Rational) -> (r: Rational) {
        proof {
            use_type_invariant(&self);
            use_type_invariant(&rhs);
            lemma_i64_product_bound(self.num(), rhs.num());
            lemma_i64_product_bound(self.den(), rhs.den());
            lemma_product_nonzero(self.den(), rhs.den());
        }
        let top = (self.top as i128) * (rhs.top as i128);
        let bottom = (self.bottom as i128) * (rhs.bottom as i128);
        Rational { top: top as i64, bottom: bottom as i64 }
    }
}

impl vstd::std_specs::ops::MulSpecImpl<Rational> for Rational {
    open spec fn obeys_mul_spec() -> bool {
        true
    }

    open spec fn mul_req(self, rhs: Rational) -> bool {
        self.times_fits(rhs)
    }

    open spec fn mul_spec(self, rhs: Rational) -> Rational {
        self.times(rhs)
    }
}

impl std::ops::Div<Rational> for Rational {
    type Output = Rational;

    /// `self` times the reciprocal of `rhs`, unreduced; `rhs` must not be zero.
    fn div(self, rhs: Rational) -> (r: Rational) {
        proof {
            use_type_invariant(&self);
            use_type_invariant(&rhs);
            lemma_i64_product_bound(self.num(), rhs.den());
            lemma_i64_product_bound(self.den(), rhs.num());
            lemma_product_nonzero(self.den(), rhs.num());
        }
        let top = (self.top as i128) * (rhs.bottom as i128);
        let bottom = (self.bottom as i128) * (rhs.top as i128);
        Rational { top: top as i64, bottom: bottom as i64 }
    }
}

impl vstd::std_specs::ops::DivSpecImpl<Rational> for Rational {
    open spec fn obeys_div_spec() -> bool {
        true
    }

    open spec fn div_req(self, rhs: Rational) -> bool {
        self.quotient_fits(rhs)
    }

    open spec fn div_spec(self, rhs: Rational) -> Rational {
        self.quotient(rhs)
    }
}

impl std::ops::Div<i64> for Rational {
    type Output = Rational;

    /// `self / rhs`: the denominator times `rhs`, which must not be zero.
    fn div(self, rhs: i64) -> (r: Rational) {
        proof {
            use_type_invariant(&self);
            lemma_i64_product_bound(self.den(), rhs as int);
            lemma_product_nonzero(self.den(), rhs as int);
        }
        let bottom = (self.bottom as i128) * (rhs as i128);
        Rational { top: self.top, bottom: bottom as i64 }
    }
}

impl vstd::std_specs::ops::DivSpecImpl<i64> for Rational {
    open spec fn obeys_div_spec() -> bool {
        true
    }

    open spec fn div_req(self, rhs: i64) -> bool {
        self.over_fits(rhs as int)
    }

    open spec fn div_spec(self, rhs: i64) -> Rational {
        self.over(rhs as int)
    }
}

impl std::ops::Neg for Rational {
    type Output = Rational;

    /// `-self`: a negative denominator loses its sign, otherwise the numerator is negated,
    /// so the sign stays on the part that carried it.
    fn neg(self) -> (r: Rational) {
        proof {
            use_type_invariant(&self);
        }
        if self.bottom < 0 {
            Rational { top: self.top, bottom: -self.bottom }
        } else {
            Rational { top: -self.top, bottom: self.bottom }
        }
    }
}

impl vstd::std_specs::ops::NegSpecImpl for Rational {
    open spec fn obeys_neg_spec() -> bool {
        true
    }

    open spec fn neg_req(self) -> bool {
        self.negated_fits()
    }

    open spec fn neg_spec(self) -> Rational {
        self.negated()
    }
}

/// How `a` compares with `b` as numbers: by the sign of
/// `(a.num * b.den - b.num * a.den) * (a.den * b.den)`, which takes the signs of both
/// denominators into account.
pub open spec fn value_cmp(a: Rational, b: Rational) -> Ordering {
    let s = (a.num() * b.den() - b.num() * a.den()) * (a.den() * b.den());
    if s < 0 {
        Ordering::Less
    } else if s == 0 {
        Ordering::Equal
    } else {
        Ordering::Greater
    }
}

/// Multiplying by a positive number keeps the sign; by a negative one, reverses it.
proof fn lemma_sign_of_product(x: int, p: int)
    requires
        p != 0,
    ensures
        p > 0 ==> ((x * p < 0 <==> x < 0) && (x * p == 0 <==> x == 0)),
        p < 0 ==> ((x * p < 0 <==> x > 0) && (x * p == 0 <==> x == 0)),
{
    if p > 0 {
        assert((x * p < 0 <==> x < 0) && (x * p == 0 <==> x == 0)) by (nonlinear_arith)
            requires
                p > 0,
        ;
    } else {
        assert((x * p < 0 <==> x > 0) && (x * p == 0 <==> x == 0)) by (nonlinear_arith)
            requires
                p < 0,
        ;
    }
}

impl PartialOrd for Rational {
    /// Compares the two fractions as numbers. Both are first brought to a positive
    /// denominator (in `i128`, where negating `i64::MIN` cannot overflow); then their
    /// cross products decide. Reducing to lowest terms would not change the outcome, so
    /// the comparison never fails and never overflows.
    fn partial_cmp(&self, rhs: &Rational) -> (r: Option<Ordering>) {
        proof {
            use_type_invariant(self);
            use_type_invariant(rhs);
        }
        let (lhs_top, lhs_bottom) = if self.bottom < 0 {
            (-(self.top as i128), -(self.bottom as i128))
        } else {
            (self.top as i128, self.bottom as i128)
        };
        let (rhs_top, rhs_bottom) = if rhs.bottom < 0 {
            (-(rhs.top as i128), -(rhs.bottom as i128))
        } else {
            (rhs.top as i128, rhs.bottom as i128)
        };
        proof {
            lemma_i64_product_bound(lhs_top as int, rhs_bottom as int);
            lemma_i64_product_bound(rhs_top as int, lhs_bottom as int);
        }
        let left = lhs_top * rhs_bottom;
        let right = rhs_top * lhs_bottom;
        proof {
            let x = self.num() * rhs.den() - rhs.num() * self.den();
            let p = self.den() * rhs.den();
            lemma_product_nonzero(self.den(), rhs.den());
            lemma_sign_of_product(x, p);
            if self.den() < 0 && rhs.den() < 0 {
                assert(left - right == x) by (nonlinear_arith)
                    requires
                        lhs_top == -self.num(),
                        lhs_bottom == -self.den(),
                        rhs_top == -rhs.num(),
                        rhs_bottom == -rhs.den(),
                        left == lhs_top * rhs_bottom,
                        right == rhs_top * lhs_bottom,
                        x == self.num() * rhs.den() - rhs.num() * self.den(),
                ;
                assert(p > 0) by (nonlinear_arith)
                    requires
                        p == self.den() * rhs.den(),
                        self.den() < 0,
                        rhs.den() < 0,
                ;
            } else if self.den() < 0 {
                assert(left - right == -x) by (nonlinear_arith)
                    requires
                        lhs_top == -self.num(),
                        lhs_bottom == -self.den(),
                        rhs_top == rhs.num(),
                        rhs_bottom == rhs.den(),
                        left == lhs_top * rhs_bottom,
                        right == rhs_top * lhs_bottom,
                        x == self.num() * rhs.den() - rhs.num() * self.den(),
                ;
                assert(p < 0) by (nonlinear_arith)
                    requires
                        p == self.den() * rhs.den(),
                        self.den() < 0,
                        rhs.den() > 0,
                ;
            } else if rhs.den() < 0 {
                assert(left - right == -x) by (nonlinear_arith)
                    requires
                        lhs_top == self.num(),
                        lhs_bottom == self.den(),
                        rhs_top == -rhs.num(),
                        rhs_bottom == -rhs.den(),
                        left == lhs_top * rhs_bottom,
                        right == rhs_top * lhs_bottom,
                        x == self.num() * rhs.den() - rhs.num() * self.den(),
                ;
                assert(p < 0) by (nonlinear_arith)
                    requires
                        p == self.den() * rhs.den(),
                        self.den() > 0,
                        rhs.den() < 0,
                ;
            } else {
                assert(left - right == x) by (nonlinear_arith)
                    requires
                        lhs_top == self.num(),
                        lhs_bottom == self.den(),
                        rhs_top == rhs.num(),
                        rhs_bottom == rhs.den(),
                        left == lhs_top * rhs_bottom,
                        right == rhs_top * lhs_bottom,
                        x == self.num() * rhs.den() - rhs.num() * self.den(),
                ;
                assert(p > 0) by (nonlinear_arith)
                    requires
                        p == self.den() * rhs.den(),
                        self.den() > 0,
                        rhs.den() > 0,
                ;
            }
        }
        if left == right {
            Some(Ordering::Equal)
        } else if left < right {
            Some(Ordering::Less)
        } else {
            Some(Ordering::Greater)
        }
    }
}

impl vstd::std_specs::cmp::PartialOrdSpecImpl for Rational {
    open spec fn obeys_partial_cmp_spec() -> bool {
        true
    }

    open spec fn partial_cmp_spec(&self, rhs: &Rational) -> Option<Ordering> {
        Some(value_cmp(*self, *rhs))
    }
}

/// Two fractions are equal when their cross products agree, whatever their reduction
/// or the signs of their denominators.
pub open spec fn same_value(a: Rational, b: Rational) -> bool {
    a.num() * b.den() == a.den() * b.num()
}

impl PartialEq for Rational {
    fn eq(&self, rhs: &Rational) -> (r: bool) {
        proof {
            lemma_i64_product_bound(self.top as int, rhs.bottom as int);
            lemma_i64_product_bound(self.bottom as int, rhs.top as int);
        }
        (self.top as i128) * (rhs.bottom as i128) == (self.bottom as i128) * (rhs.top as i128)
    }
}

impl vstd::std_specs::cmp::PartialEqSpecImpl for Rational {
    open spec fn obeys_eq_spec() -> bool {
        true
    }

    open spec fn eq_spec(&self, rhs: &Rational) -> bool {
        same_value(*self, *rhs)
    }
}

impl Eq for Rational {

}

/// Dividing an exact multiple of `g` by `g` divides its magnitude by `g` too.
proof fn lemma_exact_quotient(n: int, g: nat)
    requires
        g > 0,
        divides(g, abs_int(n) as nat),
    ensures
        n == (n / g as int) * g,
        abs_int(n / g as int) == abs_int(n) / g as int,
        fits_i64(n) ==> fits_i64(n / g as int),
{
    let m = abs_int(n) as nat;
    lemma_divides_quotient(g, m);
    let q = (m / g) as int;
    if n < 0 {
        assert(n == (-q) * g) by (nonlinear_arith)
            requires
                n == -(m as int),
                m == g * q,
        ;
        lemma_fundamental_div_mod_converse(n, g as int, -q, 0);
    } else {
        assert(n == q * g) by (nonlinear_arith)
            requires
                n == m as int,
                m == g * q,
        ;
        lemma_fundamental_div_mod_converse(n, g as int, q, 0);
    }
    assert(q <= m) by (nonlinear_arith)
        requires
            m == g * q,
            g > 0,
    ;
}

/// A divisor of `a` scaled by `g` divides `a` scaled by `g`.
proof fn lemma_scaled_divisor(h: nat, g: nat, a: nat)
    requires
        h > 0,
        divides(h, a),
    ensures
        divides(h * g, g * a),
{
    lemma_divides_quotient(h, a);
    let k = a / h;
    assert(g * a == (h * g) * k) by (nonlinear_arith)
        requires
            a == h * k,
    ;
    lemma_divides_mul(h * g, k);
}

/// Simplifying twice gives what simplifying once gives: after dividing by the greatest
/// common divisor, the parts have no common divisor above one.
pub proof fn lemma_simplify_idempotent(x: Rational)
    ensures
        x.simplified().simplified() == x.simplified(),
{
    let n = x.num();
    let d = x.den();
    let g = gcd_spec(abs_int(n) as nat, abs_int(d) as nat);
    if g > 1 {
        lemma_gcd(abs_int(n) as nat, abs_int(d) as nat);
        lemma_exact_quotient(n, g);
        lemma_exact_quotient(d, g);
        let y = x.simplified();
        assert(y.num() == n / g as int && y.den() == d / g as int);
        let a = abs_int(y.num()) as nat;
        let b = abs_int(y.den()) as nat;
        let h = gcd_spec(a, b);
        lemma_gcd(a, b);
        assert(abs_int(n) == a * g && abs_int(d) == b * g) by {
            lemma_divides_quotient(g, abs_int(n) as nat);
            lemma_divides_quotient(g, abs_int(d) as nat);
        }
        if h == 0 {
            assert(a == 0 && b == 0);
            assert(abs_int(n) == 0 && abs_int(d) == 0);
            assert(g == 0);
        }
        lemma_scaled_divisor(h, g, a);
        lemma_scaled_divisor(h, g, b);
        assert(a * g == g * a && b * g == g * b) by (nonlinear_arith);
        assert(divides(h * g, g));
        lemma_divides_le(h * g, g);
        assert(h <= 1) by (nonlinear_arith)
            requires
                h * g <= g,
                g > 1,
        ;
    }
}

/// Flipping signs gives a positive denominator, so flipping again changes nothing; a
/// fraction whose denominator was already positive comes back as it was.
pub proof fn lemma_flip_signs_twice(x: Rational)
    requires
        x.den() != 0,
        x.den() < 0 ==> fits_i64(-x.num()) && fits_i64(-x.den()),
    ensures
        x.sign_flipped().den() > 0,
        x.sign_flipped().sign_flipped() == x.sign_flipped(),
        x.den() > 0 ==> x.sign_flipped().sign_flipped() == x,
{
}

/// Simplifying keeps the value of the fraction.
pub proof fn lemma_simplify_same_value(x: Rational)
    ensures
        same_value(x, x.simplified()),
{
    let n = x.num();
    let d = x.den();
    let g = gcd_spec(abs_int(n) as nat, abs_int(d) as nat);
    if g > 1 {
        lemma_gcd(abs_int(n) as nat, abs_int(d) as nat);
        lemma_exact_quotient(n, g);
        lemma_exact_quotient(d, g);
        let y = x.simplified();
        assert(n * y.den() == d * y.num()) by (nonlinear_arith)
            requires
                n == (n / g as int) * g,
                d == (d / g as int) * g,
                y.num() == n / g as int,
                y.den() == d / g as int,
        ;
    } else {
        assert(n * d == d * n) by (nonlinear_arith);
    }
}

/// Flipping signs keeps the value of the fraction.
pub proof fn lemma_flip_signs_same_value(x: Rational)
    requires
        x.den() < 0 ==> fits_i64(-x.num()) && fits_i64(-x.den()),
    ensures
        same_value(x, x.sign_flipped()),
{
    if x.den() < 0 {
        let y = x.sign_flipped();
        assert(x.num() * y.den() == x.den() * y.num()) by (nonlinear_arith)
            requires
                y.num() == -x.num(),
                y.den() == -x.den(),
        ;
    } else {
        assert(x.num() * x.den() == x.den() * x.num()) by (nonlinear_arith);
    }
}

/// Equality and ordering agree: two fractions are equal exactly when neither is below
/// the other.
pub proof fn lemma_eq_agrees_with_cmp(a: Rational, b: Rational)
    requires
        a.den() != 0,
        b.den() != 0,
    ensures
        same_value(a, b) <==> value_cmp(a, b) == Ordering::Equal,
{
    let x = a.num() * b.den() - b.num() * a.den();
    lemma_product_nonzero(a.den(), b.den());
    lemma_sign_of_product(x, a.den() * b.den());
    assert(b.num() * a.den() == a.den() * b.num()) by (nonlinear_arith);
}

} // verus!
