//! Exact non-negative fractions, the numbers that sizes resolve to.

use vstd::prelude::*;
use vstd::arithmetic::div_mod::{lemma_fundamental_div_mod, lemma_mod_bound};
use crate::natural::Natural;

verus! {

/// A numerator over a denominator. With a denominator that is not zero it
/// is a number that is not negative.
pub struct Fraction {
    pub num: nat,
    pub den: nat,
}

/// The quotient of two natural numbers rounded to the nearest whole number,
/// a half being rounded up.
pub open spec fn rounded_quotient(num: nat, den: nat) -> nat {
    ((2 * num + den) / (2 * den)) as nat
}

/// The smaller of two natural numbers.
pub open spec fn at_most(value: nat, limit: nat) -> nat {
    if value <= limit {
        value
    } else {
        limit
    }
}

impl Fraction {
    /// Whether two fractions are the same number.
    pub open spec fn same(self, other: Fraction) -> bool {
        self.num * other.den == other.num * self.den
    }

    /// Whether this fraction is less than the other. A fraction with the
    /// denominator zero is thereby above every number, unless its numerator
    /// is zero too: then it is neither above nor below any.
    pub open spec fn less(self, other: Fraction) -> bool {
        self.num * other.den < other.num * self.den
    }

    /// The product of two fractions.
    pub open spec fn times(self, other: Fraction) -> Fraction {
        Fraction { num: self.num * other.num, den: self.den * other.den }
    }

    /// The sum of two fractions.
    pub open spec fn plus(self, other: Fraction) -> Fraction {
        Fraction { num: self.num * other.den + other.num * self.den, den: self.den * other.den }
    }

    /// A whole number as a fraction.
    pub open spec fn whole(value: nat) -> Fraction {
        Fraction { num: value, den: 1 }
    }

    /// This fraction of a whole number of units, rounded to the nearest unit,
    /// a half being rounded up.
    pub open spec fn rounded_of(self, units: nat) -> nat {
        rounded_quotient(self.num * units, self.den)
    }

    /// A whole number of units divided by this fraction, rounded to the
    /// nearest unit, a half being rounded up.
    pub open spec fn rounded_into(self, units: nat) -> nat {
        rounded_quotient(units * self.den, self.num)
    }
}

/// For a positive divisor, `q * d <= x` says the same as `q <= x / d`.
pub proof fn lemma_quotient_bound(x: int, d: int, q: int)
    requires
        0 <= x,
        0 < d,
    ensures
        (q * d <= x) <==> (q <= x / d),
{
    lemma_fundamental_div_mod(x, d);
    lemma_mod_bound(x, d);
    let k = x / d;
    let r = x % d;
    if q <= k {
        assert(q * d <= k * d) by (nonlinear_arith)
            requires
                q <= k,
                0 < d,
        ;
        assert(d * k == k * d) by (nonlinear_arith);
    } else {
        assert(q * d >= (k + 1) * d) by (nonlinear_arith)
            requires
                q >= k + 1,
                0 < d,
        ;
        assert((k + 1) * d == d * k + d) by (nonlinear_arith);
    }
}

/// The rounded quotient of two numbers, but at most `limit`.
fn limited_rounded_quotient(num: &Natural, den: &Natural, limit: u64) -> (quotient: u64)
    requires
        den@ > 0,
    ensures
        quotient == at_most(rounded_quotient(num@, den@), limit as nat),
{
    let divisor = den.mul_small_add(2, 0);
    let target = num.mul_small_add(2, 0).add(den);
    let ghost goal = at_most(rounded_quotient(num@, den@), limit as nat);
    let mut low: u64 = 0;
    let mut high: u64 = limit;
    while low < high
        invariant
            low <= goal <= high <= limit,
            divisor@ == 2 * den@,
            target@ == 2 * num@ + den@,
            den@ > 0,
            goal == at_most(rounded_quotient(num@, den@), limit as nat),
        decreases high - low,
    {
        let middle = high - (high - low) / 2;
        let product = Natural::from_u64(middle).mul(&divisor);
        proof {
            lemma_quotient_bound(target@ as int, divisor@ as int, middle as int);
        }
        if product.le(&target) {
            low = middle;
        } else {
            high = middle - 1;
        }
    }
    low
}

/// An exact non-negative fraction.
pub struct Ratio {
    num: Natural,
    den: Natural,
}

impl View for Ratio {
    type V = Fraction;

    /// The numerator and the denominator as they were given or computed, not reduced.
    closed spec fn view(&self) -> Fraction {
        Fraction { num: self.num@, den: self.den@ }
    }
}

impl Ratio {
    #[verifier::type_invariant]
    spec fn well_formed(&self) -> bool {
        self.den@ > 0
    }

    /// The fraction with the given numerator and denominator, if the
    /// denominator is not zero.
    pub fn new(num: Natural, den: Natural) -> (ratio: Option<Self>)
        ensures
            den@ == 0 <==> ratio is None,
            ratio matches Some(r) ==> r@ == (Fraction { num: num@, den: den@ }),
    {
        if den.is_zero() {
            None
        } else {
            Some(Ratio { num, den })
        }
    }

    /// The fraction of two machine integers, if the denominator is not zero.
    pub fn from_u64s(num: u64, den: u64) -> (ratio: Option<Self>)
        ensures
            den == 0 <==> ratio is None,
            ratio matches Some(r) ==> r@ == (Fraction { num: num as nat, den: den as nat }),
    {
        Ratio::new(Natural::from_u64(num), Natural::from_u64(den))
    }

    /// Whether the fraction is zero.
    pub fn is_zero(&self) -> (zero: bool)
        ensures
            zero == (self@.num == 0),
            self@.den > 0,
    {
        proof {
            use_type_invariant(self);
        }
        self.num.is_zero()
    }

    /// Whether two fractions are the same number.
    pub fn same(&self, other: &Ratio) -> (same: bool)
        ensures
            same == self@.same(other@),
            self@.den > 0,
            other@.den > 0,
    {
        proof {
            use_type_invariant(self);
            use_type_invariant(other);
        }
        let left = self.num.mul(&other.den);
        let right = other.num.mul(&self.den);
        left.le(&right) && right.le(&left)
    }

    /// Whether this fraction is less than `num / den`.
    pub fn less_than_quotient(&self, num: usize, den: usize) -> (less: bool)
        ensures
            less == self@.less(Fraction { num: num as nat, den: den as nat }),
            self@.den > 0,
    {
        proof {
            use_type_invariant(self);
        }
        let left = self.num.mul(&Natural::from_u64(den as u64));
        let right = Natural::from_u64(num as u64).mul(&self.den);
        !right.le(&left)
    }

    /// Whether `num / den` is less than this fraction.
    pub fn more_than_quotient(&self, num: usize, den: usize) -> (more: bool)
        ensures
            more == (Fraction { num: num as nat, den: den as nat }).less(self@),
            self@.den > 0,
    {
        proof {
            use_type_invariant(self);
        }
        let left = Natural::from_u64(num as u64).mul(&self.den);
        let right = self.num.mul(&Natural::from_u64(den as u64));
        !right.le(&left)
    }

    /// The product of two fractions.
    pub fn times(&self, other: &Ratio) -> (product: Ratio)
        ensures
            product@ == self@.times(other@),
            product@.den > 0,
    {
        proof {
            use_type_invariant(self);
            use_type_invariant(other);
            assert(self.den@ * other.den@ > 0) by (nonlinear_arith)
                requires
                    self.den@ > 0,
                    other.den@ > 0,
            ;
        }
        Ratio { num: self.num.mul(&other.num), den: self.den.mul(&other.den) }
    }

    /// This fraction of `units`, rounded to the nearest unit with a half
    /// rounded up, but at most `limit`.
    pub fn rounded_of(&self, units: usize, limit: usize) -> (rounded: usize)
        ensures
            rounded == at_most(self@.rounded_of(units as nat), limit as nat),
            self@.den > 0,
    {
        proof {
            use_type_invariant(self);
        }
        let scaled = self.num.mul(&Natural::from_u64(units as u64));
        limited_rounded_quotient(&scaled, &self.den, limit as u64) as usize
    }

    /// `units` divided by this fraction, which is not zero, rounded to the
    /// nearest unit with a half rounded up, but at most `limit`.
    pub fn rounded_into(&self, units: usize, limit: usize) -> (rounded: usize)
        requires
            self@.num > 0,
        ensures
            rounded == at_most(self@.rounded_into(units as nat), limit as nat),
            self@.den > 0,
    {
        proof {
            use_type_invariant(self);
        }
        let scaled = Natural::from_u64(units as u64).mul(&self.den);
        limited_rounded_quotient(&scaled, &self.num, limit as u64) as usize
    }
}

} // verus!
