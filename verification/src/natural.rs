//! Natural numbers of any size, held as digits in base 2^32.

use vstd::prelude::*;

verus! {

/// The base of the digits.
spec fn base() -> nat {
    0x1_0000_0000
}

/// The weight of the digit at a position: the base raised to that position.
spec fn weight(position: nat) -> nat
    decreases position,
{
    if position == 0 {
        1
    } else {
        base() * weight((position - 1) as nat)
    }
}

/// The number that digits spell, the lowest digit first.
spec fn digits_value(digits: Seq<u32>) -> nat
    decreases digits.len(),
{
    if digits.len() == 0 {
        0
    } else {
        digits_value(digits.drop_last()) + digits.last() as nat * weight((digits.len() - 1) as nat)
    }
}

/// The digit at a position, which is zero past the last digit.
spec fn digit_at(digits: Seq<u32>, position: int) -> nat {
    if 0 <= position < digits.len() {
        digits[position] as nat
    } else {
        0
    }
}

/// The number that the digits below a position spell.
spec fn low_value(digits: Seq<u32>, position: int) -> nat {
    if position < digits.len() {
        digits_value(digits.take(position))
    } else {
        digits_value(digits)
    }
}

/// No weight is zero.
proof fn lemma_weight_positive(position: nat)
    ensures
        weight(position) > 0,
    decreases position,
{
    if position > 0 {
        lemma_weight_positive((position - 1) as nat);
        assert(base() * weight((position - 1) as nat) > 0) by (nonlinear_arith)
            requires
                weight((position - 1) as nat) > 0,
                base() > 0,
        ;
    }
}

/// The weight of a sum of positions is the product of their weights.
proof fn lemma_weight_adds(a: nat, b: nat)
    ensures
        weight(a + b) == weight(a) * weight(b),
    decreases b,
{
    if b == 0 {
        assert(weight(a) * 1 == weight(a));
    } else {
        lemma_weight_adds(a, (b - 1) as nat);
        assert(weight(a + b) == base() * weight((a + b - 1) as nat));
        assert(base() * (weight(a) * weight((b - 1) as nat)) == weight(a) * (base() * weight(
            (b - 1) as nat,
        ))) by (nonlinear_arith);
    }
}

/// A higher position has at least the weight of a lower one.
proof fn lemma_weight_increases(a: nat, b: nat)
    requires
        a <= b,
    ensures
        weight(a) <= weight(b),
    decreases b - a,
{
    if a < b {
        lemma_weight_increases(a, (b - 1) as nat);
        lemma_weight_positive((b - 1) as nat);
        assert(weight((b - 1) as nat) <= base() * weight((b - 1) as nat)) by (nonlinear_arith)
            requires
                base() >= 1,
        ;
    }
}

/// A digit added at the high end adds its value times the weight of its position.
proof fn lemma_value_push(digits: Seq<u32>, digit: u32)
    ensures
        digits_value(digits.push(digit)) == digits_value(digits) + digit as nat * weight(digits.len()),
{
    assert(digits.push(digit).drop_last() =~= digits);
}

/// Digits spell a number below the weight of the position after the last of them.
proof fn lemma_value_below_weight(digits: Seq<u32>)
    ensures
        digits_value(digits) < weight(digits.len()),
    decreases digits.len(),
{
    if digits.len() > 0 {
        lemma_value_below_weight(digits.drop_last());
        let w = weight((digits.len() - 1) as nat);
        let last = digits.last() as nat;
        assert(digits_value(digits.drop_last()) + last * w < base() * w) by (nonlinear_arith)
            requires
                digits_value(digits.drop_last()) < w,
                last <= base() - 1,
        ;
    }
}

/// Taking one more digit into account adds its value times the weight of its position.
proof fn lemma_low_value_step(digits: Seq<u32>, position: int)
    requires
        0 <= position,
    ensures
        low_value(digits, position + 1) == low_value(digits, position) + digit_at(digits, position) * weight(
            position as nat,
        ),
{
    if position < digits.len() {
        let upper = if position + 1 < digits.len() {
            digits.take(position + 1)
        } else {
            digits
        };
        assert(upper =~= digits.take(position + 1));
        assert(digits.take(position + 1).drop_last() =~= digits.take(position));
    } else {
        assert(0 * weight(position as nat) == 0);
    }
}

/// The digits below a position spell a number below the weight of the position.
proof fn lemma_low_value_below_weight(digits: Seq<u32>, position: int)
    requires
        0 <= position,
    ensures
        low_value(digits, position) < weight(position as nat),
{
    if position < digits.len() {
        lemma_value_below_weight(digits.take(position));
    } else {
        lemma_value_below_weight(digits);
        lemma_weight_increases(digits.len(), position as nat);
    }
}

/// A natural number without an upper limit.
pub struct Natural {
    digits: Vec<u32>,
}

impl View for Natural {
    type V = nat;

    /// The number itself.
    closed spec fn view(&self) -> nat {
        digits_value(self.digits@)
    }
}

impl Clone for Natural {
    /// A copy of the number.
    fn clone(&self) -> (copy: Self)
        ensures
            copy@ == self@,
    {
        Natural { digits: self.digits.clone() }
    }
}

impl Natural {
    /// Zero.
    pub fn zero() -> (number: Self)
        ensures
            number@ == 0,
    {
        Natural { digits: Vec::new() }
    }

    /// The number that a machine integer holds.
    pub fn from_u64(value: u64) -> (number: Self)
        ensures
            number@ == value,
    {
        let mut digits: Vec<u32> = Vec::new();
        let low = (value % 0x1_0000_0000) as u32;
        let high = (value / 0x1_0000_0000) as u32;
        digits.push(low);
        digits.push(high);
        proof {
            let empty = Seq::<u32>::empty();
            lemma_value_push(empty, low);
            lemma_value_push(empty.push(low), high);
            assert(digits@ =~= empty.push(low).push(high));
            assert(digits_value(empty) == 0);
            assert(weight(0) == 1);
            assert(weight(1) == base() * weight(0));
            assert(empty.len() == 0 && empty.push(low).len() == 1);
            assert(digits_value(empty.push(low)) == low as nat * 1);
            assert(digits_value(digits@) == low as nat * 1 + high as nat * base());
            assert(value == low + high * 0x1_0000_0000);
        }
        Natural { digits }
    }

    /// This number times `factor`, plus `addend`.
    pub fn mul_small_add(&self, factor: u32, addend: u32) -> (number: Self)
        ensures
            number@ == self@ * factor + addend,
    {
        let mut digits: Vec<u32> = Vec::new();
        let mut carry: u64 = addend as u64;
        let mut i: usize = 0;
        proof {
            assert(self.digits@.take(0) =~= Seq::<u32>::empty());
            assert(low_value(self.digits@, 0) == 0);
            assert(weight(0) == 1);
            assert(digits_value(digits@) == 0);
            assert(0 * factor as nat == 0);
            assert(carry as nat * 1 == carry as nat);
        }
        while i < self.digits.len()
            invariant
                i <= self.digits@.len(),
                digits@.len() == i,
                carry < base(),
                digits_value(digits@) + carry * weight(i as nat) == low_value(self.digits@, i as int) * factor
                    + addend,
            decreases self.digits@.len() - i,
        {
            let digit = self.digits[i];
            assert(digit as u64 * factor as u64 + carry <= 0xffff_ffff_0000_0000) by (nonlinear_arith)
                requires
                    digit <= 0xffff_ffff,
                    factor <= 0xffff_ffff,
                    carry <= 0xffff_ffff,
            ;
            let total: u64 = digit as u64 * factor as u64 + carry;
            let low = (total % 0x1_0000_0000) as u32;
            let next = total / 0x1_0000_0000;
            proof {
                lemma_value_push(digits@, low);
                lemma_low_value_step(self.digits@, i as int);
                let w = weight(i as nat);
                let lv = low_value(self.digits@, i as int);
                assert(weight((i + 1) as nat) == base() * w);
                assert(low as nat * w + next as nat * (base() * w) == (digit as nat * factor as nat + carry as nat)
                    * w) by (nonlinear_arith)
                    requires
                        low as nat + next as nat * base() == digit as nat * factor as nat + carry as nat,
                ;
                assert((lv + digit as nat * w) * factor as nat + addend as nat == lv * factor as nat
                    + addend as nat + (digit as nat * factor as nat) * w) by (nonlinear_arith);
                assert((digit as nat * factor as nat + carry as nat) * w == (digit as nat * factor as nat) * w
                    + carry as nat * w) by (nonlinear_arith);
            }
            digits.push(low);
            carry = next;
            i += 1;
        }
        proof {
            lemma_value_push(digits@, carry as u32);
        }
        digits.push(carry as u32);
        Natural { digits }
    }

    /// The digit at a position, zero past the last digit.
    fn digit(&self, position: usize) -> (digit: u32)
        ensures
            digit == digit_at(self.digits@, position as int),
    {
        if position < self.digits.len() {
            self.digits[position]
        } else {
            0
        }
    }

    /// The sum of two numbers.
    pub fn add(&self, other: &Natural) -> (number: Self)
        ensures
            number@ == self@ + other@,
    {
        let count = if self.digits.len() > other.digits.len() {
            self.digits.len()
        } else {
            other.digits.len()
        };
        let mut digits: Vec<u32> = Vec::new();
        let mut carry: u64 = 0;
        let mut i: usize = 0;
        proof {
            assert(self.digits@.take(0) =~= Seq::<u32>::empty());
            assert(other.digits@.take(0) =~= Seq::<u32>::empty());
            assert(digits_value(digits@) == 0);
            assert(0 * weight(0) == 0);
        }
        while i < count
            invariant
                i <= count,
                count >= self.digits@.len(),
                count >= other.digits@.len(),
                digits@.len() == i,
                carry <= 1,
                digits_value(digits@) + carry * weight(i as nat) == low_value(self.digits@, i as int)
                    + low_value(other.digits@, i as int),
            decreases count - i,
        {
            let a = self.digit(i);
            let b = other.digit(i);
            let total: u64 = a as u64 + b as u64 + carry;
            let low = (total % 0x1_0000_0000) as u32;
            let next = total / 0x1_0000_0000;
            proof {
                lemma_value_push(digits@, low);
                lemma_low_value_step(self.digits@, i as int);
                lemma_low_value_step(other.digits@, i as int);
                let w = weight(i as nat);
                assert(weight((i + 1) as nat) == base() * w);
                assert(low as nat * w + next as nat * (base() * w) == a as nat * w + b as nat * w + carry as nat
                    * w) by (nonlinear_arith)
                    requires
                        low as nat + next as nat * base() == a as nat + b as nat + carry as nat,
                ;
            }
            digits.push(low);
            carry = next;
            i += 1;
        }
        proof {
            lemma_value_push(digits@, carry as u32);
        }
        digits.push(carry as u32);
        Natural { digits }
    }

    /// This number times the weight of a position.
    fn shifted(&self, position: usize) -> (number: Self)
        ensures
            number@ == self@ * weight(position as nat),
    {
        let mut digits: Vec<u32> = Vec::new();
        let mut i: usize = 0;
        while i < position
            invariant
                i <= position,
                digits@.len() == i,
                digits_value(digits@) == 0,
            decreases position - i,
        {
            proof {
                lemma_value_push(digits@, 0);
                assert(0 * weight(i as nat) == 0);
            }
            digits.push(0);
            i += 1;
        }
        let mut j: usize = 0;
        proof {
            assert(self.digits@.take(0) =~= Seq::<u32>::empty());
            assert(0 * weight(position as nat) == 0);
        }
        while j < self.digits.len()
            invariant
                j <= self.digits@.len(),
                digits@.len() == position + j,
                digits_value(digits@) == low_value(self.digits@, j as int) * weight(position as nat),
            decreases self.digits@.len() - j,
        {
            let digit = self.digits[j];
            proof {
                lemma_value_push(digits@, digit);
                lemma_low_value_step(self.digits@, j as int);
                lemma_weight_adds(position as nat, j as nat);
                let lv = low_value(self.digits@, j as int);
                let wp = weight(position as nat);
                let wj = weight(j as nat);
                assert(lv * wp + digit as nat * (wp * wj) == (lv + digit as nat * wj) * wp)
                    by (nonlinear_arith);
            }
            digits.push(digit);
            j += 1;
        }
        Natural { digits }
    }

    /// The product of two numbers.
    pub fn mul(&self, other: &Natural) -> (number: Self)
        ensures
            number@ == self@ * other@,
    {
        let mut sum = Natural::zero();
        let mut j: usize = 0;
        proof {
            assert(other.digits@.take(0) =~= Seq::<u32>::empty());
            assert(self@ * 0 == 0);
        }
        while j < other.digits.len()
            invariant
                j <= other.digits@.len(),
                sum@ == self@ * low_value(other.digits@, j as int),
            decreases other.digits@.len() - j,
        {
            let digit = other.digits[j];
            let row = self.mul_small_add(digit, 0).shifted(j);
            proof {
                lemma_low_value_step(other.digits@, j as int);
                let lv = low_value(other.digits@, j as int);
                let w = weight(j as nat);
                assert(self@ * lv + (self@ * digit as nat + 0) * w == self@ * (lv + digit as nat * w))
                    by (nonlinear_arith);
            }
            sum = sum.add(&row);
            j += 1;
        }
        sum
    }

    /// Whether this number is at most the other.
    pub fn le(&self, other: &Natural) -> (at_most: bool)
        ensures
            at_most == (self@ <= other@),
    {
        let count = if self.digits.len() > other.digits.len() {
            self.digits.len()
        } else {
            other.digits.len()
        };
        let mut i: usize = count;
        while i > 0
            invariant
                i <= count,
                count >= self.digits@.len(),
                count >= other.digits@.len(),
                self@ - low_value(self.digits@, i as int) == other@ - low_value(other.digits@, i as int),
            decreases i,
        {
            i -= 1;
            let a = self.digit(i);
            let b = other.digit(i);
            proof {
                lemma_low_value_step(self.digits@, i as int);
                lemma_low_value_step(other.digits@, i as int);
                lemma_low_value_below_weight(self.digits@, i as int);
                lemma_low_value_below_weight(other.digits@, i as int);
            }
            if a < b {
                assert(self@ < other@) by (nonlinear_arith)
                    requires
                        self@ - (low_value(self.digits@, i as int) + a as nat * weight(i as nat)) == other@ - (
                        low_value(other.digits@, i as int) + b as nat * weight(i as nat)),
                        low_value(self.digits@, i as int) < weight(i as nat),
                        a < b,
                ;
                return true;
            }
            if a > b {
                assert(other@ < self@) by (nonlinear_arith)
                    requires
                        self@ - (low_value(self.digits@, i as int) + a as nat * weight(i as nat)) == other@ - (
                        low_value(other.digits@, i as int) + b as nat * weight(i as nat)),
                        low_value(other.digits@, i as int) < weight(i as nat),
                        a > b,
                ;
                return false;
            }
        }
        proof {
            assert(self.digits@.take(0) =~= Seq::<u32>::empty());
            assert(other.digits@.take(0) =~= Seq::<u32>::empty());
        }
        true
    }

    /// Whether this number is zero.
    pub fn is_zero(&self) -> (zero: bool)
        ensures
            zero == (self@ == 0),
    {
        let nothing = Natural::zero();
        self.le(&nothing)
    }
}

} // verus!
