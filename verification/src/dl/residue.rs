//! Nonnegative integers of any size, kept as little-endian base-`2^32` digits: the logs, moduli
//! and smoothing candidates of the descent. The arithmetic itself is num-bigint's.

use num_bigint::BigUint;
use vstd::prelude::*;

verus! {

/// The base of a digit.
pub open spec fn digit_base() -> nat {
    0x1_0000_0000
}

/// The value of little-endian base-`2^32` digits.
pub open spec fn digits_value(d: Seq<u32>) -> nat
    decreases d.len(),
{
    if d.len() == 0 {
        0
    } else {
        d[0] as nat + digit_base() * digits_value(d.drop_first())
    }
}

/// Digits are worth zero exactly when every digit is zero.
pub proof fn lemma_digits_zero(d: Seq<u32>)
    ensures
        digits_value(d) == 0 <==> forall|i: int| 0 <= i < d.len() ==> #[trigger] d[i] == 0,
    decreases d.len(),
{
    if d.len() > 0 {
        lemma_digits_zero(d.drop_first());
        if forall|i: int| 0 <= i < d.len() ==> #[trigger] d[i] == 0 {
            assert forall|i: int| 0 <= i < d.drop_first().len() implies #[trigger] d.drop_first()[i] == 0 by {
                assert(d[i + 1] == 0);
            }
        }
        if digits_value(d) == 0 {
            assert forall|i: int| 0 <= i < d.len() implies #[trigger] d[i] == 0 by {
                if i > 0 {
                    assert(d.drop_first()[i - 1] == d[i]);
                }
            }
        }
    }
}

/// A nonnegative integer of any size: `digits` in base `2^32`, least significant first.
#[derive(Debug, Clone, PartialEq, Eq)]
pub struct LogResidue {
    /// The digits, least significant first; trailing zeros are allowed.
    pub digits: Vec<u32>,
}

impl LogResidue {
    /// The integer held.
    pub open spec fn value(&self) -> nat {
        digits_value(self.digits@)
    }

    /// Zero.
    pub fn zero() -> (r: Self)
        ensures
            r.value() == 0,
    {
        LogResidue { digits: Vec::new() }
    }

    /// The integer `x`, with no leading zero digits.
    pub fn from_u64(x: u64) -> (r: Self)
        ensures
            r.value() == x,
    {
        proof {
            assert((x & 0xffff_ffff) < 0x1_0000_0000 && (x >> 32) < 0x1_0000_0000) by (bit_vector);
            assert(x == (x & 0xffff_ffff) + 0x1_0000_0000 * (x >> 32)) by (bit_vector);
        }
        let lo = (x & 0xffff_ffff) as u32;
        let hi = (x >> 32) as u32;
        let mut digits: Vec<u32> = Vec::new();
        if x == 0 {
            return LogResidue { digits };
        }
        digits.push(lo);
        if hi != 0 {
            digits.push(hi);
        }
        proof {
            let d = digits@;
            if hi != 0 {
                assert(d.drop_first().drop_first().len() == 0);
                assert(digits_value(d.drop_first().drop_first()) == 0);
                assert(d.drop_first()[0] == hi);
                assert(digits_value(d.drop_first()) == hi as nat);
            } else {
                assert(d.drop_first().len() == 0);
                assert(digits_value(d.drop_first()) == 0);
            }
            assert(digits_value(d) == lo as nat + digit_base() * hi as nat);
        }
        LogResidue { digits }
    }

    /// A copy with the same digits.
    pub fn copy(&self) -> (r: Self)
        ensures
            r.digits@ == self.digits@,
    {
        let mut digits: Vec<u32> = Vec::with_capacity(self.digits.len());
        let mut i: usize = 0;
        while i < self.digits.len()
            invariant
                i <= self.digits@.len(),
                digits@ == self.digits@.take(i as int),
            decreases self.digits@.len() - i,
        {
            digits.push(self.digits[i]);
            i = i + 1;
            assert(digits@ =~= self.digits@.take(i as int));
        }
        assert(self.digits@.take(i as int) =~= self.digits@);
        LogResidue { digits }
    }

    /// True for zero.
    pub fn is_zero(&self) -> (b: bool)
        ensures
            b == (self.value() == 0),
    {
        proof {
            lemma_digits_zero(self.digits@);
        }
        let mut i: usize = 0;
        while i < self.digits.len()
            invariant
                i <= self.digits@.len(),
                forall|k: int| 0 <= k < i ==> #[trigger] self.digits@[k] == 0,
            decreases self.digits@.len() - i,
        {
            if self.digits[i] != 0 {
                proof {
                    lemma_digits_zero(self.digits@);
                }
                return false;
            }
            i = i + 1;
        }
        true
    }

    /// True for one.
    pub fn is_one(&self) -> (b: bool)
        ensures
            b == (self.value() == 1),
    {
        if self.digits.len() == 0 {
            return false;
        }
        let ghost d = self.digits@;
        proof {
            lemma_digits_zero(d.drop_first());
        }
        if self.digits[0] != 1 {
            proof {
                if digits_value(d.drop_first()) > 0 {
                    assert(digit_base() * digits_value(d.drop_first()) >= digit_base()) by (nonlinear_arith)
                        requires
                            digits_value(d.drop_first()) > 0,
                    ;
                }
            }
            return false;
        }
        let mut i: usize = 1;
        while i < self.digits.len()
            invariant
                d == self.digits@,
                1 <= i <= d.len(),
                forall|k: int| 0 <= k < i - 1 ==> #[trigger] d.drop_first()[k] == 0,
            decreases d.len() - i,
        {
            if self.digits[i] != 0 {
                proof {
                    lemma_digits_zero(d.drop_first());
                    assert(d.drop_first()[i - 1] != 0);
                    assert(digit_base() * digits_value(d.drop_first()) >= digit_base()) by (nonlinear_arith)
                        requires
                            digits_value(d.drop_first()) > 0,
                    ;
                }
                return false;
            }
            i = i + 1;
        }
        true
    }
}

/// The sum `a + b`, by num-bigint's `BigUint` addition. Claims that the digits returned by
/// `to_u32_digits` of `BigUint::new(a) + BigUint::new(b)` are worth `a + b`.
#[verifier::external_body]
pub(crate) fn big_add(a: &LogResidue, b: &LogResidue) -> (r: LogResidue)
    ensures
        r.value() == a.value() + b.value(),
{
    LogResidue { digits: (BigUint::new(a.digits.clone()) + BigUint::new(b.digits.clone())).to_u32_digits() }
}

/// The product `a * b`, by num-bigint's `BigUint` multiplication. Claims that the digits
/// returned are worth `a * b`.
#[verifier::external_body]
pub(crate) fn big_mul(a: &LogResidue, b: &LogResidue) -> (r: LogResidue)
    ensures
        r.value() == a.value() * b.value(),
{
    LogResidue { digits: (BigUint::new(a.digits.clone()) * BigUint::new(b.digits.clone())).to_u32_digits() }
}

/// The remainder `a mod m`, by num-bigint's `BigUint` remainder, which panics on a zero
/// divisor. Claims that the digits returned are worth `a % m`.
#[verifier::external_body]
pub(crate) fn big_rem(a: &LogResidue, m: &LogResidue) -> (r: LogResidue)
    requires
        m.value() > 0,
    ensures
        r.value() == a.value() % m.value(),
{
    LogResidue { digits: (BigUint::new(a.digits.clone()) % BigUint::new(m.digits.clone())).to_u32_digits() }
}

/// The quotient `a / m` rounded down, by num-bigint's `BigUint` division, which panics on a
/// zero divisor. Claims that the digits returned are worth `a / m`.
#[verifier::external_body]
pub(crate) fn big_div(a: &LogResidue, m: &LogResidue) -> (r: LogResidue)
    requires
        m.value() > 0,
    ensures
        r.value() == a.value() / m.value(),
{
    LogResidue { digits: (BigUint::new(a.digits.clone()) / BigUint::new(m.digits.clone())).to_u32_digits() }
}

/// The difference `a - b` for `b <= a`, by num-bigint's `BigUint` subtraction, which panics
/// when `b > a`. Claims that the digits returned are worth `a - b`.
#[verifier::external_body]
pub(crate) fn big_sub(a: &LogResidue, b: &LogResidue) -> (r: LogResidue)
    requires
        b.value() <= a.value(),
    ensures
        r.value() == a.value() - b.value(),
{
    LogResidue { digits: (BigUint::new(a.digits.clone()) - BigUint::new(b.digits.clone())).to_u32_digits() }
}

/// Whether `a < b`, by num-bigint's `BigUint` order (digits normalized by `BigUint::new`, then
/// compared by length and from the top digit down). Claims the result is `a < b` on values.
#[verifier::external_body]
pub(crate) fn big_lt(a: &LogResidue, b: &LogResidue) -> (r: bool)
    ensures
        r == (a.value() < b.value()),
{
    BigUint::new(a.digits.clone()) < BigUint::new(b.digits.clone())
}

} // verus!
