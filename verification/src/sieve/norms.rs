//! Rational norms of sieve pairs over signed integers of any size, and the norm bridge's error
//! type.

use vstd::prelude::*;
use crate::dl::residue::{big_add, big_lt, big_mul, big_sub, LogResidue};

verus! {

/// Error of the conversion of a norm to a 256-bit unsigned integer.
#[derive(Debug, Clone, PartialEq, Eq)]
pub enum NormBridgeError {
    /// `|norm|` needs more than 256 bits.
    Overflow {
        /// Bits needed to hold `|norm|`.
        bits_required: usize,
    },
}

/// A signed integer of any size: a sign and a magnitude.
#[derive(Debug, Clone, PartialEq, Eq)]
pub struct SignedBig {
    /// True for a negative number (a zero magnitude with this flag set is still zero).
    pub negative: bool,
    /// The absolute value.
    pub magnitude: LogResidue,
}

impl SignedBig {
    /// The integer held.
    pub open spec fn value(&self) -> int {
        if self.negative {
            -(self.magnitude.value() as int)
        } else {
            self.magnitude.value() as int
        }
    }

    /// The integer `x`; zero is stored as nonnegative.
    pub fn from_i64(x: i64) -> (r: Self)
        ensures
            r.value() == x,
            r.negative == (x < 0),
    {
        if x < 0 {
            let below: i64 = -(x + 1);
            let mag: u64 = below as u64 + 1;
            SignedBig { negative: true, magnitude: LogResidue::from_u64(mag) }
        } else {
            SignedBig { negative: false, magnitude: LogResidue::from_u64(x as u64) }
        }
    }
}

/// The signed sum `x + y`; a zero result is stored as nonnegative.
fn signed_add(x: &SignedBig, y: &SignedBig) -> (r: SignedBig)
    ensures
        r.value() == x.value() + y.value(),
        r.negative ==> r.value() < 0,
{
    let (negative, magnitude) = if x.negative == y.negative {
        (x.negative, big_add(&x.magnitude, &y.magnitude))
    } else if big_lt(&x.magnitude, &y.magnitude) {
        (y.negative, big_sub(&y.magnitude, &x.magnitude))
    } else {
        (x.negative, big_sub(&x.magnitude, &y.magnitude))
    };
    if magnitude.is_zero() {
        SignedBig { negative: false, magnitude }
    } else {
        SignedBig { negative, magnitude }
    }
}

/// The signed product `x y`.
fn signed_mul(x: &SignedBig, y: &SignedBig) -> (r: SignedBig)
    ensures
        r.value() == x.value() * y.value(),
{
    let magnitude = big_mul(&x.magnitude, &y.magnitude);
    let negative = x.negative != y.negative;
    proof {
        let mx = x.magnitude.value() as int;
        let my = y.magnitude.value() as int;
        assert((-mx) * (-my) == mx * my) by (nonlinear_arith);
        assert((-mx) * my == -(mx * my)) by (nonlinear_arith);
        assert(mx * (-my) == -(mx * my)) by (nonlinear_arith);
    }
    SignedBig { negative, magnitude }
}

/// The rational norm `a - b m` of the pair `(a, b)`: the value of `b g(a / b)` for
/// `g(x) = x - m`; negative when `a < b m`.
pub fn rational_norm(a: &SignedBig, b: &SignedBig, m: &SignedBig) -> (r: SignedBig)
    ensures
        r.value() == a.value() - b.value() * m.value(),
{
    let bm = signed_mul(b, m);
    let neg_bm = SignedBig { negative: !bm.negative, magnitude: bm.magnitude };
    signed_add(a, &neg_bm)
}

/// True when the norm is negative.
pub fn norm_sign(norm: &SignedBig) -> (b: bool)
    ensures
        b == (norm.value() < 0),
{
    norm.negative && !norm.magnitude.is_zero()
}

} // verus!
