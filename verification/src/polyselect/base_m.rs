//! Base-`m` expansion of `n`: the coefficients of the algebraic polynomial of the base-`m`
//! polynomial selection.

use vstd::prelude::*;
use crate::dl::residue::{big_div, big_rem, big_sub, LogResidue};
use vstd::arithmetic::div_mod::{lemma_div_denominator, lemma_div_multiples_vanish, lemma_fundamental_div_mod};
use vstd::arithmetic::power::{lemma_pow_positive, pow};

verus! {

/// Digit `i` of `n` in base `m`: `(n / m^i) mod m`.
pub open spec fn base_digit(n: nat, m: nat, i: nat) -> nat {
    ((n as int / pow(m as int, i)) % (m as int)) as nat
}

/// `n` written in base `m` with `d + 1` digits, least significant first: digit `i` is
/// `(n / m^i) mod m`, so `n = a_0 + a_1 m + ... + a_d m^d` when `n < m^(d+1)`; the leading
/// digits are zero when `n < m^d`.
pub fn base_m_digits(n: &LogResidue, m: &LogResidue, d: usize) -> (r: Vec<LogResidue>)
    requires
        m.value() >= 2,
        d < usize::MAX,
    ensures
        r@.len() == d + 1,
        forall|i: int| 0 <= i <= d ==> #[trigger] r@[i].value() == base_digit(n.value(), m.value(), i as nat),
{
    let ghost nv = n.value() as int;
    let ghost mv = m.value() as int;
    let mut coeffs: Vec<LogResidue> = Vec::with_capacity(d + 1);
    let mut remainder = n.copy();
    let mut i: usize = 0;
    proof {
        reveal(pow);
        assert(pow(mv, 0) == 1);
    }
    while i <= d
        invariant
            nv == n.value(),
            mv == m.value(),
            mv >= 2,
            d < usize::MAX,
            i <= d + 1,
            coeffs@.len() == i,
            remainder.value() == nv / pow(mv, i as nat),
            forall|t: int| 0 <= t < i ==> #[trigger] coeffs@[t].value() == base_digit(n.value(), m.value(), t as nat),
        decreases d + 1 - i,
    {
        let digit = big_rem(&remainder, m);
        let ghost x = remainder.value() as int;
        proof {
            lemma_fundamental_div_mod(x, mv);
        }
        let diff = big_sub(&remainder, &digit);
        remainder = big_div(&diff, m);
        proof {
            lemma_div_multiples_vanish(x / mv, mv);
            assert(diff.value() == mv * (x / mv));
            lemma_pow_positive(mv, i as nat);
            lemma_div_denominator(nv, pow(mv, i as nat), mv);
            reveal(pow);
            assert(pow(mv, (i + 1) as nat) == mv * pow(mv, i as nat));
            assert(pow(mv, i as nat) * mv == mv * pow(mv, i as nat)) by (nonlinear_arith);
        }
        coeffs.push(digit);
        i = i + 1;
    }
    coeffs
}

} // verus!
