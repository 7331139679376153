//! Integer helpers of the line sieve: the first point of a residue class in a range, and
//! coprimality of a signed and an unsigned word.

use vstd::prelude::*;
use crate::sieve::lattice::{abs_int, abs_u64, coprime_spec, lemma_coprime_iff_gcd_one};

pub use crate::sieve::lattice::gcd_u64;

verus! {

/// The smallest `a >= lo` with `a = residue (mod p)`.
pub fn first_a_in_range(residue: u64, p: u64, lo: i64) -> (a: i64)
    requires
        1 <= p <= i64::MAX,
        residue <= i64::MAX,
        i64::MIN < lo - residue,
        lo - residue + p <= i64::MAX,
        lo + p - 1 <= i64::MAX,
    ensures
        lo <= a < lo + p,
        (a - residue) % (p as int) == 0,
{
    let residue_i = residue as i64;
    let p_i = p as i64;
    let diff = lo - residue_i;
    let k = if diff >= 0 {
        (diff + p_i - 1) / p_i
    } else {
        -((-diff) / p_i)
    };
    proof {
        let d = diff as int;
        let pi = p_i as int;
        if d >= 0 {
            let t = (d + pi - 1) / pi;
            vstd::arithmetic::div_mod::lemma_fundamental_div_mod(d + pi - 1, pi);
            assert(t * pi <= d + pi - 1 < t * pi + pi);
            assert(k as int == t);
            assert(d <= t * pi < d + pi);
            assert(k * p_i == t * pi);
        } else {
            let t = (-d) / pi;
            vstd::arithmetic::div_mod::lemma_fundamental_div_mod(-d, pi);
            assert(t * pi <= -d < t * pi + pi);
            assert(k as int == -t);
            assert(k as int * pi == -(t * pi)) by (nonlinear_arith)
                requires
                    k as int == -t,
            ;
            assert(t >= 0) by (nonlinear_arith)
                requires
                    -d < t * pi + pi,
                    -d > 0,
                    pi > 0,
            ;
            assert(t * pi <= 0x8000_0000_0000_0000);
        }
        let kp = k as int * pi;
        assert(d <= kp < d + pi);
        vstd::arithmetic::div_mod::lemma_mod_multiples_basic(k as int, pi);
        assert((k as int * pi) % pi == 0);
    }
    let kp = k * p_i;
    residue_i + kp
}

/// `|a|` and `b` have no common divisor above 1.
pub fn is_coprime_i64_u64(a: i64, b: u64) -> (r: bool)
    ensures
        r == coprime_spec(abs_int(a as int) as nat, b as nat),
{
    let a_abs = abs_u64(a);
    let g = gcd_u64(a_abs, b);
    proof {
        lemma_coprime_iff_gcd_one(a_abs, b, g);
    }
    g == 1
}

} // verus!
