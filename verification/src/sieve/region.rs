//! The lattice points that the special-q sieve visits: `(a, b) = s v1 + t v2` for `s, t` in
//! `[-S, S]` with `S = A + B + 2`, `t` the outer index, kept when `|a| <= A`, `1 <= b <= B`
//! and `gcd(a, b) = 1`.

use vstd::prelude::*;
use crate::sieve::lattice::{abs_int, coprime_spec, is_coprime_i64, LatticeBasis};

verus! {

/// The point of linear index `k` in the scan of `[-bound, bound]^2`: `t = k div w - bound`,
/// `s = k mod w - bound` with `w = 2 bound + 1`, mapped through the basis.
pub open spec fn scan_point(basis: LatticeBasis, bound: int, k: int) -> (int, int) {
    let w = 2 * bound + 1;
    let t = k / w - bound;
    let s = k % w - bound;
    (s * basis.v1.0 + t * basis.v2.0, s * basis.v1.1 + t * basis.v2.1)
}

/// `(a, b)` lies in the sieve region: `|a| <= A` and `1 <= b <= B`.
pub open spec fn in_region(p: (int, int), a_bound: int, b_bound: int) -> bool {
    -a_bound <= p.0 <= a_bound && 1 <= p.1 <= b_bound
}

/// The points among the first `n` of the scan that lie in the region and are coprime, in
/// scan order.
pub open spec fn region_points(basis: LatticeBasis, a_bound: int, b_bound: int, bound: int, n: int) -> Seq<(i64, i64)>
    decreases n,
{
    if n <= 0 {
        Seq::empty()
    } else {
        let prev = region_points(basis, a_bound, b_bound, bound, n - 1);
        let p = scan_point(basis, bound, n - 1);
        if in_region(p, a_bound, b_bound) && coprime_spec(abs_int(p.0) as nat, abs_int(p.1) as nat) {
            prev.push((p.0 as i64, p.1 as i64))
        } else {
            prev
        }
    }
}

/// How many of the first `n` points of the scan lie in the region.
pub open spec fn region_count(basis: LatticeBasis, a_bound: int, b_bound: int, bound: int, n: int) -> nat
    decreases n,
{
    if n <= 0 {
        0
    } else {
        region_count(basis, a_bound, b_bound, bound, n - 1) + if in_region(
            scan_point(basis, bound, n - 1),
            a_bound,
            b_bound,
        ) {
            1nat
        } else {
            0nat
        }
    }
}

/// The coprime points of the sieve region that the scan visits, in scan order, and how many
/// region points it enumerated (coprime or not).
pub fn lattice_region_points(basis: &LatticeBasis, a_bound: u64, b_bound: u64) -> (r: (Vec<(i64, i64)>, u64))
    requires
        a_bound + b_bound + 2 <= 0x4000_0000,
        -0x4000_0000 <= basis.v1.0 <= 0x4000_0000,
        -0x4000_0000 <= basis.v1.1 <= 0x4000_0000,
        -0x4000_0000 <= basis.v2.0 <= 0x4000_0000,
        -0x4000_0000 <= basis.v2.1 <= 0x4000_0000,
    ensures
        ({
            let bound = a_bound + b_bound + 2;
            let n = (2 * bound + 1) * (2 * bound + 1);
            &&& r.0@ == region_points(*basis, a_bound as int, b_bound as int, bound, n)
            &&& r.1 == region_count(*basis, a_bound as int, b_bound as int, bound, n)
        }),
{
    let a_b = a_bound as i64;
    let b_b = b_bound as i64;
    let bound: i64 = a_b + b_b + 2;
    let ghost w = 2 * bound + 1;
    let (v1a, v1b) = basis.v1;
    let (v2a, v2b) = basis.v2;
    let mut points: Vec<(i64, i64)> = Vec::new();
    let mut count: u64 = 0;
    let mut t: i64 = -bound;
    proof {
        assert((t + bound) * w == 0) by (nonlinear_arith)
            requires
                t + bound == 0,
        ;
    }
    while t <= bound
        invariant
            bound == a_bound + b_bound + 2,
            bound <= 0x4000_0000,
            w == 2 * bound + 1,
            a_b == a_bound,
            b_b == b_bound,
            (v1a, v1b) == basis.v1,
            (v2a, v2b) == basis.v2,
            -0x4000_0000 <= v1a <= 0x4000_0000,
            -0x4000_0000 <= v1b <= 0x4000_0000,
            -0x4000_0000 <= v2a <= 0x4000_0000,
            -0x4000_0000 <= v2b <= 0x4000_0000,
            -bound <= t <= bound + 1,
            points@ == region_points(*basis, a_bound as int, b_bound as int, bound as int, (t + bound) * w),
            count == region_count(*basis, a_bound as int, b_bound as int, bound as int, (t + bound) * w),
            count <= (t + bound) * w,
        decreases bound + 1 - t,
    {
        let mut s: i64 = -bound;
        while s <= bound
            invariant
                bound == a_bound + b_bound + 2,
                bound <= 0x4000_0000,
                w == 2 * bound + 1,
                a_b == a_bound,
                b_b == b_bound,
                (v1a, v1b) == basis.v1,
                (v2a, v2b) == basis.v2,
                -0x4000_0000 <= v1a <= 0x4000_0000,
                -0x4000_0000 <= v1b <= 0x4000_0000,
                -0x4000_0000 <= v2a <= 0x4000_0000,
                -0x4000_0000 <= v2b <= 0x4000_0000,
                -bound <= t <= bound,
                -bound <= s <= bound + 1,
                points@ == region_points(*basis, a_bound as int, b_bound as int, bound as int, (t + bound) * w + (s + bound)),
                count == region_count(*basis, a_bound as int, b_bound as int, bound as int, (t + bound) * w + (s + bound)),
                count <= (t + bound) * w + (s + bound),
            decreases bound + 1 - s,
        {
            let ghost k = (t + bound) * w + (s + bound);
            proof {
                assert(0 <= s + bound < w);
                assert(k / w == t + bound && k % w == s + bound) by (nonlinear_arith)
                    requires
                        k == (t + bound) * w + (s + bound),
                        0 <= s + bound < w,
                        0 <= t + bound,
                ;
                assert(-0x4000_0000 * 0x4000_0000 <= s * v1a <= 0x4000_0000 * 0x4000_0000) by (nonlinear_arith)
                    requires
                        -0x4000_0000 <= s <= 0x4000_0000,
                        -0x4000_0000 <= v1a <= 0x4000_0000,
                ;
                assert(-0x4000_0000 * 0x4000_0000 <= t * v2a <= 0x4000_0000 * 0x4000_0000) by (nonlinear_arith)
                    requires
                        -0x4000_0000 <= t <= 0x4000_0000,
                        -0x4000_0000 <= v2a <= 0x4000_0000,
                ;
                assert(-0x4000_0000 * 0x4000_0000 <= s * v1b <= 0x4000_0000 * 0x4000_0000) by (nonlinear_arith)
                    requires
                        -0x4000_0000 <= s <= 0x4000_0000,
                        -0x4000_0000 <= v1b <= 0x4000_0000,
                ;
                assert(-0x4000_0000 * 0x4000_0000 <= t * v2b <= 0x4000_0000 * 0x4000_0000) by (nonlinear_arith)
                    requires
                        -0x4000_0000 <= t <= 0x4000_0000,
                        -0x4000_0000 <= v2b <= 0x4000_0000,
                ;
                assert(k + 1 <= (t + bound) * w + w);
                assert((t + bound) * w + w <= w * w) by (nonlinear_arith)
                    requires
                        t + bound < w,
                        w > 0,
                ;
                assert(w * w <= 0x4000_0001_0000_0001) by (nonlinear_arith)
                    requires
                        0 < w <= 0x8000_0001,
                ;
                assert(k + 1 <= 0x4000_0001_0000_0001) by (nonlinear_arith)
                    requires
                        k == (t + bound) * w + (s + bound),
                        0 <= s + bound < w,
                        0 <= t + bound < w,
                        0 < w <= 0x8000_0001,
                ;
                assert(count < 0xffff_ffff_ffff_ffffu64);
            }
            let a = s * v1a + t * v2a;
            let b = s * v1b + t * v2b;
            if -a_b <= a && a <= a_b && 1 <= b && b <= b_b {
                count = count + 1;
                if is_coprime_i64(a, b) {
                    points.push((a, b));
                }
            }
            s = s + 1;
        }
        proof {
            assert((t + bound) * w + (bound + 1 + bound) == (t + 1 + bound) * w) by (nonlinear_arith)
                requires
                    w == 2 * bound + 1,
            ;
        }
        t = t + 1;
    }
    proof {
        assert((bound + 1 + bound) * w == w * w) by (nonlinear_arith)
            requires
                w == 2 * bound + 1,
        ;
    }
    (points, count)
}

} // verus!
