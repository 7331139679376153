//! The special-q lattice `L_q = { (a, b) : a = r_q * b (mod q) }`, its Gauss-reduced basis,
//! and the integer helpers of the lattice sieve.

use vstd::prelude::*;
use vstd::arithmetic::div_mod::{lemma_fundamental_div_mod, lemma_mod_multiples_basic};

verus! {

/// Bound on the squared length of the basis vectors that Gauss reduction accepts: the squared
/// lengths themselves fit in an `i64`, and then so does every dot product it forms. For the
/// initial basis `(q, 0), (r_q, 1)` this admits every `q` up to about `3.03e9`.
pub const REDUCTION_NORM_BOUND: i64 = 0x7FFF_FFFF_FFFF_FFFF;

/// A basis of `L_q` with the prime and root it belongs to.
#[derive(Debug, Clone, Copy, PartialEq, Eq)]
pub struct LatticeBasis {
    /// First basis vector `(a, b)`.
    pub v1: (i64, i64),
    /// Second basis vector `(a, b)`.
    pub v2: (i64, i64),
    /// The special prime `q`.
    pub q: u64,
    /// The root `r_q` of `f mod q`.
    pub r_q: u64,
}

/// `u . v` over the integers.
pub open spec fn dot_spec(u: (i64, i64), v: (i64, i64)) -> int {
    u.0 * v.0 + u.1 * v.1
}

/// `|u|^2`.
pub open spec fn norm_sq(u: (i64, i64)) -> int {
    dot_spec(u, u)
}

/// Both products and the sum of `u . v` fit in an `i64`.
pub open spec fn dot_fits(u: (i64, i64), v: (i64, i64)) -> bool {
    &&& i64::MIN <= u.0 * v.0 <= i64::MAX
    &&& i64::MIN <= u.1 * v.1 <= i64::MAX
    &&& i64::MIN <= dot_spec(u, v) <= i64::MAX
}

/// `|x|` over the integers.
pub open spec fn abs_int(x: int) -> int {
    if x < 0 {
        -x
    } else {
        x
    }
}

/// `n / d` rounded to the nearest integer, halves away from zero (zero when `d` is zero).
pub open spec fn round_half_away(n: int, d: int) -> int {
    if d == 0 {
        0
    } else {
        let na = if d > 0 { n } else { -n };
        let da = if d > 0 { d } else { -d };
        if na >= 0 {
            (na + da / 2) / da
        } else {
            -((-na + da / 2) / da)
        }
    }
}

/// `(a, b)` lies in `L_q`: `a - r_q * b` is a multiple of `q`.
pub open spec fn in_lattice_spec(q: int, r_q: int, a: int, b: int) -> bool {
    (a - r_q * b) % q == 0
}

/// The pair ordered by length: the shorter (first on ties) vector first.
pub open spec fn ordered(v1: (i64, i64), v2: (i64, i64)) -> ((i64, i64), (i64, i64)) {
    if norm_sq(v1) > norm_sq(v2) {
        (v2, v1)
    } else {
        (v1, v2)
    }
}

/// The reduction multiplier: `dot(a, b) / |b|^2` rounded, for the ordered pair `(a, b)`;
/// zero on a tie, where the pair already satisfies `2 |dot(a, b)| <= |b|^2`.
pub open spec fn gauss_multiplier(v1: (i64, i64), v2: (i64, i64)) -> int {
    let (a, b) = ordered(v1, v2);
    if norm_sq(b) == 0 || 2 * abs_int(dot_spec(a, b)) == norm_sq(b) {
        0
    } else {
        round_half_away(dot_spec(a, b), norm_sq(b))
    }
}

/// A tie: `2 |dot(a, b)| = |b|^2 > 0` for the ordered pair. Subtracting `b` would leave the
/// length of `a` unchanged and the next step would add it back, so the pair counts as
/// reduced as it stands.
pub open spec fn gauss_tie(v1: (i64, i64), v2: (i64, i64)) -> bool {
    let (a, b) = ordered(v1, v2);
    norm_sq(b) > 0 && 2 * abs_int(dot_spec(a, b)) == norm_sq(b)
}

/// The Gauss-reduced pair: the ordered pair `(a, b)` with `a` replaced by `a - k b`, `k` the
/// rounded multiplier (zero on a tie).
pub open spec fn gauss_spec(v1: (i64, i64), v2: (i64, i64)) -> ((i64, i64), (i64, i64)) {
    let (a, b) = ordered(v1, v2);
    let k = gauss_multiplier(v1, v2);
    (((a.0 - k * b.0) as i64, (a.1 - k * b.1) as i64), b)
}

/// `2 |x y| <= x^2 + y^2`.
proof fn lemma_two_products(x: int, y: int)
    ensures
        2 * abs_int(x * y) <= x * x + y * y,
{
    assert(0 <= (x - y) * (x - y) && 0 <= (x + y) * (x + y)) by (nonlinear_arith);
    assert((x - y) * (x - y) == x * x - 2 * (x * y) + y * y) by (nonlinear_arith);
    assert((x + y) * (x + y) == x * x + 2 * (x * y) + y * y) by (nonlinear_arith);
}

/// Vectors of squared length at most `2^62` have every dot product in range.
pub proof fn lemma_dot_fits(u: (i64, i64), v: (i64, i64))
    requires
        norm_sq(u) <= REDUCTION_NORM_BOUND,
        norm_sq(v) <= REDUCTION_NORM_BOUND,
    ensures
        dot_fits(u, v),
        abs_int(dot_spec(u, v)) <= REDUCTION_NORM_BOUND,
{
    lemma_two_products(u.0 as int, v.0 as int);
    lemma_two_products(u.1 as int, v.1 as int);
    assert(0 <= u.0 * u.0 && 0 <= u.1 * u.1 && 0 <= v.0 * v.0 && 0 <= v.1 * v.1) by (nonlinear_arith);
}

/// Cauchy-Schwarz in the plane: `dot(u, v)^2 <= |u|^2 |v|^2`.
pub proof fn lemma_cauchy_schwarz(u: (i64, i64), v: (i64, i64))
    ensures
        dot_spec(u, v) * dot_spec(u, v) <= norm_sq(u) * norm_sq(v),
{
    let (a, b, c, d) = (u.0 as int, u.1 as int, v.0 as int, v.1 as int);
    let (x, y, z, w) = (a * c, b * d, a * d, b * c);
    assert((x + y) * (x + y) == x * x + 2 * (x * y) + y * y) by (nonlinear_arith);
    assert((z - w) * (z - w) == z * z - 2 * (z * w) + w * w) by (nonlinear_arith);
    assert(x * y == z * w) by (nonlinear_arith)
        requires
            x == a * c,
            y == b * d,
            z == a * d,
            w == b * c,
    ;
    let (aa, bb, cc, dd) = (a * a, b * b, c * c, d * d);
    assert(x * x == aa * cc && y * y == bb * dd && z * z == aa * dd && w * w == bb * cc) by (nonlinear_arith)
        requires
            x == a * c,
            y == b * d,
            z == a * d,
            w == b * c,
            aa == a * a,
            bb == b * b,
            cc == c * c,
            dd == d * d,
    ;
    assert((aa + bb) * (cc + dd) == aa * cc + aa * dd + bb * cc + bb * dd) by (nonlinear_arith);
    assert(0 <= (z - w) * (z - w)) by (nonlinear_arith);
}

/// `u . v` over `i64`.
pub fn dot(u: (i64, i64), v: (i64, i64)) -> (r: i64)
    requires
        dot_fits(u, v),
    ensures
        r == dot_spec(u, v),
{
    u.0 * v.0 + u.1 * v.1
}

/// `numerator / denominator` rounded to the nearest integer, halves away from zero; zero for
/// a zero denominator.
pub fn round_div(numerator: i64, denominator: i64) -> (r: i64)
    requires
        !(numerator == i64::MIN && denominator == -1),
    ensures
        r == round_half_away(numerator as int, denominator as int),
        denominator != 0 ==> 2 * abs_int(numerator - r * denominator) <= abs_int(denominator as int),
        denominator != 0 && 2 * abs_int(numerator - r * denominator) == abs_int(denominator as int)
            ==> abs_int(r * denominator) > abs_int(numerator as int),
{
    if denominator == 0 {
        return 0;
    }
    let n = numerator as i128;
    let d = denominator as i128;
    let (n_adj, d_abs) = if d > 0 {
        (n, d)
    } else {
        (-n, -d)
    };
    let h = d_abs / 2;
    let k: i128 = if n_adj >= 0 {
        (n_adj + h) / d_abs
    } else {
        -((-n_adj + h) / d_abs)
    };
    proof {
        let na = n_adj as int;
        let da = d_abs as int;
        let hi = h as int;
        let m = if na >= 0 { na } else { -na };
        let q = (m + hi) / da;
        lemma_fundamental_div_mod(m + hi, da);
        assert(0 <= (m + hi) % da < da);
        assert(2 * hi <= da <= 2 * hi + 1);
        assert(q * da <= m + hi < q * da + da);
        assert(2 * abs_int(m - q * da) <= da);
        assert(2 * abs_int(m - q * da) == da ==> q * da > m);
        assert(q >= 0) by (nonlinear_arith)
            requires
                q * da + da > m + hi,
                m >= 0,
                hi >= 0,
                da > 0,
        ;
        if da == 1 {
            assert(hi == 0);
            assert((m + hi) / da == m) by (nonlinear_arith)
                requires
                    da == 1,
                    hi == 0,
            ;
        } else {
            assert(q * 2 <= m + 1) by (nonlinear_arith)
                requires
                    q * da <= m + hi,
                    da >= 2,
                    hi * 2 <= da,
                    m >= 0,
                    q >= 0,
            ;
        }
        let ki = k as int;
        let ni = numerator as int;
        let di = denominator as int;
        if d > 0 {
            assert(ki * di == (if na >= 0 { q * da } else { -(q * da) })) by (nonlinear_arith)
                requires
                    ki == (if na >= 0 { q } else { -q }),
                    di == da,
            ;
        } else {
            assert(ki * di == (if na >= 0 { -(q * da) } else { q * da })) by (nonlinear_arith)
                requires
                    ki == (if na >= 0 { q } else { -q }),
                    di == -da,
            ;
        }
        assert(abs_int(ki * di) == q * da);
        assert(abs_int(ni - ki * di) == abs_int(m - q * da));
    }
    k as i64
}

/// Euclid's algorithm on `u64`: the greatest common divisor of `a` and `b` (zero for two
/// zeros).
pub fn gcd_u64(a: u64, b: u64) -> (g: u64)
    ensures
        (a == 0 && b == 0) ==> g == 0,
        !(a == 0 && b == 0) ==> g > 0 && a % g == 0 && b % g == 0,
        forall|d: nat| d > 0 && (a as nat) % d == 0 && (b as nat) % d == 0 ==> #[trigger] ((g as nat) % d) == 0,
{
    let mut x = a;
    let mut y = b;
    while y != 0
        invariant
            (a == 0 && b == 0) <==> (x == 0 && y == 0),
            forall|d: nat| d > 0 ==> (((a as nat) % d == 0 && (b as nat) % d == 0) <==> (#[trigger] ((x as nat) % d) == 0 && (y as nat) % d == 0)),
        decreases y,
    {
        let t = y;
        let r = x % y;
        proof {
            assert forall|d: nat| d > 0 implies (((a as nat) % d == 0 && (b as nat) % d == 0) <==> (#[trigger] ((y as nat) % d) == 0 && (r as nat) % d == 0)) by {
                lemma_common_divisor_step(x as nat, y as nat, d);
                assert(((a as nat) % d == 0 && (b as nat) % d == 0) <==> ((x as nat) % d == 0 && (y as nat) % d == 0));
            }
        }
        y = r;
        x = t;
    }
    proof {
        if x > 0 {
            assert((x as nat) % (x as nat) == 0) by (nonlinear_arith)
                requires
                    x > 0,
            ;
            assert((0nat) % (x as nat) == 0) by (nonlinear_arith)
                requires
                    x > 0,
            ;
        }
        assert forall|d: nat| d > 0 && (a as nat) % d == 0 && (b as nat) % d == 0 implies #[trigger] ((x as nat) % d) == 0 by {}
    }
    x
}

/// A common divisor of `x` and `y > 0` divides `x mod y`, and conversely.
proof fn lemma_common_divisor_step(x: nat, y: nat, d: nat)
    requires
        y > 0,
        d > 0,
    ensures
        (x % d == 0 && y % d == 0) <==> (y % d == 0 && (x % y) % d == 0),
{
    let q = x / y;
    let r = x % y;
    lemma_fundamental_div_mod(x as int, y as int);
    assert(x == y * q + r);
    if y % d == 0 {
        let j = y / d;
        lemma_fundamental_div_mod(y as int, d as int);
        assert(y == d * j);
        if x % d == 0 {
            let i = x / d;
            lemma_fundamental_div_mod(x as int, d as int);
            assert(r == d * (i - j * q)) by (nonlinear_arith)
                requires
                    x == y * q + r,
                    y == d * j,
                    x == d * i,
            ;
            lemma_mod_multiples_basic(i - j * q, d as int);
            assert((i - j * q) * d == d * (i - j * q)) by (nonlinear_arith);
        }
        if r % d == 0 {
            let l = r / d;
            lemma_fundamental_div_mod(r as int, d as int);
            assert(x == d * (j * q + l)) by (nonlinear_arith)
                requires
                    x == y * q + r,
                    y == d * j,
                    r == d * l,
            ;
            lemma_mod_multiples_basic((j * q + l) as int, d as int);
            assert((j * q + l) * d == d * (j * q + l)) by (nonlinear_arith);
        }
    }
}

/// `|a|` as a `u64`.
pub(crate) fn abs_u64(a: i64) -> (r: u64)
    ensures
        r == abs_int(a as int),
{
    if a >= 0 {
        a as u64
    } else {
        ((-(a as i128)) as u64)
    }
}

/// `x` and `y` have no common divisor above 1.
pub open spec fn coprime_spec(x: nat, y: nat) -> bool {
    forall|d: nat| d > 1 ==> !(#[trigger] (x % d) == 0 && y % d == 0)
}

/// `|a|` and `|b|` have no common divisor above 1.
pub fn is_coprime_i64(a: i64, b: i64) -> (r: bool)
    ensures
        r == coprime_spec(abs_int(a as int) as nat, abs_int(b as int) as nat),
{
    let a_abs = abs_u64(a);
    let b_abs = abs_u64(b);
    let g = gcd_u64(a_abs, b_abs);
    proof {
        lemma_coprime_iff_gcd_one(a_abs, b_abs, g);
    }
    g == 1
}

/// Two words are coprime exactly when their greatest common divisor is 1.
pub proof fn lemma_coprime_iff_gcd_one(x: u64, y: u64, g: u64)
    requires
        (x == 0 && y == 0) ==> g == 0,
        !(x == 0 && y == 0) ==> g > 0 && x % g == 0 && y % g == 0,
        forall|d: nat| d > 0 && (x as nat) % d == 0 && (y as nat) % d == 0 ==> #[trigger] ((g as nat) % d) == 0,
    ensures
        (g == 1) == coprime_spec(x as nat, y as nat),
{
    if g == 1 {
        assert forall|d: nat| d > 1 implies !(#[trigger] ((x as nat) % d) == 0 && (y as nat) % d == 0) by {
            if (x as nat) % d == 0 && (y as nat) % d == 0 {
                assert((1nat) % d == 1) by (nonlinear_arith)
                    requires
                        d > 1,
                ;
            }
        }
    } else if g == 0 {
        assert((x as nat) % 2 == 0 && (y as nat) % 2 == 0);
    } else {
        assert((x as nat) % (g as nat) == 0 && (y as nat) % (g as nat) == 0);
    }
}

/// `x = s u + t v`.
pub open spec fn is_combination(u: (i64, i64), v: (i64, i64), x: (i64, i64), s: int, t: int) -> bool {
    x.0 == s * u.0 + t * v.0 && x.1 == s * u.1 + t * v.1
}

/// `x` is an integer combination of `u` and `v`.
pub open spec fn spans(u: (i64, i64), v: (i64, i64), x: (i64, i64)) -> bool {
    exists|s: int, t: int| #[trigger] is_combination(u, v, x, s, t)
}

/// Squared lengths are nonnegative.
pub proof fn lemma_norm_nonneg(u: (i64, i64))
    ensures
        norm_sq(u) >= 0,
        u.0 * u.0 <= norm_sq(u),
        u.1 * u.1 <= norm_sq(u),
{
    assert(0 <= u.0 * u.0 && 0 <= u.1 * u.1) by (nonlinear_arith);
}

/// `x - y` and `x + y` expanded against `y`.
proof fn lemma_step_expand(x0: int, x1: int, y0: int, y1: int)
    ensures
        (x0 - y0) * (x0 - y0) + (x1 - y1) * (x1 - y1) == (x0 * x0 + x1 * x1) - 2 * (x0 * y0 + x1 * y1) + (y0 * y0 + y1 * y1),
        (x0 - y0) * y0 + (x1 - y1) * y1 == (x0 * y0 + x1 * y1) - (y0 * y0 + y1 * y1),
        (x0 + y0) * (x0 + y0) + (x1 + y1) * (x1 + y1) == (x0 * x0 + x1 * x1) + 2 * (x0 * y0 + x1 * y1) + (y0 * y0 + y1 * y1),
        (x0 + y0) * y0 + (x1 + y1) * y1 == (x0 * y0 + x1 * y1) + (y0 * y0 + y1 * y1),
{
    assert((x0 - y0) * (x0 - y0) == x0 * x0 - 2 * (x0 * y0) + y0 * y0) by (nonlinear_arith);
    assert((x1 - y1) * (x1 - y1) == x1 * x1 - 2 * (x1 * y1) + y1 * y1) by (nonlinear_arith);
    assert((x0 - y0) * y0 == x0 * y0 - y0 * y0) by (nonlinear_arith);
    assert((x1 - y1) * y1 == x1 * y1 - y1 * y1) by (nonlinear_arith);
    assert((x0 + y0) * (x0 + y0) == x0 * x0 + 2 * (x0 * y0) + y0 * y0) by (nonlinear_arith);
    assert((x1 + y1) * (x1 + y1) == x1 * x1 + 2 * (x1 * y1) + y1 * y1) by (nonlinear_arith);
    assert((x0 + y0) * y0 == x0 * y0 + y0 * y0) by (nonlinear_arith);
    assert((x1 + y1) * y1 == x1 * y1 + y1 * y1) by (nonlinear_arith);
}

/// Multiplying by `1` or `-1`.
proof fn lemma_unit_mul(k: int, x: int)
    requires
        k == 1 || k == -1,
    ensures
        k * x == if k == 1 { x } else { -x },
{
    assert(k * x == if k == 1 { x } else { -x }) by (nonlinear_arith)
        requires
            k == 1 || k == -1,
    ;
}

/// The facts of one reduction step on an ordered pair `(a, b)` with `b != 0` and no tie:
/// the multiplier is -1, 0 or 1; it is 0 exactly when the pair is already reduced; otherwise
/// `a - k b` is strictly shorter than `a` and reduced against `b`.
proof fn lemma_reduction_step(a: (i64, i64), b: (i64, i64), k: int)
    requires
        norm_sq(a) <= norm_sq(b),
        norm_sq(b) > 0,
        norm_sq(b) <= REDUCTION_NORM_BOUND,
        2 * abs_int(dot_spec(a, b)) != norm_sq(b),
        2 * abs_int(dot_spec(a, b) - k * norm_sq(b)) <= norm_sq(b),
    ensures
        -1 <= k <= 1,
        k == 0 <==> 2 * abs_int(dot_spec(a, b)) < norm_sq(b),
        k != 0 ==> {
            let c0 = a.0 - k * b.0;
            let c1 = a.1 - k * b.1;
            &&& c0 * c0 + c1 * c1 < norm_sq(a)
            &&& 2 * abs_int(c0 * b.0 + c1 * b.1) < norm_sq(b)
            &&& abs_int(c0) <= 0x2_0000_0000
            &&& abs_int(c1) <= 0x2_0000_0000
        },
{
    let d = dot_spec(a, b);
    let n = norm_sq(b);
    lemma_cauchy_schwarz(a, b);
    lemma_norm_nonneg(a);
    lemma_norm_nonneg(b);
    assert(norm_sq(a) * n <= n * n) by (nonlinear_arith)
        requires
            0 <= norm_sq(a) <= n,
    ;
    assert(abs_int(d) <= n) by (nonlinear_arith)
        requires
            d * d <= n * n,
            n > 0,
    ;
    if k >= 2 {
        assert(k * n >= 2 * n) by (nonlinear_arith)
            requires
                k >= 2,
                n > 0,
        ;
    }
    if k <= -2 {
        assert(k * n <= -2 * n) by (nonlinear_arith)
            requires
                k <= -2,
                n > 0,
        ;
    }
    assert(-1 <= k <= 1);
    lemma_step_expand(a.0 as int, a.1 as int, b.0 as int, b.1 as int);
    if k != 0 {
        lemma_unit_mul(k, n);
        lemma_unit_mul(k, b.0 as int);
        lemma_unit_mul(k, b.1 as int);
        let c0 = a.0 - k * b.0;
        let c1 = a.1 - k * b.1;
        assert(abs_int(b.0 as int) <= 0xB504_F334 && abs_int(b.1 as int) <= 0xB504_F334 && abs_int(a.0 as int) <= 0xB504_F334 && abs_int(a.1 as int) <= 0xB504_F334) by (nonlinear_arith)
            requires
                b.0 * b.0 <= 0x7FFF_FFFF_FFFF_FFFF,
                b.1 * b.1 <= 0x7FFF_FFFF_FFFF_FFFF,
                a.0 * a.0 <= 0x7FFF_FFFF_FFFF_FFFF,
                a.1 * a.1 <= 0x7FFF_FFFF_FFFF_FFFF,
        ;
    } else {
        assert(k * n == 0);
    }
}

impl LatticeBasis {
    /// The natural basis of `L_q`: `(q, 0)` and `(r_q, 1)`.
    pub fn initial(q: u64, r_q: u64) -> (r: Self)
        ensures
            r.v1 == (q as i64, 0i64),
            r.v2 == (r_q as i64, 1i64),
            r.q == q,
            r.r_q == r_q,
    {
        LatticeBasis { v1: (q as i64, 0), v2: (r_q as i64, 1), q, r_q }
    }

    /// Gauss reduction: order the pair by length, then replace the shorter vector `a` by
    /// `a - k b`, `k = round(dot(a, b) / |b|^2)`, until the multiplier is zero; finally put
    /// the shorter vector first.
    ///
    /// On a tie (`2 |dot(a, b)| = |b|^2 > 0` for the ordered pair) the step would alternate
    /// between `a` and `a - k b` forever; the pair already meets `|dot(a, b)| <= |b|^2 / 2`,
    /// so the reduction stops there with the ordered pair.
    pub fn gauss_reduce(&self) -> (r: Self)
        requires
            norm_sq(self.v1) <= REDUCTION_NORM_BOUND,
            norm_sq(self.v2) <= REDUCTION_NORM_BOUND,
        ensures
            (r.v1, r.v2) == gauss_spec(self.v1, self.v2),
            r.q == self.q,
            r.r_q == self.r_q,
            norm_sq(r.v1) <= norm_sq(r.v2),
            2 * abs_int(dot_spec(r.v1, r.v2)) <= norm_sq(r.v2),
            norm_sq(r.v2) == 0 || 2 * abs_int(dot_spec(r.v1, r.v2)) < norm_sq(r.v2) || gauss_tie(self.v1, self.v2),
    {
        let ghost (ga, gb) = ordered(self.v1, self.v2);
        let ghost gk = gauss_multiplier(self.v1, self.v2);
        let ghost target = gauss_spec(self.v1, self.v2);
        proof {
            lemma_dot_fits(self.v1, self.v1);
            lemma_dot_fits(self.v2, self.v2);
            lemma_dot_fits(ga, gb);
            lemma_dot_fits(gb, gb);
        }
        let mut v1 = self.v1;
        let mut v2 = self.v2;
        let ghost mut stage: int = 0;
        loop
            invariant_except_break
                0 <= stage <= 1,
                stage == 0 ==> v1 == self.v1 && v2 == self.v2,
                stage == 1 ==> v1 == target.0 && v2 == gb && norm_sq(v1) < norm_sq(v2) && 2 * abs_int(dot_spec(v1, v2)) < norm_sq(v2) && gk != 0,
                norm_sq(self.v1) <= REDUCTION_NORM_BOUND,
                norm_sq(self.v2) <= REDUCTION_NORM_BOUND,
                (ga, gb) == ordered(self.v1, self.v2),
                gk == gauss_multiplier(self.v1, self.v2),
                target == gauss_spec(self.v1, self.v2),
            ensures
                (v1, v2) == target,
            decreases 1 - stage,
        {
            proof {
                assert(norm_sq(v1) <= REDUCTION_NORM_BOUND && norm_sq(v2) <= REDUCTION_NORM_BOUND);
                lemma_dot_fits(v1, v1);
                lemma_dot_fits(v2, v2);
                lemma_dot_fits(v1, v2);
                lemma_dot_fits(v2, v1);
            }
            let norm1_sq = dot(v1, v1);
            let norm2_sq = dot(v2, v2);
            if norm1_sq > norm2_sq {
                let t = v1;
                v1 = v2;
                v2 = t;
            }
            proof {
                if stage == 0 {
                    assert((v1, v2) == (ga, gb));
                }
            }
            let d12 = dot(v1, v2);
            let d22 = dot(v2, v2);
            if d22 == 0 {
                proof {
                    assert(stage == 0);
                    assert(gk == 0);
                    lemma_norm_nonneg(ga);
                    lemma_norm_nonneg(gb);
                    assert(norm_sq(ga) == 0);
                    assert(ga.0 * ga.0 + ga.1 * ga.1 == 0);
                    assert(ga.0 == 0 && ga.1 == 0) by (nonlinear_arith)
                        requires
                            ga.0 * ga.0 + ga.1 * ga.1 == 0,
                    ;
                }
                break;
            }
            if (d12 as i128) * 2 == d22 as i128 || (d12 as i128) * 2 == -(d22 as i128) {
                proof {
                    lemma_norm_nonneg(v2);
                    assert(d12 == dot_spec(v1, v2) && d22 == norm_sq(v2));
                    assert(2 * abs_int(dot_spec(v1, v2)) == norm_sq(v2));
                    assert(stage == 0);
                    assert(gk == 0);
                    assert(target.0 == ((ga.0 - 0 * gb.0) as i64, (ga.1 - 0 * gb.1) as i64));
                    assert(target.0 == ga);
                }
                break;
            }
            let k = round_div(d12, d22);
            proof {
                lemma_norm_nonneg(v2);
                lemma_reduction_step(v1, v2, k as int);
            }
            if k == 0 {
                proof {
                    if stage == 0 {
                        assert(gk == 0);
                        assert(target.0 == ((ga.0 - 0 * gb.0) as i64, (ga.1 - 0 * gb.1) as i64));
                        assert(target.0 == ga);
                    }
                }
                break;
            }
            proof {
                assert(stage == 0);
                assert(k as int == gk);
                lemma_unit_mul(k as int, v2.0 as int);
                lemma_unit_mul(k as int, v2.1 as int);
                lemma_norm_nonneg(v2);
                assert(abs_int(v2.0 as int) <= 0xB504_F334 && abs_int(v2.1 as int) <= 0xB504_F334) by (nonlinear_arith)
                    requires
                        v2.0 * v2.0 <= 0x7FFF_FFFF_FFFF_FFFF,
                        v2.1 * v2.1 <= 0x7FFF_FFFF_FFFF_FFFF,
                ;
            }
            v1 = (v1.0 - k * v2.0, v1.1 - k * v2.1);
            proof {
                stage = 1;
                assert(v1 == target.0);
            }
        }
        proof {
            lemma_gauss_reduced(self.v1, self.v2);
            assert(norm_sq(v2) <= REDUCTION_NORM_BOUND);
            lemma_dot_fits(v1, v1);
            lemma_dot_fits(v2, v2);
        }
        if dot(v1, v1) > dot(v2, v2) {
            let t = v1;
            v1 = v2;
            v2 = t;
        }
        LatticeBasis { v1, v2, q: self.q, r_q: self.r_q }
    }

    /// Whether `(a, b)` lies in `L_q`: `a = r_q * b (mod q)`.
    pub fn in_lattice(&self, a: i64, b: i64) -> (r: bool)
        requires
            0 < self.q <= 0x3FFF_FFFF_FFFF_FFFF,
            self.r_q <= i64::MAX,
            i64::MIN <= self.r_q * b <= i64::MAX,
        ensures
            r == in_lattice_spec(self.q as int, self.r_q as int, a as int, b as int),
    {
        let q = self.q as i64;
        let r_q = self.r_q as i64;
        let lhs = ((a % q) + q) % q;
        let rhs = ((r_q * b % q) + q) % q;
        proof {
            lemma_canonical_rem(a as int, q as int);
            lemma_canonical_rem((r_q * b) as int, q as int);
            lemma_mod_equiv_sub(a as int, (r_q * b) as int, q as int);
        }
        lhs == rhs
    }
}

/// The Gauss-reduced pair is reduced: its first vector is no longer than the second, their
/// dot product is less than half the second's squared length (or both vanish), and the sum of
/// the squared lengths does not grow.
pub proof fn lemma_gauss_reduced(v1: (i64, i64), v2: (i64, i64))
    requires
        norm_sq(v1) <= REDUCTION_NORM_BOUND,
        norm_sq(v2) <= REDUCTION_NORM_BOUND,
    ensures
        norm_sq(gauss_spec(v1, v2).0) <= norm_sq(gauss_spec(v1, v2).1),
        2 * abs_int(dot_spec(gauss_spec(v1, v2).0, gauss_spec(v1, v2).1)) <= norm_sq(gauss_spec(v1, v2).1),
        norm_sq(gauss_spec(v1, v2).1) == 0 || 2 * abs_int(dot_spec(gauss_spec(v1, v2).0, gauss_spec(v1, v2).1)) < norm_sq(gauss_spec(v1, v2).1)
            || gauss_tie(v1, v2),
        norm_sq(gauss_spec(v1, v2).1) == 0 ==> gauss_spec(v1, v2).0 == (0i64, 0i64),
        norm_sq(gauss_spec(v1, v2).0) + norm_sq(gauss_spec(v1, v2).1) <= norm_sq(v1) + norm_sq(v2),
{
    let (a, b) = ordered(v1, v2);
    let k = gauss_multiplier(v1, v2);
    let w = gauss_spec(v1, v2);
    if norm_sq(b) == 0 {
        assert(a.0 * a.0 + a.1 * a.1 <= 0);
        assert(a.0 == 0 && a.1 == 0) by (nonlinear_arith)
            requires
                a.0 * a.0 + a.1 * a.1 <= 0,
        ;
        assert(w.0 == a);
    } else if 2 * abs_int(dot_spec(a, b)) == norm_sq(b) {
        assert(k == 0);
        assert(w.0 == ((a.0 - 0 * b.0) as i64, (a.1 - 0 * b.1) as i64));
        assert(w.0 == a);
    } else {
        lemma_dot_fits(a, b);
        lemma_dot_fits(b, b);
        lemma_norm_nonneg(b);
        let d = dot_spec(a, b);
        let n = norm_sq(b);
        lemma_round_nearest(d, n);
        lemma_reduction_step(a, b, k);
        if k == 0 {
            assert(w.0 == a);
        } else {
            let c0 = a.0 - k * b.0;
            let c1 = a.1 - k * b.1;
            assert(w.0 == (c0 as i64, c1 as i64));
            assert(w.0.0 == c0 && w.0.1 == c1);
            assert(norm_sq(w.0) == c0 * c0 + c1 * c1);
            assert(dot_spec(w.0, w.1) == c0 * b.0 + c1 * b.1);
        }
    }
}

/// The rounding of `round_half_away` is to a nearest integer, halves away from zero.
proof fn lemma_round_nearest(n: int, d: int)
    requires
        d > 0,
    ensures
        2 * abs_int(n - round_half_away(n, d) * d) <= d,
        2 * abs_int(n - round_half_away(n, d) * d) == d ==> abs_int(round_half_away(n, d) * d) > abs_int(n),
{
    let h = d / 2;
    let m = if n >= 0 { n } else { -n };
    let q = (m + h) / d;
    lemma_fundamental_div_mod(m + h, d);
    assert(q * d <= m + h < q * d + d);
    let k = round_half_away(n, d);
    assert(k == if n >= 0 { q } else { -q });
    if n >= 0 {
        assert(k * d == q * d);
    } else {
        assert(k * d == -(q * d)) by (nonlinear_arith)
            requires
                k == -q,
        ;
    }
    assert(q >= 0) by (nonlinear_arith)
        requires
            q * d + d > m + h,
            m >= 0,
            h >= 0,
            d > 0,
    ;
}

/// Gauss reduction stays inside `L_q`: when both input vectors lie in the lattice, so do both
/// reduced vectors.
pub proof fn lemma_gauss_in_lattice(q: int, r_q: int, v1: (i64, i64), v2: (i64, i64))
    requires
        q > 0,
        norm_sq(v1) <= REDUCTION_NORM_BOUND,
        norm_sq(v2) <= REDUCTION_NORM_BOUND,
        in_lattice_spec(q, r_q, v1.0 as int, v1.1 as int),
        in_lattice_spec(q, r_q, v2.0 as int, v2.1 as int),
    ensures
        in_lattice_spec(q, r_q, gauss_spec(v1, v2).0.0 as int, gauss_spec(v1, v2).0.1 as int),
        in_lattice_spec(q, r_q, gauss_spec(v1, v2).1.0 as int, gauss_spec(v1, v2).1.1 as int),
{
    let (a, b) = ordered(v1, v2);
    let k = gauss_multiplier(v1, v2);
    let w = gauss_spec(v1, v2);
    lemma_gauss_exact(v1, v2);
    let ea = a.0 - r_q * a.1;
    let eb = b.0 - r_q * b.1;
    assert(w.0.0 - r_q * w.0.1 == ea - k * eb) by (nonlinear_arith)
        requires
            w.0.0 == a.0 - k * b.0,
            w.0.1 == a.1 - k * b.1,
            ea == a.0 - r_q * a.1,
            eb == b.0 - r_q * b.1,
    ;
    lemma_fundamental_div_mod(ea, q);
    lemma_fundamental_div_mod(eb, q);
    let (ia, ib) = (ea / q, eb / q);
    assert(ea - k * eb == q * (ia - k * ib)) by (nonlinear_arith)
        requires
            ea == q * ia + 0,
            eb == q * ib + 0,
    ;
    lemma_mod_multiples_basic(ia - k * ib, q);
    assert((ia - k * ib) * q == q * (ia - k * ib)) by (nonlinear_arith);
}

/// The reduced vectors are the ordered pair with `a` replaced by `a - k b`, exactly (no
/// truncation), with `k` in `{-1, 0, 1}`.
pub proof fn lemma_gauss_exact(v1: (i64, i64), v2: (i64, i64))
    requires
        norm_sq(v1) <= REDUCTION_NORM_BOUND,
        norm_sq(v2) <= REDUCTION_NORM_BOUND,
    ensures
        -1 <= gauss_multiplier(v1, v2) <= 1,
        gauss_spec(v1, v2).1 == ordered(v1, v2).1,
        gauss_spec(v1, v2).0.0 == ordered(v1, v2).0.0 - gauss_multiplier(v1, v2) * ordered(v1, v2).1.0,
        gauss_spec(v1, v2).0.1 == ordered(v1, v2).0.1 - gauss_multiplier(v1, v2) * ordered(v1, v2).1.1,
{
    let (a, b) = ordered(v1, v2);
    let k = gauss_multiplier(v1, v2);
    if norm_sq(b) != 0 && 2 * abs_int(dot_spec(a, b)) != norm_sq(b) {
        lemma_dot_fits(a, b);
        lemma_dot_fits(b, b);
        lemma_norm_nonneg(b);
        lemma_round_nearest(dot_spec(a, b), norm_sq(b));
        lemma_reduction_step(a, b, k);
    }
}

/// Gauss reduction keeps the lattice spanned: each input vector is an integer combination of
/// the reduced pair, and each reduced vector one of the inputs.
pub proof fn lemma_gauss_same_lattice(v1: (i64, i64), v2: (i64, i64))
    requires
        norm_sq(v1) <= REDUCTION_NORM_BOUND,
        norm_sq(v2) <= REDUCTION_NORM_BOUND,
    ensures
        spans(gauss_spec(v1, v2).0, gauss_spec(v1, v2).1, v1),
        spans(gauss_spec(v1, v2).0, gauss_spec(v1, v2).1, v2),
        spans(v1, v2, gauss_spec(v1, v2).0),
        spans(v1, v2, gauss_spec(v1, v2).1),
{
    let (a, b) = ordered(v1, v2);
    let k = gauss_multiplier(v1, v2);
    let (w1, w2) = gauss_spec(v1, v2);
    lemma_gauss_exact(v1, v2);
    let swapped = norm_sq(v1) > norm_sq(v2);
    // inputs from outputs: a = w1 + k w2, b = w2
    assert(is_combination(w1, w2, a, 1, k));
    assert(is_combination(w1, w2, b, 0, 1));
    // outputs from inputs: w1 = a - k b, w2 = b
    if swapped {
        assert(v1 == b && v2 == a);
        assert(spans(w1, w2, v1)) by {
            assert(is_combination(w1, w2, v1, 0, 1));
        }
        assert(spans(w1, w2, v2)) by {
            assert(is_combination(w1, w2, v2, 1, k));
        }
        assert(spans(v1, v2, w1)) by {
            assert((-k) * v1.0 == -(k * v1.0) && (-k) * v1.1 == -(k * v1.1)) by (nonlinear_arith);
            assert(is_combination(v1, v2, w1, (-k), 1));
        }
        assert(spans(v1, v2, w2)) by {
            assert(is_combination(v1, v2, w2, 1, 0));
        }
    } else {
        assert(v1 == a && v2 == b);
        assert(spans(w1, w2, v1)) by {
            assert(is_combination(w1, w2, v1, 1, k));
        }
        assert(spans(w1, w2, v2)) by {
            assert(is_combination(w1, w2, v2, 0, 1));
        }
        assert(spans(v1, v2, w1)) by {
            assert((-k) * v2.0 == -(k * v2.0) && (-k) * v2.1 == -(k * v2.1)) by (nonlinear_arith);
            assert(is_combination(v1, v2, w1, 1, (-k)));
        }
        assert(spans(v1, v2, w2)) by {
            assert(is_combination(v1, v2, w2, 0, 1));
        }
    }
}

/// The determinant of the pair `(u, v)`: `u.0 v.1 - u.1 v.0`.
pub open spec fn det_spec(u: (i64, i64), v: (i64, i64)) -> int {
    u.0 * v.1 - u.1 * v.0
}

/// Gauss reduction keeps the determinant of the basis up to sign, so the reduced pair
/// spans a lattice of the same covolume.
pub proof fn lemma_gauss_det(v1: (i64, i64), v2: (i64, i64))
    requires
        norm_sq(v1) <= REDUCTION_NORM_BOUND,
        norm_sq(v2) <= REDUCTION_NORM_BOUND,
    ensures
        abs_int(det_spec(gauss_spec(v1, v2).0, gauss_spec(v1, v2).1)) == abs_int(det_spec(v1, v2)),
{
    let (a, b) = ordered(v1, v2);
    let k = gauss_multiplier(v1, v2);
    let (w1, w2) = gauss_spec(v1, v2);
    lemma_gauss_exact(v1, v2);
    let (a0, a1, b0, b1) = (a.0 as int, a.1 as int, b.0 as int, b.1 as int);
    assert((a0 - k * b0) * b1 - (a1 - k * b1) * b0 == a0 * b1 - a1 * b0) by (nonlinear_arith);
    assert(det_spec(w1, w2) == det_spec(a, b));
    assert(det_spec(v2, v1) == -det_spec(v1, v2)) by (nonlinear_arith);
}

/// The canonical residue `((x rem q) + q) rem q` with Rust's truncating remainder is the
/// Euclidean residue `x mod q`.
proof fn lemma_canonical_rem(x: int, q: int)
    requires
        q > 0,
    ensures
        (if x >= 0 { x % q } else { -((-x) % q) }) + q > 0,
        ((if x >= 0 { x % q } else { -((-x) % q) }) + q) % q == x % q,
{
    lemma_fundamental_div_mod(x, q);
    if x < 0 {
        lemma_fundamental_div_mod(-x, q);
        let t = -((-x) % q);
        let j = (-x) / q;
        assert(-x == q * j + (-x) % q);
        assert(x == q * (-j) + t) by (nonlinear_arith)
            requires
                -x == q * j + (-x) % q,
                t == -((-x) % q),
        ;
        assert(t + q == q * (j + 1) + x) by (nonlinear_arith)
            requires
                x == q * (-j) + t,
        ;
        lemma_mod_add_multiple(x, j + 1, q);
    } else {
        lemma_mod_add_multiple(x % q, 1, q);
        assert(x % q + q == q * 1 + x % q);
        assert((x % q) % q == x % q) by {
            vstd::arithmetic::div_mod::lemma_mod_twice(x, q);
        }
    }
}

/// Adding a multiple of `q` keeps the residue.
proof fn lemma_mod_add_multiple(x: int, j: int, q: int)
    requires
        q > 0,
    ensures
        (q * j + x) % q == x % q,
{
    vstd::arithmetic::div_mod::lemma_mod_multiples_vanish(j, x, q);
}

/// Residues agree exactly when the difference is a multiple.
proof fn lemma_mod_equiv_sub(x: int, y: int, q: int)
    requires
        q > 0,
    ensures
        (x % q == y % q) <==> ((x - y) % q == 0),
{
    vstd::arithmetic::div_mod::lemma_mod_equivalence(x, y, q);
}

} // verus!
