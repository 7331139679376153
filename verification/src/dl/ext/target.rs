//! Elements of `F_{p^k} = F_p[u]/(m(u))`, the extension-field targets of the discrete-log
//! descent, and the parameters of the degree-`k` prime ideal above `p` whose residue field is
//! `F_{p^k}`.

use vstd::prelude::*;
use crate::dl::residue::{big_add, big_div, big_mul, big_rem, big_sub, LogResidue};
use vstd::arithmetic::div_mod::{lemma_fundamental_div_mod, lemma_mod_add_multiples_vanish, lemma_mod_multiples_vanish};

verus! {

/// The degree-`k` prime ideal above `p`: the prime, the residue degree and the irreducible
/// modulus `m(u) = f mod p` of degree `k`, least-significant coefficient first.
#[derive(Debug, Clone, PartialEq, Eq)]
pub struct ExtResidueMap {
    /// The prime `p`.
    pub p: LogResidue,
    /// The extension degree `k`.
    pub k: usize,
    /// The modulus `m(u)`, `k + 1` coefficients.
    pub modulus: Vec<LogResidue>,
}

/// The values of a list of residues.
pub open spec fn vals(s: Seq<LogResidue>) -> Seq<int> {
    s.map(|i: int, c: LogResidue| c.value() as int)
}

/// An element `c_0 + c_1 u + ... + c_{k-1} u^{k-1}` of `F_p[u]/(m(u))`, `m` monic of degree
/// `k`, stored with its prime and modulus.
#[derive(Debug, Clone, PartialEq, Eq)]
pub struct ExtTarget {
    /// The coefficients `c_0, ..., c_{k-1}`, each in `[0, p)`.
    pub coeffs: Vec<LogResidue>,
    /// The prime `p`.
    pub p: LogResidue,
    /// The extension degree `k`.
    pub k: usize,
    /// The modulus `m(u)`, `k + 1` coefficients, lowest first, with `m_k = 1`.
    pub modulus: Vec<LogResidue>,
}

/// A well-formed element: `k >= 1` coefficients, all in `[0, p)`, `p >= 2`, a monic modulus
/// of degree `k` (and `2k` fits a machine word).
pub open spec fn ext_wf(t: ExtTarget) -> bool {
    &&& t.k >= 1
    &&& 2 * t.k < usize::MAX
    &&& t.coeffs@.len() == t.k
    &&& t.modulus@.len() == t.k + 1
    &&& t.modulus@[t.k as int].value() == 1
    &&& t.p.value() >= 2
    &&& forall|i: int| 0 <= i < t.k ==> #[trigger] t.coeffs@[i].value() < t.p.value()
}

/// Two elements of the same field: same degree, prime and modulus.
pub open spec fn compatible(a: ExtTarget, b: ExtTarget) -> bool {
    &&& a.k == b.k
    &&& a.p.value() == b.p.value()
    &&& vals(a.modulus@) == vals(b.modulus@)
}

/// Coefficient-wise sum modulo `p`.
pub open spec fn add_vals(a: Seq<int>, b: Seq<int>, p: int) -> Seq<int> {
    Seq::new(a.len(), |t: int| (a[t] + b[t]) % p)
}

/// `sum_{i < n} a_i b_{d - i}`, over the `i` with `0 <= d - i < b.len()`: coefficient `d` of
/// the product `a b`, from the first `n` coefficients of `a`.
pub open spec fn conv(a: Seq<int>, b: Seq<int>, d: int, n: int) -> int
    decreases n,
{
    if n <= 0 {
        0
    } else {
        conv(a, b, d, n - 1) + if 0 <= d - (n - 1) < b.len() {
            a[n - 1] * b[d - (n - 1)]
        } else {
            0
        }
    }
}

/// The schoolbook product `a b`, coefficients modulo `p`.
pub open spec fn schoolbook(a: Seq<int>, b: Seq<int>, p: int) -> Seq<int> {
    Seq::new((a.len() + b.len() - 1) as nat, |d: int| conv(a, b, d, a.len() as int) % p)
}

/// One reduction step: the coefficient of `u^d` times `u^{d-k} m(u)` taken off, modulo `p`
/// (`u^k = -(m_0 + ... + m_{k-1} u^{k-1})` for monic `m`).
pub open spec fn reduce_top(w: Seq<int>, m: Seq<int>, p: int, k: int, d: int) -> Seq<int> {
    Seq::new(
        w.len(),
        |t: int|
            if t == d {
                0
            } else if d - k <= t < d {
                (w[t] - (w[d] * m[t - (d - k)]) % p) % p
            } else {
                w[t]
            },
    )
}

/// Reduction of the degrees `d, d - 1, ..., k`, from the top down.
pub open spec fn reduce_down(w: Seq<int>, m: Seq<int>, p: int, k: int, d: int) -> Seq<int>
    decreases d - k + 1,
{
    if d < k {
        w
    } else {
        reduce_down(reduce_top(w, m, p, k, d), m, p, k, d - 1)
    }
}

/// The product in `F_p[u]/(m(u))`: the schoolbook product reduced by the monic modulus `m`
/// from the top degree down, coefficients modulo `p`.
pub open spec fn mul_mod(a: Seq<int>, b: Seq<int>, m: Seq<int>, p: int) -> Seq<int> {
    let k = a.len() as int;
    reduce_down(schoolbook(a, b, p), m, p, k, 2 * k - 2).take(k)
}

/// The unit `1 = [1, 0, ..., 0]` with `k` coefficients.
pub open spec fn unit_vals(k: nat) -> Seq<int> {
    Seq::new(k, |i: int| if i == 0 { 1int } else { 0int })
}

/// Square and multiply from the lowest bit of `e` up: while `e > 0`, `res` takes a factor `b`
/// when `e` is odd, `b` is squared and `e` halved.
pub open spec fn sq_mul(res: Seq<int>, b: Seq<int>, e: nat, m: Seq<int>, p: int) -> Seq<int>
    decreases e,
{
    if e == 0 {
        res
    } else {
        proof {
            vstd::arithmetic::div_mod::lemma_div_decreases(e as int, 2);
        }
        sq_mul(if e % 2 == 1 { mul_mod(res, b, m, p) } else { res }, mul_mod(b, b, m, p), e / 2, m, p)
    }
}

/// `a^e` in `F_p[u]/(m(u))` by square and multiply, from the unit.
pub open spec fn ext_pow(a: Seq<int>, e: nat, m: Seq<int>, p: int) -> Seq<int> {
    sq_mul(unit_vals(a.len()), a, e, m, p)
}

/// The monomial `u^i` with `k` coefficients (`i < k`).
pub open spec fn monomial_vals(i: int, k: nat) -> Seq<int> {
    Seq::new(k, |t: int| if t == i { 1int } else { 0int })
}

/// Every coefficient times `c`, modulo `p`.
pub open spec fn scale_vals(a: Seq<int>, c: int, p: int) -> Seq<int> {
    Seq::new(a.len(), |t: int| (a[t] * c) % p)
}

/// The Frobenius image of `c_0 + ... + c_{k-1} u^{k-1}` over its first `n` coefficients:
/// `sum_i c_i (u^i)^p`, each `(u^i)^p` by square and multiply, the nonzero terms added in
/// order modulo `p`.
pub open spec fn frobenius_vals(c: Seq<int>, m: Seq<int>, p: int, n: int) -> Seq<int>
    decreases n,
{
    if n <= 0 {
        Seq::new(c.len(), |t: int| 0int)
    } else {
        let prev = frobenius_vals(c, m, p, n - 1);
        if c[n - 1] == 0 {
            prev
        } else {
            add_vals(prev, scale_vals(ext_pow(monomial_vals(n - 1, c.len()), p as nat, m, p), c[n - 1], p), p)
        }
    }
}

/// `(x mod p + y) mod p = (x + y) mod p`.
proof fn lemma_mod_add_left(x: int, y: int, p: int)
    requires
        p > 0,
    ensures
        (x % p + y) % p == (x + y) % p,
{
    lemma_fundamental_div_mod(x, p);
    lemma_mod_multiples_vanish(x / p, x % p + y, p);
    assert(p * (x / p) + (x % p + y) == x + y);
}

impl ExtTarget {
    /// The element with the given coefficients, prime and monic modulus of degree
    /// `coeffs.len()`.
    pub fn from_coeffs(coeffs: Vec<LogResidue>, p: LogResidue, modulus: Vec<LogResidue>) -> (r: Self)
        requires
            coeffs@.len() >= 1,
            2 * coeffs@.len() < usize::MAX,
            modulus@.len() == coeffs@.len() + 1,
            modulus@[coeffs@.len() as int].value() == 1,
            p.value() >= 2,
            forall|i: int| 0 <= i < coeffs@.len() ==> #[trigger] coeffs@[i].value() < p.value(),
        ensures
            ext_wf(r),
            r.coeffs == coeffs,
            r.p == p,
            r.modulus == modulus,
            r.k == coeffs@.len(),
    {
        let k = coeffs.len();
        ExtTarget { coeffs, p, k, modulus }
    }

    /// Coefficient `i`, the coefficient of `u^i`.
    pub fn coeff(&self, i: usize) -> (r: &LogResidue)
        requires
            i < self.coeffs@.len(),
        ensures
            *r == self.coeffs@[i as int],
    {
        &self.coeffs[i]
    }

    /// True for the zero element.
    pub fn is_zero(&self) -> (b: bool)
        ensures
            b == forall|i: int| 0 <= i < self.coeffs@.len() ==> #[trigger] vals(self.coeffs@)[i] == 0,
    {
        let mut i: usize = 0;
        while i < self.coeffs.len()
            invariant
                i <= self.coeffs@.len(),
                forall|t: int| 0 <= t < i ==> #[trigger] vals(self.coeffs@)[t] == 0,
            decreases self.coeffs@.len() - i,
        {
            if !self.coeffs[i].is_zero() {
                assert(vals(self.coeffs@)[i as int] != 0);
                return false;
            }
            i = i + 1;
        }
        true
    }

    /// True for the unit element `1`.
    pub fn is_one(&self) -> (b: bool)
        requires
            self.coeffs@.len() >= 1,
        ensures
            b == (vals(self.coeffs@) == Seq::new(self.coeffs@.len(), |i: int| if i == 0 { 1int } else { 0int })),
    {
        let ghost one = Seq::new(self.coeffs@.len(), |i: int| if i == 0 { 1int } else { 0int });
        if !self.coeffs[0].is_one() {
            assert(vals(self.coeffs@)[0] != one[0]);
            return false;
        }
        let mut i: usize = 1;
        while i < self.coeffs.len()
            invariant
                1 <= i <= self.coeffs@.len(),
                one == Seq::new(self.coeffs@.len(), |i: int| if i == 0 { 1int } else { 0int }),
                vals(self.coeffs@)[0] == 1,
                forall|t: int| 1 <= t < i ==> #[trigger] vals(self.coeffs@)[t] == 0,
            decreases self.coeffs@.len() - i,
        {
            if !self.coeffs[i].is_zero() {
                assert(vals(self.coeffs@)[i as int] != one[i as int]);
                return false;
            }
            i = i + 1;
        }
        assert(vals(self.coeffs@) =~= one);
        true
    }

    /// The sum, coefficient by coefficient modulo `p`.
    pub fn add(&self, rhs: &Self) -> (r: Self)
        requires
            ext_wf(*self),
            ext_wf(*rhs),
            compatible(*self, *rhs),
        ensures
            ext_wf(r),
            compatible(r, *self),
            r.p.digits@ == self.p.digits@,
            vals(r.coeffs@) == add_vals(vals(self.coeffs@), vals(rhs.coeffs@), self.p.value() as int),
    {
        let coeffs = add_coeffs(&self.coeffs, &rhs.coeffs, &self.p);
        let modulus = copy_all(&self.modulus);
        proof {
            assert(modulus@[self.k as int].digits@ == self.modulus@[self.k as int].digits@);
        }
        ExtTarget { coeffs, p: self.p.copy(), k: self.k, modulus }
    }

    /// The product: schoolbook multiplication, then reduction modulo `m(u)`, coefficients
    /// modulo `p`.
    pub fn mul(&self, rhs: &Self) -> (r: Self)
        requires
            ext_wf(*self),
            ext_wf(*rhs),
            compatible(*self, *rhs),
        ensures
            ext_wf(r),
            compatible(r, *self),
            r.p.digits@ == self.p.digits@,
            vals(r.coeffs@) == mul_mod(vals(self.coeffs@), vals(rhs.coeffs@), vals(self.modulus@), self.p.value() as int),
    {
        let coeffs = mul_coeffs(&self.coeffs, &rhs.coeffs, &self.p, &self.modulus, self.k);
        let modulus = copy_all(&self.modulus);
        proof {
            assert(modulus@[self.k as int].digits@ == self.modulus@[self.k as int].digits@);
        }
        ExtTarget { coeffs, p: self.p.copy(), k: self.k, modulus }
    }

    /// `self^exp` by square and multiply.
    pub fn pow(&self, exp: &LogResidue) -> (r: Self)
        requires
            ext_wf(*self),
        ensures
            ext_wf(r),
            compatible(r, *self),
            r.p.digits@ == self.p.digits@,
            vals(r.coeffs@) == ext_pow(vals(self.coeffs@), exp.value(), vals(self.modulus@), self.p.value() as int),
    {
        let coeffs = pow_ext(&self.coeffs, exp, &self.p, &self.modulus);
        let modulus = copy_all(&self.modulus);
        proof {
            assert(modulus@[self.k as int].digits@ == self.modulus@[self.k as int].digits@);
        }
        ExtTarget { coeffs, p: self.p.copy(), k: self.k, modulus }
    }

    /// The Frobenius image `sum_i c_i (u^i)^p` (the `p`-th power map when `p` is prime).
    pub fn frobenius(&self) -> (r: Self)
        requires
            ext_wf(*self),
        ensures
            ext_wf(r),
            compatible(r, *self),
            r.p.digits@ == self.p.digits@,
            vals(r.coeffs@) == frobenius_vals(vals(self.coeffs@), vals(self.modulus@), self.p.value() as int, self.k as int),
    {
        let k = self.k;
        let ghost cv = vals(self.coeffs@);
        let ghost mv = vals(self.modulus@);
        let ghost pp = self.p.value() as int;
        let mut result: Vec<LogResidue> = Vec::with_capacity(k);
        let mut t: usize = 0;
        while t < k
            invariant
                t <= k,
                result@.len() == t,
                forall|d: int| 0 <= d < t ==> #[trigger] result@[d].value() == 0,
            decreases k - t,
        {
            result.push(LogResidue::zero());
            t = t + 1;
        }
        proof {
            assert(vals(result@) =~= frobenius_vals(cv, mv, pp, 0));
        }
        let mut i: usize = 0;
        while i < k
            invariant
                ext_wf(*self),
                k == self.k,
                cv == vals(self.coeffs@),
                mv == vals(self.modulus@),
                pp == self.p.value(),
                i <= k,
                result@.len() == k,
                forall|d: int| 0 <= d < k ==> #[trigger] result@[d].value() < pp,
                vals(result@) == frobenius_vals(cv, mv, pp, i as int),
            decreases k - i,
        {
            let ci = &self.coeffs[i];
            if !ci.is_zero() {
                let ui = monomial(i, k);
                let ui_p = pow_ext(&ui, &self.p, &self.p, &self.modulus);
                let scaled = scale_ext(&ui_p, ci, &self.p);
                result = add_coeffs(&result, &scaled, &self.p);
                proof {
                    assert(cv[i as int] == ci.value());
                    assert(vals(ui@) == monomial_vals(i as int, k as nat));
                }
            } else {
                proof {
                    assert(cv[i as int] == 0);
                }
            }
            i = i + 1;
        }
        let modulus = copy_all(&self.modulus);
        proof {
            assert(modulus@[self.k as int].digits@ == self.modulus@[self.k as int].digits@);
            assert(vals(result@).len() == k);
        }
        ExtTarget { coeffs: result, p: self.p.copy(), k, modulus }
    }
}

impl ExtResidueMap {
    /// The element of this field with the given coefficients: `ExtTarget::from_coeffs` with
    /// this map's prime and modulus.
    pub fn make_target(&self, coeffs: Vec<LogResidue>) -> (r: ExtTarget)
        requires
            coeffs@.len() == self.k,
            self.k >= 1,
            2 * self.k < usize::MAX,
            self.modulus@.len() == self.k + 1,
            self.modulus@[self.k as int].value() == 1,
            self.p.value() >= 2,
            forall|i: int| 0 <= i < coeffs@.len() ==> #[trigger] coeffs@[i].value() < self.p.value(),
        ensures
            ext_wf(r),
            r.coeffs == coeffs,
            r.k == self.k,
            r.p.digits@ == self.p.digits@,
            r.modulus@.len() == self.modulus@.len(),
            forall|i: int| 0 <= i < r.modulus@.len() ==> #[trigger] r.modulus@[i].digits@ == self.modulus@[i].digits@,
    {
        let modulus = copy_all(&self.modulus);
        proof {
            assert(modulus@[self.k as int].digits@ == self.modulus@[self.k as int].digits@);
        }
        ExtTarget::from_coeffs(coeffs, self.p.copy(), modulus)
    }
}

/// A copy of every residue.
fn copy_all(v: &Vec<LogResidue>) -> (r: Vec<LogResidue>)
    ensures
        r@.len() == v@.len(),
        forall|i: int| 0 <= i < v@.len() ==> #[trigger] r@[i].digits@ == v@[i].digits@,
        vals(r@) == vals(v@),
{
    let mut r: Vec<LogResidue> = Vec::with_capacity(v.len());
    let mut i: usize = 0;
    while i < v.len()
        invariant
            i <= v@.len(),
            r@.len() == i,
            forall|t: int| 0 <= t < i ==> #[trigger] r@[t].digits@ == v@[t].digits@,
        decreases v@.len() - i,
    {
        r.push(v[i].copy());
        i = i + 1;
    }
    assert(vals(r@) =~= vals(v@));
    r
}

/// Coefficient-wise sum modulo `p`.
fn add_coeffs(a: &Vec<LogResidue>, b: &Vec<LogResidue>, p: &LogResidue) -> (r: Vec<LogResidue>)
    requires
        p.value() > 0,
        b@.len() >= a@.len(),
    ensures
        r@.len() == a@.len(),
        vals(r@) == add_vals(vals(a@), vals(b@), p.value() as int),
        forall|i: int| 0 <= i < r@.len() ==> #[trigger] r@[i].value() < p.value(),
{
    let mut r: Vec<LogResidue> = Vec::with_capacity(a.len());
    let mut i: usize = 0;
    while i < a.len()
        invariant
            p.value() > 0,
            b@.len() >= a@.len(),
            i <= a@.len(),
            r@.len() == i,
            forall|t: int| 0 <= t < i ==> #[trigger] vals(r@)[t] == (vals(a@)[t] + vals(b@)[t]) % (p.value() as int),
            forall|t: int| 0 <= t < i ==> #[trigger] r@[t].value() < p.value(),
        decreases a@.len() - i,
    {
        let s = big_add(&a[i], &b[i]);
        let c = big_rem(&s, p);
        let ghost before = r@;
        r.push(c);
        proof {
            assert forall|t: int| 0 <= t < i + 1 implies #[trigger] vals(r@)[t] == (vals(a@)[t] + vals(b@)[t]) % (p.value() as int) by {
                if t < i {
                    assert(r@[t] == before[t]);
                    assert(vals(before)[t] == vals(r@)[t]);
                }
            }
        }
        i = i + 1;
    }
    assert(vals(r@) =~= add_vals(vals(a@), vals(b@), p.value() as int));
    r
}

/// The product of two coefficient vectors modulo `m(u)` and `p`: schoolbook multiplication
/// with coefficients reduced modulo `p`, then, from the top degree down to `k`, the leading
/// coefficient times `u^{d-k} m(u)` taken off (skipped when it is zero).
fn mul_coeffs(a: &Vec<LogResidue>, b: &Vec<LogResidue>, p: &LogResidue, modulus: &Vec<LogResidue>, k: usize) -> (r: Vec<
    LogResidue,
>)
    requires
        k >= 1,
        2 * k < usize::MAX,
        a@.len() == k,
        b@.len() == k,
        modulus@.len() >= k,
        p.value() > 0,
    ensures
        r@.len() == k,
        vals(r@) == mul_mod(vals(a@), vals(b@), vals(modulus@), p.value() as int),
        forall|i: int| 0 <= i < r@.len() ==> #[trigger] r@[i].value() < p.value(),
{
    let ghost av = vals(a@);
    let ghost bv = vals(b@);
    let ghost mv = vals(modulus@);
    let ghost pp = p.value() as int;
    let n = 2 * k - 1;
    let mut product: Vec<LogResidue> = Vec::with_capacity(n);
    let mut t: usize = 0;
    while t < n
        invariant
            t <= n,
            product@.len() == t,
            forall|d: int| 0 <= d < t ==> #[trigger] product@[d].value() == 0,
        decreases n - t,
    {
        product.push(LogResidue::zero());
        t = t + 1;
    }
    proof {
        assert forall|d: int| 0 <= d < n implies #[trigger] vals(product@)[d] == conv(av, bv, d, 0) % pp by {
            assert(product@[d].value() == 0);
            assert(0int % pp == 0);
        }
    }
    let mut i: usize = 0;
    while i < k
        invariant
            n == 2 * k - 1,
            k >= 1,
            a@.len() == k,
            b@.len() == k,
            av == vals(a@),
            bv == vals(b@),
            pp == p.value(),
            pp > 0,
            i <= k,
            product@.len() == n,
            forall|d: int| 0 <= d < n ==> #[trigger] vals(product@)[d] == conv(av, bv, d, i as int) % pp,
            forall|d: int| 0 <= d < n ==> #[trigger] product@[d].value() < pp,
        decreases k - i,
    {
        let mut j: usize = 0;
        while j < k
            invariant
                n == 2 * k - 1,
                a@.len() == k,
                b@.len() == k,
                av == vals(a@),
                bv == vals(b@),
                pp == p.value(),
                pp > 0,
                i < k,
                j <= k,
                product@.len() == n,
                forall|d: int|
                    0 <= d < n ==> #[trigger] vals(product@)[d] == (conv(av, bv, d, i as int) + if i <= d < i + j {
                        av[i as int] * bv[d - i]
                    } else {
                        0
                    }) % pp,
                forall|d: int| 0 <= d < n ==> #[trigger] product@[d].value() < pp,
            decreases k - j,
        {
            let prod_ij = big_mul(&a[i], &b[j]);
            let sum = big_add(&product[i + j], &prod_ij);
            let c = big_rem(&sum, p);
            let ghost before = product@;
            product.set(i + j, c);
            proof {
                let e = (i + j) as int;
                let x = conv(av, bv, e, i as int) + 0;
                assert(vals(before)[e] == x % pp);
                lemma_mod_add_left(x, av[i as int] * bv[j as int], pp);
                assert forall|d: int|
                    0 <= d < n implies #[trigger] vals(product@)[d] == (conv(av, bv, d, i as int) + if i <= d < i + j + 1 {
                        av[i as int] * bv[d - i]
                    } else {
                        0
                    }) % pp by {
                    if d != e {
                        assert(product@[d] == before[d]);
                        assert(vals(before)[d] == vals(product@)[d]);
                    }
                }
                assert forall|d: int| 0 <= d < n implies #[trigger] product@[d].value() < pp by {
                    if d != e {
                        assert(product@[d] == before[d]);
                    }
                }
            }
            j = j + 1;
        }
        proof {
            assert forall|d: int| 0 <= d < n implies #[trigger] vals(product@)[d] == conv(av, bv, d, i + 1) % pp by {
                assert(conv(av, bv, d, i + 1) == conv(av, bv, d, i as int) + if 0 <= d - i < bv.len() {
                    av[i as int] * bv[d - i]
                } else {
                    0
                });
            }
        }
        i = i + 1;
    }
    let ghost w0 = vals(product@);
    proof {
        assert(w0 =~= schoolbook(av, bv, pp));
    }
    let mut d: usize = n;
    while d > k
        invariant
            n == 2 * k - 1,
            k >= 1,
            modulus@.len() >= k,
            mv == vals(modulus@),
            pp == p.value(),
            pp > 0,
            k <= d <= n,
            product@.len() == n,
            forall|t: int| 0 <= t < n ==> #[trigger] product@[t].value() < pp,
            reduce_down(vals(product@), mv, pp, k as int, d - 1) == reduce_down(w0, mv, pp, k as int, n - 1),
        decreases d,
    {
        d = d - 1;
        let ghost w = vals(product@);
        let ghost target = reduce_top(w, mv, pp, k as int, d as int);
        if !product[d].is_zero() {
            let lead = product[d].copy();
            product.set(d, LogResidue::zero());
            let mut j: usize = 0;
            while j < k
                invariant
                    n == 2 * k - 1,
                    k <= d < n,
                    modulus@.len() >= k,
                    mv == vals(modulus@),
                    pp == p.value(),
                    pp > 0,
                    j <= k,
                    product@.len() == n,
                    w.len() == n,
                    lead.value() == w[d as int],
                    target == reduce_top(w, mv, pp, k as int, d as int),
                    forall|t: int| 0 <= t < n ==> #[trigger] w[t] < pp && w[t] >= 0,
                    forall|t: int| 0 <= t < n ==> #[trigger] product@[t].value() < pp,
                    forall|t: int|
                        0 <= t < n ==> #[trigger] vals(product@)[t] == if d - k <= t < d - k + j || t == d {
                            target[t]
                        } else {
                            w[t]
                        },
                decreases k - j,
            {
                let tt = d - k + j;
                let m_prod = big_mul(&lead, &modulus[j]);
                let sub = big_rem(&m_prod, p);
                let lifted = big_add(&product[tt], p);
                let diff = big_sub(&lifted, &sub);
                let c = big_rem(&diff, p);
                let ghost before = product@;
                product.set(tt, c);
                proof {
                    let ti = tt as int;
                    assert(vals(before)[ti] == w[ti]);
                    assert(ti - (d - k) == j);
                    assert(mv[j as int] == modulus@[j as int].value());
                    lemma_mod_add_multiples_vanish(w[ti] - sub.value(), pp);
                    assert(c.value() == target[ti]);
                    assert forall|t: int|
                        0 <= t < n implies #[trigger] vals(product@)[t] == if d - k <= t < d - k + j + 1 || t == d {
                            target[t]
                        } else {
                            w[t]
                        } by {
                        if t != ti {
                            assert(product@[t] == before[t]);
                            assert(vals(before)[t] == vals(product@)[t]);
                        }
                    }
                    assert forall|t: int| 0 <= t < n implies #[trigger] product@[t].value() < pp by {
                        if t != ti {
                            assert(product@[t] == before[t]);
                        }
                    }
                }
                j = j + 1;
            }
            proof {
                assert(vals(product@) =~= target);
            }
        } else {
            proof {
                assert forall|t: int| 0 <= t < n implies #[trigger] target[t] == w[t] by {
                    assert(w[t] == product@[t].value());
                    if d - k <= t < d {
                        vstd::arithmetic::div_mod::lemma_small_mod(w[t] as nat, pp as nat);
                        assert(w[d as int] == 0);
                        assert(w[d as int] * mv[t - (d - k)] == 0);
                        assert(0int % pp == 0);
                    }
                }
                assert(vals(product@) =~= target);
            }
        }
    }
    let mut r: Vec<LogResidue> = Vec::with_capacity(k);
    let mut i: usize = 0;
    while i < k
        invariant
            n == 2 * k - 1,
            i <= k,
            product@.len() == n,
            r@.len() == i,
            pp == p.value(),
            forall|t: int| 0 <= t < n ==> #[trigger] product@[t].value() < pp,
            forall|t: int| 0 <= t < i ==> #[trigger] r@[t].digits@ == product@[t].digits@,
        decreases k - i,
    {
        r.push(product[i].copy());
        i = i + 1;
    }
    proof {
        assert forall|t: int| 0 <= t < r@.len() implies #[trigger] r@[t].value() < p.value() by {
            assert(r@[t].digits@ == product@[t].digits@);
            assert(product@[t].value() < pp);
        }
        assert(vals(r@) =~= vals(product@).take(k as int));
        assert(reduce_down(vals(product@), mv, pp, k as int, k - 1) == vals(product@));
    }
    r
}

/// The monomial `u^i` with `k` coefficients (`i < k`).
fn monomial(i: usize, k: usize) -> (r: Vec<LogResidue>)
    requires
        i < k,
    ensures
        r@.len() == k,
        vals(r@) == monomial_vals(i as int, k as nat),
{
    let mut r: Vec<LogResidue> = Vec::with_capacity(k);
    let mut t: usize = 0;
    while t < k
        invariant
            t <= k,
            i < k,
            r@.len() == t,
            forall|d: int| 0 <= d < t ==> #[trigger] r@[d].value() == if d == i { 1int } else { 0int },
        decreases k - t,
    {
        if t == i {
            r.push(LogResidue::from_u64(1));
        } else {
            r.push(LogResidue::zero());
        }
        t = t + 1;
    }
    assert(vals(r@) =~= monomial_vals(i as int, k as nat));
    r
}

/// Every coefficient times `scalar`, modulo `p`.
fn scale_ext(a: &Vec<LogResidue>, scalar: &LogResidue, p: &LogResidue) -> (r: Vec<LogResidue>)
    requires
        p.value() > 0,
    ensures
        r@.len() == a@.len(),
        vals(r@) == scale_vals(vals(a@), scalar.value() as int, p.value() as int),
        forall|i: int| 0 <= i < r@.len() ==> #[trigger] r@[i].value() < p.value(),
{
    let mut r: Vec<LogResidue> = Vec::with_capacity(a.len());
    let mut i: usize = 0;
    while i < a.len()
        invariant
            p.value() > 0,
            i <= a@.len(),
            r@.len() == i,
            forall|t: int| 0 <= t < i ==> #[trigger] r@[t].value() == (a@[t].value() * scalar.value()) % p.value(),
        decreases a@.len() - i,
    {
        let prod = big_mul(&a[i], scalar);
        r.push(big_rem(&prod, p));
        i = i + 1;
    }
    assert(vals(r@) =~= scale_vals(vals(a@), scalar.value() as int, p.value() as int));
    r
}

/// `base^exp` modulo `m(u)` and `p`, by square and multiply from the lowest bit up.
fn pow_ext(base: &Vec<LogResidue>, exp: &LogResidue, p: &LogResidue, modulus: &Vec<LogResidue>) -> (r: Vec<LogResidue>)
    requires
        base@.len() >= 1,
        2 * base@.len() < usize::MAX,
        modulus@.len() >= base@.len(),
        p.value() >= 2,
    ensures
        r@.len() == base@.len(),
        vals(r@) == ext_pow(vals(base@), exp.value(), vals(modulus@), p.value() as int),
        forall|i: int| 0 <= i < r@.len() ==> #[trigger] r@[i].value() < p.value(),
{
    let k = base.len();
    let ghost mv = vals(modulus@);
    let ghost pp = p.value() as int;
    let mut result: Vec<LogResidue> = Vec::with_capacity(k);
    let mut t: usize = 0;
    while t < k
        invariant
            t <= k,
            p.value() >= 2,
            result@.len() == t,
            forall|d: int| 0 <= d < t ==> #[trigger] result@[d].value() == if d == 0 { 1int } else { 0int },
        decreases k - t,
    {
        if t == 0 {
            result.push(LogResidue::from_u64(1));
        } else {
            result.push(LogResidue::zero());
        }
        t = t + 1;
    }
    proof {
        assert(vals(result@) =~= unit_vals(k as nat));
        assert(vals(base@).len() == k);
    }
    let mut b = copy_all(base);
    let mut e = exp.copy();
    let two = LogResidue::from_u64(2);
    while !e.is_zero()
        invariant
            k == base@.len(),
            k >= 1,
            2 * k < usize::MAX,
            modulus@.len() >= k,
            mv == vals(modulus@),
            pp == p.value(),
            p.value() >= 2,
            two.value() == 2,
            result@.len() == k,
            b@.len() == k,
            sq_mul(vals(result@), vals(b@), e.value(), mv, pp) == ext_pow(vals(base@), exp.value(), mv, pp),
            forall|d: int| 0 <= d < k ==> #[trigger] result@[d].value() < pp,
        decreases e.value(),
    {
        let ghost ev = e.value();
        let bit = big_rem(&e, &two);
        if bit.is_one() {
            result = mul_coeffs(&result, &b, p, modulus, k);
        }
        b = mul_coeffs(&b, &b, p, modulus, k);
        e = big_div(&e, &two);
        proof {
            vstd::arithmetic::div_mod::lemma_div_decreases(ev as int, 2);
        }
    }
    result
}

/// Coefficient `i` of `a`, zero outside its range.
pub open spec fn cf(a: Seq<int>, i: int) -> int {
    if 0 <= i < a.len() {
        a[i]
    } else {
        0
    }
}

/// `sum_{lo <= i < hi} cf(a, i) cf(b, d - i)`.
pub open spec fn conv_range(a: Seq<int>, b: Seq<int>, d: int, lo: int, hi: int) -> int
    decreases hi - lo,
{
    if hi <= lo {
        0
    } else {
        conv_range(a, b, d, lo, hi - 1) + cf(a, hi - 1) * cf(b, d - (hi - 1))
    }
}

/// The first `n` terms of `conv` are the range `[0, n)`.
proof fn lemma_conv_is_range(a: Seq<int>, b: Seq<int>, d: int, n: int)
    requires
        0 <= n <= a.len(),
    ensures
        conv(a, b, d, n) == conv_range(a, b, d, 0, n),
    decreases n,
{
    if n > 0 {
        lemma_conv_is_range(a, b, d, n - 1);
    }
}

/// A range sum peeled at its low end.
proof fn lemma_conv_range_low(a: Seq<int>, b: Seq<int>, d: int, lo: int, hi: int)
    requires
        lo < hi,
    ensures
        conv_range(a, b, d, lo, hi) == cf(a, lo) * cf(b, d - lo) + conv_range(a, b, d, lo + 1, hi),
    decreases hi - lo,
{
    let t_lo = cf(a, lo) * cf(b, d - lo);
    let t_hi = cf(a, hi - 1) * cf(b, d - (hi - 1));
    if hi - 1 > lo {
        lemma_conv_range_low(a, b, d, lo, hi - 1);
        assert(conv_range(a, b, d, lo, hi) == conv_range(a, b, d, lo, hi - 1) + t_hi);
        assert(conv_range(a, b, d, lo + 1, hi) == conv_range(a, b, d, lo + 1, hi - 1) + t_hi);
    } else {
        assert(conv_range(a, b, d, lo, hi) == conv_range(a, b, d, lo, lo) + t_lo);
        assert(conv_range(a, b, d, lo + 1, hi) == 0);
    }
}

/// Terms that vanish can be added to or dropped from either end of a range.
proof fn lemma_conv_range_extend(a: Seq<int>, b: Seq<int>, d: int, lo: int, hi: int, lo2: int, hi2: int)
    requires
        lo2 <= lo <= hi <= hi2,
        forall|i: int| lo2 <= i < lo ==> #[trigger] cf(a, i) * cf(b, d - i) == 0,
        forall|i: int| hi <= i < hi2 ==> #[trigger] cf(a, i) * cf(b, d - i) == 0,
    ensures
        conv_range(a, b, d, lo2, hi2) == conv_range(a, b, d, lo, hi),
    decreases hi2 - hi + lo - lo2,
{
    if hi2 > hi {
        lemma_conv_range_extend(a, b, d, lo, hi, lo2, hi2 - 1);
        assert(cf(a, hi2 - 1) * cf(b, d - (hi2 - 1)) == 0);
    } else if lo2 < lo {
        lemma_conv_range_extend(a, b, d, lo, hi, lo2 + 1, hi2);
        lemma_conv_range_low(a, b, d, lo2, hi2);
        assert(cf(a, lo2) * cf(b, d - lo2) == 0);
    }
}

/// Reversing the order of summation swaps the roles of `a` and `b`.
proof fn lemma_conv_range_swap(a: Seq<int>, b: Seq<int>, d: int, lo: int, hi: int)
    ensures
        conv_range(a, b, d, lo, hi) == conv_range(b, a, d, d - hi + 1, d - lo + 1),
    decreases hi - lo,
{
    if hi > lo {
        lemma_conv_range_swap(a, b, d, lo, hi - 1);
        lemma_conv_range_low(b, a, d, d - hi + 1, d - lo + 1);
        assert(d - (d - hi + 1) == hi - 1);
        assert(cf(a, hi - 1) * cf(b, d - (hi - 1)) == cf(b, d - hi + 1) * cf(a, hi - 1)) by (nonlinear_arith);
    }
}

/// Coefficient `d` of the product is the same in either order.
proof fn lemma_conv_comm(a: Seq<int>, b: Seq<int>, d: int)
    requires
        a.len() == b.len(),
    ensures
        conv(a, b, d, a.len() as int) == conv(b, a, d, b.len() as int),
{
    let k = a.len() as int;
    lemma_conv_is_range(a, b, d, k);
    lemma_conv_is_range(b, a, d, k);
    lemma_conv_range_swap(a, b, d, 0, k);
    let lo = d - k + 1;
    let hi = d + 1;
    let (l, h) = (if lo < 0 { 0 } else { lo }, if hi > k { k } else { hi });
    if l <= h {
        assert forall|i: int| (if lo < l { lo } else { l }) <= i < l implies #[trigger] cf(b, i) * cf(a, d - i) == 0 by {}
        assert forall|i: int| h <= i < (if hi > h { hi } else { h }) implies #[trigger] cf(b, i) * cf(a, d - i) == 0 by {}
        assert forall|i: int| (if 0 < l { 0 } else { l }) <= i < l implies #[trigger] cf(b, i) * cf(a, d - i) == 0 by {}
        assert forall|i: int| h <= i < (if k > h { k } else { h }) implies #[trigger] cf(b, i) * cf(a, d - i) == 0 by {}
        lemma_conv_range_extend(b, a, d, l, h, if lo < l { lo } else { l }, if hi > h { hi } else { h });
        lemma_conv_range_extend(b, a, d, l, h, if 0 < l { 0 } else { l }, if k > h { k } else { h });
        if lo > l || hi < h {
            assert(false);
        }
    } else {
        assert forall|i: int| lo <= i < hi implies #[trigger] cf(b, i) * cf(a, d - i) == 0 by {}
        assert forall|i: int| 0 <= i < k implies #[trigger] cf(b, i) * cf(a, d - i) == 0 by {}
        lemma_conv_range_extend(b, a, d, lo, lo, lo, hi);
        lemma_conv_range_extend(b, a, d, 0, 0, 0, k);
    }
}

/// Multiplication in `F_p[u]/(m(u))` is commutative: `mul_mod(a, b) = mul_mod(b, a)` for
/// elements with the same number of coefficients.
pub proof fn lemma_mul_mod_comm(a: Seq<int>, b: Seq<int>, m: Seq<int>, p: int)
    requires
        a.len() == b.len(),
    ensures
        mul_mod(a, b, m, p) == mul_mod(b, a, m, p),
{
    assert forall|d: int| 0 <= d < schoolbook(a, b, p).len() implies #[trigger] schoolbook(a, b, p)[d] == schoolbook(b, a, p)[d] by {
        lemma_conv_comm(a, b, d);
    }
    assert(schoolbook(a, b, p) =~= schoolbook(b, a, p));
}

/// A canonical coefficient list: every coefficient in `[0, p)`.
pub open spec fn canonical(a: Seq<int>, p: int) -> bool {
    forall|i: int| 0 <= i < a.len() ==> 0 <= #[trigger] a[i] < p
}

/// Reduction leaves a canonical list alone when its coefficients from `k` to `d` vanish.
proof fn lemma_reduce_down_zero_top(w: Seq<int>, m: Seq<int>, p: int, k: int, d: int)
    requires
        p > 0,
        k >= 1,
        d < w.len(),
        canonical(w, p),
        forall|t: int| k <= t <= d ==> #[trigger] w[t] == 0,
    ensures
        reduce_down(w, m, p, k, d) == w,
    decreases d - k + 1,
{
    if d >= k {
        assert forall|t: int| 0 <= t < w.len() implies #[trigger] reduce_top(w, m, p, k, d)[t] == w[t] by {
            if d - k <= t < d {
                assert(w[d] * m[t - (d - k)] == 0);
                vstd::arithmetic::div_mod::lemma_small_mod(0nat, p as nat);
                vstd::arithmetic::div_mod::lemma_small_mod(w[t] as nat, p as nat);
            }
        }
        assert(reduce_top(w, m, p, k, d) =~= w);
        lemma_reduce_down_zero_top(w, m, p, k, d - 1);
    }
}

/// The unit is a multiplicative identity on canonical elements: `1 a = a 1 = a`.
pub proof fn lemma_mul_mod_unit(a: Seq<int>, m: Seq<int>, p: int)
    requires
        a.len() >= 1,
        p > 0,
        canonical(a, p),
    ensures
        mul_mod(unit_vals(a.len()), a, m, p) == a,
        mul_mod(a, unit_vals(a.len()), m, p) == a,
{
    let k = a.len() as int;
    let u = unit_vals(a.len());
    let w = schoolbook(u, a, p);
    assert forall|d: int| 0 <= d < w.len() implies #[trigger] w[d] == if d < k { a[d] } else { 0 } by {
        lemma_conv_is_range(u, a, d, k);
        lemma_conv_range_low(u, a, d, 0, k);
        assert forall|i: int| 1 <= i < k implies #[trigger] cf(u, i) * cf(a, d - i) == 0 by {}
        lemma_conv_range_extend(u, a, d, 1, 1, 1, k);
        assert(cf(u, 0) == 1);
        assert(conv(u, a, d, k) == cf(a, d));
        assert(w[d] == conv(u, a, d, k) % p);
        if d < k {
            vstd::arithmetic::div_mod::lemma_small_mod(a[d] as nat, p as nat);
        } else {
            assert(cf(a, d) == 0);
            vstd::arithmetic::div_mod::lemma_small_mod(0nat, p as nat);
        }
    }
    lemma_reduce_down_zero_top(w, m, p, k, 2 * k - 2);
    assert(w.take(k) =~= a);
    lemma_mul_mod_comm(u, a, m, p);
}

/// Reduction keeps coefficients in `[0, p)`.
proof fn lemma_reduce_down_canonical(w: Seq<int>, m: Seq<int>, p: int, k: int, d: int)
    requires
        p > 0,
        canonical(w, p),
    ensures
        canonical(reduce_down(w, m, p, k, d), p),
    decreases d - k + 1,
{
    if d >= k {
        lemma_reduce_down_canonical(reduce_top(w, m, p, k, d), m, p, k, d - 1);
    }
}

/// A product in `F_p[u]/(m(u))` has `k` coefficients, each in `[0, p)`.
pub proof fn lemma_mul_mod_canonical(a: Seq<int>, b: Seq<int>, m: Seq<int>, p: int)
    requires
        p > 0,
        a.len() >= 1,
        b.len() == a.len(),
    ensures
        mul_mod(a, b, m, p).len() == a.len(),
        canonical(mul_mod(a, b, m, p), p),
{
    let k = a.len() as int;
    let w = schoolbook(a, b, p);
    lemma_reduce_len(w, m, p, k, 2 * k - 2);
    lemma_reduce_down_canonical(w, m, p, k, 2 * k - 2);
}

/// The first powers by square and multiply: `a^0 = 1`, `a^1 = a` and `a^2 = a a`.
pub proof fn lemma_ext_pow_small(a: Seq<int>, m: Seq<int>, p: int)
    requires
        a.len() >= 1,
        p > 0,
        canonical(a, p),
    ensures
        ext_pow(a, 0, m, p) == unit_vals(a.len()),
        ext_pow(a, 1, m, p) == a,
        ext_pow(a, 2, m, p) == mul_mod(a, a, m, p),
{
    reveal_with_fuel(sq_mul, 3);
    let u = unit_vals(a.len());
    lemma_mul_mod_unit(a, m, p);
    assert(ext_pow(a, 1, m, p) == sq_mul(mul_mod(u, a, m, p), mul_mod(a, a, m, p), 0, m, p));
    let aa = mul_mod(a, a, m, p);
    lemma_mul_mod_canonical(a, a, m, p);
    lemma_mul_mod_unit(aa, m, p);
    assert(ext_pow(a, 2, m, p) == sq_mul(u, aa, 1, m, p));
    assert(sq_mul(u, aa, 1, m, p) == sq_mul(mul_mod(u, aa, m, p), mul_mod(aa, aa, m, p), 0, m, p));
}

/// Zero is an additive identity on canonical elements: `a + 0 = a`.
pub proof fn lemma_add_zero(a: Seq<int>, p: int)
    requires
        p > 0,
        canonical(a, p),
    ensures
        add_vals(a, Seq::new(a.len(), |i: int| 0int), p) == a,
{
    let z = Seq::new(a.len(), |i: int| 0int);
    let s = add_vals(a, z, p);
    assert forall|i: int| 0 <= i < a.len() implies #[trigger] s[i] == a[i] by {
        vstd::arithmetic::div_mod::lemma_small_mod(a[i] as nat, p as nat);
    }
    assert(s =~= a);
}

/// Addition in `F_p[u]/(m(u))` is commutative.
pub proof fn lemma_add_comm(a: Seq<int>, b: Seq<int>, p: int)
    requires
        a.len() == b.len(),
    ensures
        add_vals(a, b, p) == add_vals(b, a, p),
{
    assert(add_vals(a, b, p) =~= add_vals(b, a, p));
}


/// `(u - v mod p) mod p = (u - v) mod p`.
proof fn lemma_mod_sub_right(u: int, v: int, p: int)
    requires
        p > 0,
    ensures
        (u - v % p) % p == (u - v) % p,
{
    lemma_fundamental_div_mod(v, p);
    lemma_mod_multiples_vanish(v / p, u - v, p);
    assert(p * (v / p) + (u - v) == u - v % p);
}

/// Coefficient `d` of a product is additive in the second factor, modulo `p`.
proof fn lemma_conv_add(a: Seq<int>, b: Seq<int>, c: Seq<int>, d: int, n: int, p: int)
    requires
        p > 0,
        b.len() == c.len(),
    ensures
        conv(a, add_vals(b, c, p), d, n) % p == (conv(a, b, d, n) + conv(a, c, d, n)) % p,
    decreases n,
{
    if n > 0 {
        let bc = add_vals(b, c, p);
        lemma_conv_add(a, b, c, d, n - 1, p);
        let l = conv(a, bc, d, n - 1);
        let lb = conv(a, b, d, n - 1);
        let lc = conv(a, c, d, n - 1);
        let j = d - (n - 1);
        if 0 <= j < b.len() {
            let x = a[n - 1];
            let tb = x * b[j];
            let tc = x * c[j];
            let t = x * bc[j];
            assert(bc[j] == (b[j] + c[j]) % p);
            vstd::arithmetic::div_mod::lemma_mul_mod_noop_right(x, b[j] + c[j], p);
            vstd::arithmetic::mul::lemma_mul_is_distributive_add(x, b[j], c[j]);
            assert(t % p == (tb + tc) % p);
            vstd::arithmetic::div_mod::lemma_add_mod_noop(l, t, p);
            vstd::arithmetic::div_mod::lemma_add_mod_noop(lb + lc, tb + tc, p);
            assert((l + t) % p == ((lb + lc) + (tb + tc)) % p);
            assert(conv(a, bc, d, n) == l + t);
            assert(conv(a, b, d, n) + conv(a, c, d, n) == (lb + lc) + (tb + tc));
        } else {
            assert(conv(a, bc, d, n) == l);
            assert(conv(a, b, d, n) + conv(a, c, d, n) == lb + lc);
        }
    }
}

/// The schoolbook product distributes over coefficient-wise addition modulo `p`.
proof fn lemma_schoolbook_add(a: Seq<int>, b: Seq<int>, c: Seq<int>, p: int)
    requires
        p > 0,
        b.len() == c.len(),
    ensures
        schoolbook(a, add_vals(b, c, p), p) == add_vals(schoolbook(a, b, p), schoolbook(a, c, p), p),
{
    let l = schoolbook(a, add_vals(b, c, p), p);
    let r = add_vals(schoolbook(a, b, p), schoolbook(a, c, p), p);
    assert forall|d: int| 0 <= d < l.len() implies #[trigger] l[d] == r[d] by {
        let n = a.len() as int;
        lemma_conv_add(a, b, c, d, n, p);
        vstd::arithmetic::div_mod::lemma_add_mod_noop(conv(a, b, d, n), conv(a, c, d, n), p);
    }
    assert(l =~= r);
}

/// One reduction step distributes over coefficient-wise addition modulo `p`.
proof fn lemma_reduce_top_add(x: Seq<int>, y: Seq<int>, m: Seq<int>, p: int, k: int, d: int)
    requires
        p > 0,
        x.len() == y.len(),
        0 <= d < x.len(),
    ensures
        reduce_top(add_vals(x, y, p), m, p, k, d) == add_vals(reduce_top(x, m, p, k, d), reduce_top(y, m, p, k, d), p),
{
    let s = add_vals(x, y, p);
    let l = reduce_top(s, m, p, k, d);
    let rx = reduce_top(x, m, p, k, d);
    let ry = reduce_top(y, m, p, k, d);
    let r = add_vals(rx, ry, p);
    assert forall|t: int| 0 <= t < l.len() implies #[trigger] l[t] == r[t] by {
        if t == d {
            assert(l[t] == 0);
            assert(rx[t] == 0 && ry[t] == 0);
            assert(r[t] == (0int + 0int) % p);
            vstd::arithmetic::div_mod::lemma_small_mod(0nat, p as nat);
            assert(l[t] == r[t]);
        } else if d - k <= t < d {
            let mj = m[t - (d - k)];
            let xs = x[t] - (x[d] * mj) % p;
            let ys = y[t] - (y[d] * mj) % p;
            let full = (x[t] + y[t]) - (x[d] * mj + y[d] * mj);
            assert(s[d] == (x[d] + y[d]) % p);
            vstd::arithmetic::div_mod::lemma_mul_mod_noop_left(x[d] + y[d], mj, p);
            vstd::arithmetic::mul::lemma_mul_is_distributive_add_other_way(mj, x[d], y[d]);
            lemma_mod_sub_right(s[t], (x[d] + y[d]) * mj, p);
            lemma_mod_add_left(x[t] + y[t], -((x[d] + y[d]) * mj), p);
            assert(l[t] == (s[t] - ((s[d] * mj) % p)) % p);
            assert(l[t] == full % p);
            lemma_mod_sub_right(x[t], x[d] * mj, p);
            lemma_mod_sub_right(y[t], y[d] * mj, p);
            vstd::arithmetic::div_mod::lemma_add_mod_noop(xs, ys, p);
            vstd::arithmetic::div_mod::lemma_add_mod_noop(x[t] - x[d] * mj, y[t] - y[d] * mj, p);
            assert(r[t] == (xs % p + ys % p) % p);
            assert(r[t] == full % p);
            assert(l[t] == r[t]);
        } else {
            assert(l[t] == s[t]);
            assert(rx[t] == x[t] && ry[t] == y[t]);
            assert(l[t] == r[t]);
        }
    }
    assert(l =~= r);
}

/// The reduction of degrees `d` down to `k` distributes over coefficient-wise addition.
proof fn lemma_reduce_down_add(x: Seq<int>, y: Seq<int>, m: Seq<int>, p: int, k: int, d: int)
    requires
        p > 0,
        k >= 0,
        x.len() == y.len(),
        d < x.len(),
    ensures
        reduce_down(add_vals(x, y, p), m, p, k, d) == add_vals(reduce_down(x, m, p, k, d), reduce_down(y, m, p, k, d), p),
    decreases d - k + 1,
{
    if d >= k {
        lemma_reduce_top_add(x, y, m, p, k, d);
        lemma_reduce_down_add(reduce_top(x, m, p, k, d), reduce_top(y, m, p, k, d), m, p, k, d - 1);
    }
}

/// Multiplication in `F_p[u]/(m(u))` distributes over addition: `a (b + c) = a b + a c`.
pub proof fn lemma_mul_mod_distributes(a: Seq<int>, b: Seq<int>, c: Seq<int>, m: Seq<int>, p: int)
    requires
        p > 0,
        a.len() >= 1,
        b.len() == a.len(),
        c.len() == a.len(),
    ensures
        mul_mod(a, add_vals(b, c, p), m, p) == add_vals(mul_mod(a, b, m, p), mul_mod(a, c, m, p), p),
{
    let k = a.len() as int;
    lemma_schoolbook_add(a, b, c, p);
    lemma_reduce_down_add(schoolbook(a, b, p), schoolbook(a, c, p), m, p, k, 2 * k - 2);
    let rb = reduce_down(schoolbook(a, b, p), m, p, k, 2 * k - 2);
    let rc = reduce_down(schoolbook(a, c, p), m, p, k, 2 * k - 2);
    lemma_reduce_len(schoolbook(a, b, p), m, p, k, 2 * k - 2);
    lemma_reduce_len(schoolbook(a, c, p), m, p, k, 2 * k - 2);
    assert(add_vals(rb, rc, p).take(k) =~= add_vals(rb.take(k), rc.take(k), p));
}

/// Reduction keeps the length.
proof fn lemma_reduce_len(w: Seq<int>, m: Seq<int>, p: int, k: int, d: int)
    ensures
        reduce_down(w, m, p, k, d).len() == w.len(),
    decreases d - k + 1,
{
    if d >= k {
        lemma_reduce_len(reduce_top(w, m, p, k, d), m, p, k, d - 1);
    }
}

} // verus!
