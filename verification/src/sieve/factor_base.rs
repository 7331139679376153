//! The two-sided factor base: rational primes and the degree-1 algebraic prime ideals
//! `(p, r)`, with their column indices.

use vstd::prelude::*;

verus! {

/// A degree-1 prime ideal `(p, alpha - r)` of the algebraic factor base.
#[derive(Debug, Clone, PartialEq, Eq)]
pub struct AlgebraicPrime {
    /// The rational prime `p`.
    pub p: u64,
    /// The root `r` of `f mod p`.
    pub r: u64,
    /// Column index of the ideal in the algebraic factor base.
    pub index: usize,
    /// True when `p` divides the discriminant of `f`.
    pub is_bad_prime: bool,
}

/// Rational primes and algebraic ideals with their smoothness bounds and the number of
/// obstruction columns reserved after them.
#[derive(Debug, Clone)]
pub struct FactorBase {
    /// Rational primes, ascending.
    pub rational_primes: Vec<u64>,
    /// Algebraic ideals, ascending by `(p, r)`.
    pub algebraic_ideals: Vec<AlgebraicPrime>,
    /// Rational smoothness bound.
    pub b_rat: u64,
    /// Algebraic smoothness bound.
    pub b_alg: u64,
    /// Number of obstruction columns (sign and quadratic characters).
    pub obstruction_count: usize,
}

/// `s` is strictly increasing.
pub open spec fn ascending(s: Seq<u64>) -> bool {
    forall|i: int, j: int| 0 <= i < j < s.len() ==> s[i] < s[j]
}

/// `(p1, r1) < (p2, r2)` lexicographically.
pub open spec fn key_less(p1: u64, r1: u64, p2: u64, r2: u64) -> bool {
    p1 < p2 || (p1 == p2 && r1 < r2)
}

/// The ideals are strictly increasing by `(p, r)`.
pub open spec fn ideals_ascending(s: Seq<AlgebraicPrime>) -> bool {
    forall|i: int, j: int| 0 <= i < j < s.len() ==> key_less(s[i].p, s[i].r, s[j].p, s[j].r)
}

impl FactorBase {
    /// Number of rational primes.
    pub fn rational_size(&self) -> (n: usize)
        ensures
            n == self.rational_primes@.len(),
    {
        self.rational_primes.len()
    }

    /// Number of algebraic ideals.
    pub fn algebraic_size(&self) -> (n: usize)
        ensures
            n == self.algebraic_ideals@.len(),
    {
        self.algebraic_ideals.len()
    }

    /// Matrix width: rational primes, algebraic ideals and obstruction columns.
    pub fn matrix_width(&self) -> (n: usize)
        requires
            self.rational_primes@.len() + self.algebraic_ideals@.len() + self.obstruction_count <= usize::MAX,
        ensures
            n == self.rational_primes@.len() + self.algebraic_ideals@.len() + self.obstruction_count,
    {
        self.rational_size() + self.algebraic_size() + self.obstruction_count
    }

    /// Column of the rational prime `p`, by binary search: a position holding `p`; `None`
    /// when the search finds none, which for ascending primes means `p` is absent.
    pub fn rational_index(&self, p: u64) -> (r: Option<usize>)
        ensures
            r matches Some(i) ==> i < self.rational_primes@.len() && self.rational_primes@[i as int] == p,
            ascending(self.rational_primes@) ==> (r is None <==> !self.rational_primes@.contains(p)),
    {
        let s = &self.rational_primes;
        let mut lo: usize = 0;
        let mut hi: usize = s.len();
        while lo < hi
            invariant
                s@ == self.rational_primes@,
                lo <= hi <= s@.len(),
                ascending(s@) ==> forall|k: int| 0 <= k < lo ==> #[trigger] s@[k] < p,
                ascending(s@) ==> forall|k: int| hi <= k < s@.len() ==> #[trigger] s@[k] > p,
            decreases hi - lo,
        {
            let mid = lo + (hi - lo) / 2;
            let v = s[mid];
            if v == p {
                assert(s@[mid as int] == p);
                return Some(mid);
            } else if v < p {
                lo = mid + 1;
            } else {
                hi = mid;
            }
        }
        proof {
            if ascending(s@) {
                assert forall|k: int| 0 <= k < s@.len() implies s@[k] != p by {
                    assert(s@[k] < p || s@[k] > p);
                }
            }
        }
        None
    }

    /// Column of the algebraic ideal `(p, r)`, by binary search on `(p, r)`: the index stored
    /// with an ideal `(p, r)`; `None` when the search finds none, which for ascending ideals
    /// means `(p, r)` is absent.
    pub fn algebraic_index(&self, p: u64, r: u64) -> (res: Option<usize>)
        ensures
            res matches Some(x) ==> exists|i: int|
                0 <= i < self.algebraic_ideals@.len() && #[trigger] self.algebraic_ideals@[i].p == p
                    && self.algebraic_ideals@[i].r == r && self.algebraic_ideals@[i].index == x,
            ideals_ascending(self.algebraic_ideals@) ==> (res is None <==> forall|i: int|
                0 <= i < self.algebraic_ideals@.len() ==> !(#[trigger] self.algebraic_ideals@[i].p == p
                    && self.algebraic_ideals@[i].r == r)),
    {
        let s = &self.algebraic_ideals;
        let mut lo: usize = 0;
        let mut hi: usize = s.len();
        while lo < hi
            invariant
                s@ == self.algebraic_ideals@,
                lo <= hi <= s@.len(),
                ideals_ascending(s@) ==> forall|k: int| 0 <= k < lo ==> key_less(#[trigger] s@[k].p, s@[k].r, p, r),
                ideals_ascending(s@) ==> forall|k: int| hi <= k < s@.len() ==> key_less(p, r, #[trigger] s@[k].p, s@[k].r),
            decreases hi - lo,
        {
            let mid = lo + (hi - lo) / 2;
            let ap = &s[mid];
            if ap.p == p && ap.r == r {
                assert(s@[mid as int].p == p && s@[mid as int].r == r && s@[mid as int].index == ap.index);
                proof {
                    if ideals_ascending(s@) {
                        assert(!(forall|i: int| 0 <= i < s@.len() ==> !(#[trigger] s@[i].p == p && s@[i].r == r)));
                    }
                }
                return Some(ap.index);
            } else if ap.p < p || (ap.p == p && ap.r < r) {
                proof {
                    if ideals_ascending(s@) {
                        assert forall|k: int| 0 <= k < mid + 1 implies key_less(#[trigger] s@[k].p, s@[k].r, p, r) by {
                            if k < mid {
                                assert(key_less(s@[k].p, s@[k].r, s@[mid as int].p, s@[mid as int].r));
                            }
                        }
                    }
                }
                lo = mid + 1;
            } else {
                proof {
                    if ideals_ascending(s@) {
                        assert forall|k: int| mid <= k < s@.len() implies key_less(p, r, #[trigger] s@[k].p, s@[k].r) by {
                            if k > mid {
                                assert(key_less(s@[mid as int].p, s@[mid as int].r, s@[k].p, s@[k].r));
                            }
                        }
                    }
                }
                hi = mid;
            }
        }
        None
    }
}

} // verus!
