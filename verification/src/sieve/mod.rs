//! Sieve-side types and helpers: the special-q lattice, line-sieve arithmetic, the factor
//! base index and sparse exponent vectors.

pub mod factor_base;
pub mod lattice;
pub mod line;
pub mod norms;
pub mod region;
pub mod special_q;

pub use factor_base::{AlgebraicPrime, FactorBase};
pub use norms::NormBridgeError;

use num_bigint::BigInt;
use vstd::prelude::*;

verus! {

/// An arbitrary-precision signed integer of `num_bigint`, carried through unchanged.
#[verifier::external_type_specification]
#[verifier::external_body]
pub struct ExBigInt(BigInt);

/// `BigInt::clone` (num-bigint): copies the sign and the magnitude's digits, so the copy is
/// the same value.
pub assume_specification[<BigInt as Clone>::clone](x: &BigInt) -> (r: BigInt)
    ensures
        r == *x,
;

/// A relation: a coprime pair `(a, b)` whose rational and algebraic norms are smooth, with
/// the exponents of both sides and the sign of the rational norm.
#[derive(Debug, Clone, PartialEq, Eq)]
pub struct Relation {
    /// The `a` coordinate.
    pub a: BigInt,
    /// The `b` coordinate (positive).
    pub b: BigInt,
    /// Exponents over the rational factor base.
    pub rational_exponents: ExponentVector,
    /// Exponents over the algebraic factor base.
    pub algebraic_exponents: ExponentVector,
    /// True when the rational norm `a - b m` is negative.
    pub rational_sign: bool,
}

/// Sparse exponents of one side of a relation: `(factor-base index, exponent)` pairs,
/// ascending by index, zero exponents left out.
#[derive(Debug, Clone, PartialEq, Eq)]
pub struct ExponentVector {
    /// The `(index, exponent)` pairs, ascending by index.
    pub entries: Vec<(usize, u32)>,
}

/// The indices of `entries` are strictly increasing.
pub open spec fn indices_ascending(entries: Seq<(usize, u32)>) -> bool {
    forall|i: int, j: int| 0 <= i < j < entries.len() ==> entries[i].0 < entries[j].0
}

/// The exponent stored at `index`, or 0 when no entry has that index.
pub open spec fn exponent_at(entries: Seq<(usize, u32)>, index: usize) -> u32 {
    if exists|k: int| 0 <= k < entries.len() && #[trigger] entries[k].0 == index {
        entries[choose|k: int| 0 <= k < entries.len() && #[trigger] entries[k].0 == index].1
    } else {
        0
    }
}

impl ExponentVector {
    /// A copy with the same entries.
    pub fn duplicate(&self) -> (r: Self)
        ensures
            r.entries@ == self.entries@,
    {
        let mut entries: Vec<(usize, u32)> = Vec::with_capacity(self.entries.len());
        let mut i: usize = 0;
        while i < self.entries.len()
            invariant
                i <= self.entries@.len(),
                entries@ == self.entries@.take(i as int),
            decreases self.entries@.len() - i,
        {
            entries.push(self.entries[i]);
            i = i + 1;
            assert(entries@ =~= self.entries@.take(i as int));
        }
        assert(entries@ =~= self.entries@);
        ExponentVector { entries }
    }

    /// The empty exponent vector.
    pub fn new() -> (r: Self)
        ensures
            r.entries@ == Seq::<(usize, u32)>::empty(),
    {
        ExponentVector { entries: Vec::new() }
    }

    /// The exponent at factor-base column `index` (0 when absent), by binary search on the
    /// indices.
    pub fn get(&self, index: usize) -> (e: u32)
        ensures
            e == 0 || exists|k: int| 0 <= k < self.entries@.len() && #[trigger] self.entries@[k] == (index, e),
            indices_ascending(self.entries@) ==> e == exponent_at(self.entries@, index),
    {
        let s = &self.entries;
        let mut lo: usize = 0;
        let mut hi: usize = s.len();
        while lo < hi
            invariant
                s@ == self.entries@,
                lo <= hi <= s@.len(),
                indices_ascending(s@) ==> forall|k: int| 0 <= k < lo ==> #[trigger] s@[k].0 < index,
                indices_ascending(s@) ==> forall|k: int| hi <= k < s@.len() ==> #[trigger] s@[k].0 > index,
            decreases hi - lo,
        {
            let mid = lo + (hi - lo) / 2;
            let (idx, exp) = s[mid];
            if idx == index {
                proof {
                    assert(s@[mid as int] == (index, exp));
                    if indices_ascending(s@) {
                        assert(exists|k: int| 0 <= k < s@.len() && #[trigger] s@[k].0 == index) by {
                            assert(s@[mid as int].0 == index);
                        }
                        let c = choose|k: int| 0 <= k < s@.len() && #[trigger] s@[k].0 == index;
                        assert(c == mid) by {
                            if c < mid {
                                assert(s@[c].0 < s@[mid as int].0);
                            } else if c > mid {
                                assert(s@[mid as int].0 < s@[c].0);
                            }
                        }
                    }
                }
                return exp;
            } else if idx < index {
                lo = mid + 1;
            } else {
                hi = mid;
            }
        }
        proof {
            if indices_ascending(s@) {
                assert forall|k: int| 0 <= k < s@.len() implies #[trigger] s@[k].0 != index by {
                    assert(s@[k].0 < index || s@[k].0 > index);
                }
            }
        }
        0
    }

    /// The `(index, exponent)` pairs, in order.
    pub fn iter(&self) -> (r: Vec<(usize, u32)>)
        ensures
            r@ == self.entries@,
    {
        let mut r: Vec<(usize, u32)> = Vec::with_capacity(self.entries.len());
        let mut i: usize = 0;
        while i < self.entries.len()
            invariant
                i <= self.entries@.len(),
                r@ == self.entries@.take(i as int),
            decreases self.entries@.len() - i,
        {
            r.push(self.entries[i]);
            i = i + 1;
            assert(r@ =~= self.entries@.take(i as int));
        }
        assert(self.entries@.take(i as int) =~= self.entries@);
        r
    }

    /// Number of stored (nonzero) entries.
    pub fn len(&self) -> (n: usize)
        ensures
            n == self.entries@.len(),
    {
        self.entries.len()
    }

    /// True when no exponent is stored.
    pub fn is_empty(&self) -> (b: bool)
        ensures
            b == (self.entries@.len() == 0),
    {
        self.entries.len() == 0
    }
}

impl Default for ExponentVector {
    fn default() -> (r: Self)
        ensures
            r.entries@ == Seq::<(usize, u32)>::empty(),
    {
        ExponentVector::new()
    }
}

/// Parity of the exponent recorded for column `c`: that of the last entry with index `c`,
/// false when none has it.
pub open spec fn parity_at(entries: Seq<(usize, u32)>, c: usize) -> bool
    decreases entries.len(),
{
    if entries.len() == 0 {
        false
    } else if entries.last().0 == c {
        entries.last().1 % 2 == 1
    } else {
        parity_at(entries.drop_last(), c)
    }
}

/// `n` copies of `false`.
fn falses(n: usize) -> (r: Vec<bool>)
    ensures
        r@ == Seq::new(n as nat, |i: int| false),
{
    let mut r: Vec<bool> = Vec::with_capacity(n);
    let mut i: usize = 0;
    while i < n
        invariant
            i <= n,
            r@ == Seq::new(i as nat, |k: int| false),
        decreases n - i,
    {
        r.push(false);
        i = i + 1;
    }
    r
}

impl Relation {
    /// The relation as values: its coordinates, its exponents and its sign.
    pub open spec fn same_as(&self, other: Relation) -> bool {
        &&& self.a == other.a
        &&& self.b == other.b
        &&& self.rational_exponents.entries@ == other.rational_exponents.entries@
        &&& self.algebraic_exponents.entries@ == other.algebraic_exponents.entries@
        &&& self.rational_sign == other.rational_sign
    }

    /// A copy holding the same values.
    pub fn duplicate(&self) -> (r: Self)
        ensures
            r.same_as(*self),
    {
        Relation {
            a: self.a.clone(),
            b: self.b.clone(),
            rational_exponents: self.rational_exponents.duplicate(),
            algebraic_exponents: self.algebraic_exponents.duplicate(),
            rational_sign: self.rational_sign,
        }
    }

    /// The rational GF(2) row: the sign of the rational norm at position 0, then the parity
    /// of the exponent of each rational prime.
    pub fn rational_row_gf2(&self, fb: &FactorBase) -> (row: Vec<bool>)
        requires
            fb.rational_primes@.len() < usize::MAX,
            forall|k: int|
                0 <= k < self.rational_exponents.entries@.len() ==> (#[trigger] self.rational_exponents.entries@[k]).0
                    < fb.rational_primes@.len(),
        ensures
            row@.len() == fb.rational_primes@.len() + 1,
            row@[0] == self.rational_sign,
            forall|c: int|
                0 <= c < fb.rational_primes@.len() ==> #[trigger] row@[c + 1] == parity_at(
                    self.rational_exponents.entries@,
                    c as usize,
                ),
    {
        let n = fb.rational_size();
        let mut row = falses(1 + n);
        row.set(0, self.rational_sign);
        let entries = &self.rational_exponents.entries;
        let mut k: usize = 0;
        while k < entries.len()
            invariant
                *entries == self.rational_exponents.entries,
                n == fb.rational_primes@.len(),
                k <= entries@.len(),
                row@.len() == n + 1,
                row@[0] == self.rational_sign,
                forall|j: int| 0 <= j < entries@.len() ==> (#[trigger] entries@[j]).0 < n,
                forall|c: int| 0 <= c < n ==> #[trigger] row@[c + 1] == parity_at(entries@.take(k as int), c as usize),
            decreases entries@.len() - k,
        {
            let (idx, exp) = entries[k];
            proof {
                assert(entries@.take(k + 1).drop_last() =~= entries@.take(k as int));
            }
            row.set(1 + idx, exp % 2 == 1);
            k = k + 1;
        }
        proof {
            assert(entries@.take(entries@.len() as int) =~= entries@);
        }
        row
    }

    /// The algebraic GF(2) row: the parity of the exponent of each algebraic ideal, then the
    /// obstruction columns as zeros; entries outside the algebraic factor base are skipped.
    pub fn algebraic_row_gf2(&self, fb: &FactorBase) -> (row: Vec<bool>)
        requires
            fb.algebraic_ideals@.len() + fb.obstruction_count <= usize::MAX,
        ensures
            row@.len() == fb.algebraic_ideals@.len() + fb.obstruction_count,
            forall|c: int|
                0 <= c < row@.len() ==> #[trigger] row@[c] == (c < fb.algebraic_ideals@.len()
                    && parity_at(self.algebraic_exponents.entries@, c as usize)),
    {
        let n = fb.algebraic_size();
        let mut row = falses(n + fb.obstruction_count);
        let entries = &self.algebraic_exponents.entries;
        let mut k: usize = 0;
        while k < entries.len()
            invariant
                *entries == self.algebraic_exponents.entries,
                n == fb.algebraic_ideals@.len(),
                k <= entries@.len(),
                row@.len() == n + fb.obstruction_count,
                forall|c: int|
                    0 <= c < row@.len() ==> #[trigger] row@[c] == (c < n && parity_at(entries@.take(k as int), c as usize)),
            decreases entries@.len() - k,
        {
            let (idx, exp) = entries[k];
            proof {
                assert(entries@.take(k + 1).drop_last() =~= entries@.take(k as int));
            }
            if idx < n {
                row.set(idx, exp % 2 == 1);
            }
            k = k + 1;
        }
        proof {
            assert(entries@.take(entries@.len() as int) =~= entries@);
        }
        row
    }
}

} // verus!
