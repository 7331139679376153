//! Extension relations: a discrete-log relation together with the exponent of the degree-`k`
//! prime ideal, which is stored as one more algebraic exponent entry.

use num_bigint::BigInt;
use vstd::prelude::*;
use crate::dl::DLRelation;
use crate::sieve::Relation;

verus! {

/// A discrete-log relation over the extension factor base, with the exponent of the
/// degree-`k` prime ideal.
#[derive(Debug, Clone)]
pub struct ExtDLRelation {
    /// The relation, the degree-`k` ideal's entry included, with its Schirokauer columns.
    pub base: DLRelation,
    /// The exponent of the degree-`k` ideal (zero when it does not divide).
    pub ext_prime_exp: u32,
}

impl ExtDLRelation {
    /// Pair a relation with the exponent of the degree-`k` ideal.
    pub fn new(base: DLRelation, ext_prime_exp: u32) -> (r: Self)
        ensures
            r.base == base,
            r.ext_prime_exp == ext_prime_exp,
    {
        ExtDLRelation { base, ext_prime_exp }
    }

    /// Number of Schirokauer columns.
    pub fn schirokauer_rank(&self) -> (n: usize)
        ensures
            n == self.base.schirokauer_cols@.len(),
    {
        self.base.schirokauer_rank()
    }
}

/// Where an entry for column `col` goes: the first position whose index is at least `col`.
pub open spec fn insertion_point(entries: Seq<(usize, u32)>, col: usize, p: int) -> bool {
    &&& 0 <= p <= entries.len()
    &&& forall|t: int| 0 <= t < p ==> (#[trigger] entries[t]).0 < col
    &&& p < entries.len() ==> entries[p].0 >= col
}

/// The extension relation of `relation`, once its Schirokauer columns are known: when
/// `ext_prime_exp` is positive, the entry `(ext_prime_col_idx, ext_prime_exp)` is inserted
/// into the algebraic exponents before the first entry whose index is not below it.
pub fn with_ext_prime(relation: Relation, schirokauer_cols: Vec<BigInt>, ext_prime_col_idx: usize, ext_prime_exp: u32) -> (r: ExtDLRelation)
    ensures
        r.ext_prime_exp == ext_prime_exp,
        r.base.schirokauer_cols@ == schirokauer_cols@,
        r.base.relation.a == relation.a,
        r.base.relation.b == relation.b,
        r.base.relation.rational_sign == relation.rational_sign,
        r.base.relation.rational_exponents == relation.rational_exponents,
        ext_prime_exp == 0 ==> r.base.relation.algebraic_exponents == relation.algebraic_exponents,
        ext_prime_exp > 0 ==> exists|p: int|
            insertion_point(relation.algebraic_exponents.entries@, ext_prime_col_idx, p)
                && r.base.relation.algebraic_exponents.entries@ == relation.algebraic_exponents.entries@.insert(
                p,
                (ext_prime_col_idx, ext_prime_exp),
            ),
{
    let mut augmented = relation;
    if ext_prime_exp > 0 {
        let ghost e = augmented.algebraic_exponents.entries@;
        let mut pos: usize = 0;
        while pos < augmented.algebraic_exponents.entries.len() && augmented.algebraic_exponents.entries[pos].0 < ext_prime_col_idx
            invariant
                augmented.algebraic_exponents.entries@ == e,
                pos <= e.len(),
                forall|t: int| 0 <= t < pos ==> (#[trigger] e[t]).0 < ext_prime_col_idx,
            decreases e.len() - pos,
        {
            pos = pos + 1;
        }
        augmented.algebraic_exponents.entries.insert(pos, (ext_prime_col_idx, ext_prime_exp));
        assert(insertion_point(e, ext_prime_col_idx, pos as int));
    }
    let base = DLRelation::new(augmented, schirokauer_cols);
    ExtDLRelation::new(base, ext_prime_exp)
}

} // verus!
