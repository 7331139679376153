//! The extension factor base: the degree-one factor base plus the degree-`k` prime ideal,
//! which takes the column right after the algebraic ideals.

use vstd::prelude::*;
use crate::dl::ext::target::ExtResidueMap;
use crate::dl::residue::LogResidue;
use crate::dl::relation::{uniform_rank, DLMatrix};
use crate::dl::DLRelation;
use crate::sieve::factor_base::FactorBase;

verus! {

/// The degree-one factor base together with the degree-`k` prime ideal.
#[derive(Debug)]
pub struct ExtFactorBase {
    /// The degree-one rational primes and algebraic ideals.
    pub base: FactorBase,
    /// The degree-`k` prime ideal.
    pub residue_map: ExtResidueMap,
}

impl ExtFactorBase {
    /// Pair a factor base with the degree-`k` prime ideal.
    pub fn new(base: FactorBase, residue_map: ExtResidueMap) -> (r: Self)
        ensures
            r.base == base,
            r.residue_map == residue_map,
    {
        ExtFactorBase { base, residue_map }
    }

    /// The prime `p` of the degree-`k` ideal.
    pub fn p(&self) -> (r: &LogResidue)
        ensures
            *r == self.residue_map.p,
    {
        &self.residue_map.p
    }

    /// The residue degree `k`.
    pub fn k(&self) -> (r: usize)
        ensures
            r == self.residue_map.k,
    {
        self.residue_map.k
    }

    /// The column of the degree-`k` ideal: right after the rational and algebraic columns.
    pub fn ext_prime_col(&self) -> (c: usize)
        requires
            self.base.rational_primes@.len() + self.base.algebraic_ideals@.len() <= usize::MAX,
        ensures
            c == self.base.rational_primes@.len() + self.base.algebraic_ideals@.len(),
    {
        self.base.rational_size() + self.base.algebraic_size()
    }

    /// The algebraic column count of the extended matrix: the algebraic ideals and the
    /// degree-`k` ideal.
    pub fn ext_matrix_algebraic_size(&self) -> (n: usize)
        requires
            self.base.algebraic_ideals@.len() < usize::MAX,
        ensures
            n == self.base.algebraic_ideals@.len() + 1,
    {
        self.base.algebraic_size() + 1
    }

    /// The discrete-log matrix of extension relations: the degree-`k` ideal counts as one more
    /// algebraic column; the Schirokauer rank is that of the first relation (zero without
    /// relations), which all relations must share.
    pub fn build_dl_matrix(&self, relations: Vec<DLRelation>) -> (r: DLMatrix)
        requires
            self.base.algebraic_ideals@.len() < usize::MAX,
            relations@.len() > 0 ==> uniform_rank(relations@, relations@[0].schirokauer_cols@.len()),
        ensures
            r.relations@ == relations@,
            r.rational_size == self.base.rational_primes@.len(),
            r.algebraic_size == self.base.algebraic_ideals@.len() + 1,
            r.schirokauer_rank == if relations@.len() == 0 {
                0nat
            } else {
                relations@[0].schirokauer_cols@.len()
            },
            uniform_rank(r.relations@, r.schirokauer_rank as nat),
    {
        let schirokauer_rank = if relations.len() == 0 {
            0
        } else {
            relations[0].schirokauer_rank()
        };
        DLMatrix {
            relations,
            rational_size: self.base.rational_size(),
            algebraic_size: self.ext_matrix_algebraic_size(),
            schirokauer_rank,
        }
    }
}

} // verus!
