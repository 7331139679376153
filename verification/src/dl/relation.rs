//! The discrete-log relation matrix: relation rows with their Schirokauer columns, and the
//! column counts of the factor base they are read against.

use vstd::prelude::*;
use crate::dl::DLRelation;
use crate::sieve::factor_base::FactorBase;

verus! {

/// The assembled discrete-log relation matrix: rational exponent columns, algebraic exponent
/// columns, then one Schirokauer column per ideal of the Schirokauer set.
#[derive(Debug, Clone)]
pub struct DLMatrix {
    /// The relation rows.
    pub relations: Vec<DLRelation>,
    /// Number of rational exponent columns.
    pub rational_size: usize,
    /// Number of algebraic exponent columns.
    pub algebraic_size: usize,
    /// Number of Schirokauer columns.
    pub schirokauer_rank: usize,
}

/// Every relation of `rels` carries `rank` Schirokauer columns.
pub open spec fn uniform_rank(rels: Seq<DLRelation>, rank: nat) -> bool {
    forall|i: int| 0 <= i < rels.len() ==> (#[trigger] rels[i]).schirokauer_cols@.len() == rank
}

impl DLMatrix {
    /// Assemble the matrix from relations that all carry as many Schirokauer columns as the
    /// first one; the sizes come from the factor base, the rank from the first relation (zero
    /// without relations).
    pub fn from_relations(relations: Vec<DLRelation>, fb: &FactorBase) -> (r: Self)
        requires
            relations@.len() > 0 ==> uniform_rank(relations@, relations@[0].schirokauer_cols@.len()),
        ensures
            r.relations@ == relations@,
            r.rational_size == fb.rational_primes@.len(),
            r.algebraic_size == fb.algebraic_ideals@.len(),
            r.schirokauer_rank == if relations@.len() == 0 {
                0nat
            } else {
                relations@[0].schirokauer_cols@.len()
            },
            uniform_rank(r.relations@, r.schirokauer_rank as nat),
    {
        let schirokauer_rank = if relations.len() == 0 {
            0
        } else {
            relations[0].schirokauer_rank()
        };
        DLMatrix {
            relations,
            rational_size: fb.rational_size(),
            algebraic_size: fb.algebraic_size(),
            schirokauer_rank,
        }
    }

    /// Number of rows.
    pub fn num_rows(&self) -> (n: usize)
        ensures
            n == self.relations@.len(),
    {
        self.relations.len()
    }

    /// Number of columns: rational, algebraic and Schirokauer columns.
    pub fn num_cols(&self) -> (n: usize)
        requires
            self.rational_size + self.algebraic_size + self.schirokauer_rank <= usize::MAX,
        ensures
            n == self.rational_size + self.algebraic_size + self.schirokauer_rank,
    {
        self.rational_size + self.algebraic_size + self.schirokauer_rank
    }

    /// `(rows, columns)`.
    pub fn dimensions(&self) -> (d: (usize, usize))
        requires
            self.rational_size + self.algebraic_size + self.schirokauer_rank <= usize::MAX,
        ensures
            d.0 == self.relations@.len(),
            d.1 == self.rational_size + self.algebraic_size + self.schirokauer_rank,
    {
        (self.num_rows(), self.num_cols())
    }
}

} // verus!
