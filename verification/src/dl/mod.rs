//! Discrete-logarithm side: relations with Schirokauer columns, the descent tree and its
//! frontier, the virtual-log table and the error taxonomy of the descent.

pub mod descent;
pub mod ext;
pub mod linalg;
pub mod relation;
pub mod residue;
pub mod text;

pub use descent::{DescentFrontier, DescentNode, DescentStepError, DescentTarget, InitSmoothingError, SolveDlError};
pub use relation::DLMatrix;
pub use linalg::{FlMatrixOperator, FlSolution, FlSparseMatrix, FlSparseRow, VirtualLogTable, recover_virtual_logs};

use num_bigint::BigInt;
use vstd::prelude::*;
use crate::sieve::Relation;

verus! {

/// A factoring relation with its Schirokauer virtual-log columns, one per ideal of the
/// Schirokauer set.
#[derive(Debug, Clone)]
pub struct DLRelation {
    /// The factoring relation.
    pub relation: Relation,
    /// The Schirokauer columns.
    pub schirokauer_cols: Vec<BigInt>,
}

impl DLRelation {
    /// Pair a relation with its Schirokauer columns.
    pub fn new(relation: Relation, schirokauer_cols: Vec<BigInt>) -> (r: Self)
        ensures
            r.relation == relation,
            r.schirokauer_cols@ == schirokauer_cols@,
    {
        DLRelation { relation, schirokauer_cols }
    }

    /// Number of Schirokauer columns.
    pub fn schirokauer_rank(&self) -> (n: usize)
        ensures
            n == self.schirokauer_cols@.len(),
    {
        self.schirokauer_cols.len()
    }
}

} // verus!
