//! Linear algebra over F_ell: sparse matrices, the operator view and the virtual-log table.

pub mod blockvec_fl;

pub use blockvec_fl::{FL_BLOCK_WIDTH, FlMatrixOperator, FlSolution, FlSparseMatrix, FlSparseRow, VirtualLogTable, recover_virtual_logs};
