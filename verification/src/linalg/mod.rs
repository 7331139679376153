//! Linear algebra over GF(2): bit-packed block vectors, the sparse matrix as an operator,
//! kernel vectors and the block Lanczos / Wiedemann nullspace solvers.

pub mod bits;
pub mod blockvec;
pub mod kernel;
pub mod krylov;
pub mod lanczos;
pub mod lcg;
pub mod massey;
pub mod operator;
pub mod qc;
pub mod wiedemann;

pub use blockvec::{BlockVec, BLOCK_WIDTH};
