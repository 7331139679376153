//! Sparse F_ell matrices, their operator view, solver solutions and the virtual-log table
//! read off a solution.

use vstd::prelude::*;

verus! {

/// Number of F_ell vectors carried side by side in a block.
pub const FL_BLOCK_WIDTH: usize = 32;

/// A sparse row over F_ell: `(column, value)` pairs, ascending by column.
#[derive(Debug, Clone)]
pub struct FlSparseRow<F> {
    /// The `(column, value)` pairs.
    pub entries: Vec<(usize, F)>,
}

/// A sparse matrix over F_ell, row by row.
#[derive(Debug, Clone)]
pub struct FlSparseMatrix<F> {
    /// The rows.
    pub rows: Vec<FlSparseRow<F>>,
    /// Number of columns.
    pub num_cols: usize,
}

/// A view of an `FlSparseMatrix` as a linear operator over F_ell, for elements of `L` limbs.
pub struct FlMatrixOperator<'a, F, const L: usize> {
    matrix: &'a FlSparseMatrix<F>,
}

impl<'a, F, const L: usize> FlMatrixOperator<'a, F, L> {
    /// The rows of the matrix viewed.
    pub closed spec fn rows(&self) -> Seq<FlSparseRow<F>> {
        self.matrix.rows@
    }

    /// The column count of the matrix viewed.
    pub closed spec fn ncols(&self) -> nat {
        self.matrix.num_cols as nat
    }

    /// An operator view of `matrix`.
    pub fn new(matrix: &'a FlSparseMatrix<F>) -> (r: Self)
        ensures
            r.rows() == matrix.rows@,
            r.ncols() == matrix.num_cols,
    {
        FlMatrixOperator { matrix }
    }

    /// Number of rows (matrix height).
    pub fn num_rows(&self) -> (n: usize)
        ensures
            n == self.rows().len(),
    {
        self.matrix.rows.len()
    }

    /// Number of columns (matrix width).
    pub fn num_cols(&self) -> (n: usize)
        ensures
            n == self.ncols(),
    {
        self.matrix.num_cols
    }
}

/// A solution of the F_ell solver: one coefficient per column, and whether it is a kernel
/// vector.
#[derive(Debug, Clone)]
pub struct FlSolution<F> {
    /// Coefficient `i` belongs to column `i`.
    pub coefficients: Vec<F>,
    /// True for a kernel vector (homogeneous solution).
    pub is_kernel: bool,
}

/// Virtual logarithms of the factor-base elements: rational primes, then algebraic ideals.
#[derive(Debug, Clone)]
pub struct VirtualLogTable<F> {
    /// `rational_logs[i]` is the virtual log of rational prime `i`.
    pub rational_logs: Vec<F>,
    /// `algebraic_logs[i]` is the virtual log of algebraic ideal `i`.
    pub algebraic_logs: Vec<F>,
}

/// Copies of `s[start..start + len]`, each made by `clone`.
fn clone_range<F: Clone>(s: &Vec<F>, start: usize, len: usize) -> (r: Vec<F>)
    requires
        start + len <= s@.len(),
    ensures
        r@.len() == len,
        forall|i: int| 0 <= i < len ==> cloned::<F>(s@[start + i], #[trigger] r@[i]),
{
    let mut r: Vec<F> = Vec::with_capacity(len);
    let n = s.len();
    let mut i: usize = 0;
    while i < len
        invariant
            n == s@.len(),
            start + len <= n,
            i <= len,
            r@.len() == i,
            forall|k: int| 0 <= k < i ==> cloned::<F>(s@[start + k], #[trigger] r@[k]),
        decreases len - i,
    {
        r.push(s[start + i].clone());
        i = i + 1;
    }
    r
}

/// The virtual-log table of a solution: its first `num_rational` coefficients are the logs
/// of the rational primes, the next `num_algebraic` those of the algebraic ideals; the
/// remaining (Schirokauer) coefficients are dropped.
pub fn recover_virtual_logs<F: Clone>(solution: &FlSolution<F>, num_rational: usize, num_algebraic: usize) -> (t: VirtualLogTable<F>)
    requires
        num_rational + num_algebraic <= solution.coefficients@.len(),
    ensures
        t.rational_logs@.len() == num_rational,
        t.algebraic_logs@.len() == num_algebraic,
        forall|i: int| 0 <= i < num_rational ==> cloned::<F>(solution.coefficients@[i], #[trigger] t.rational_logs@[i]),
        forall|i: int| 0 <= i < num_algebraic ==> cloned::<F>(solution.coefficients@[num_rational + i], #[trigger] t.algebraic_logs@[i]),
{
    let rational_logs = clone_range(&solution.coefficients, 0, num_rational);
    let algebraic_logs = clone_range(&solution.coefficients, num_rational, num_algebraic);
    VirtualLogTable { rational_logs, algebraic_logs }
}

} // verus!
