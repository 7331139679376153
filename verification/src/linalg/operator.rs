//! The sparse matrix as a linear operator over GF(2), applied to 64 vectors at a time.

use vstd::prelude::*;
use crate::filter::matrix::{MatrixRow, SparseMatrix};
use crate::linalg::bits::{bit, lemma_bit_xor, lemma_bit_zero, lemma_xor_assoc, lemma_xor_zero_self};
use crate::linalg::blockvec::{weighted_sum, BlockVec};

verus! {

/// GF(2)^64 sum of the words `v[cols[k]]` over the listed columns (a row times a block).
pub open spec fn xor_gather(v: Seq<u64>, cols: Seq<usize>) -> u64
    decreases cols.len(),
{
    if cols.len() == 0 {
        0u64
    } else {
        xor_gather(v, cols.drop_last()) ^ v[cols.last() as int]
    }
}

/// `w` added once per occurrence of `c` in `cols`.
pub open spec fn occ_xor(cols: Seq<usize>, c: usize, w: u64) -> u64
    decreases cols.len(),
{
    if cols.len() == 0 {
        0u64
    } else if cols.last() == c {
        occ_xor(cols.drop_last(), c, w) ^ w
    } else {
        occ_xor(cols.drop_last(), c, w)
    }
}

/// Column `c` of `A^T * V` over the first `n` rows: the sum of `v[i]` for each occurrence of
/// `c` in row `i`.
pub open spec fn scatter(rows: Seq<MatrixRow>, v: Seq<u64>, c: usize, n: int) -> u64
    decreases n,
{
    if n <= 0 {
        0u64
    } else {
        scatter(rows, v, c, n - 1) ^ occ_xor(rows[n - 1].cols@, c, v[n - 1])
    }
}

/// Every column index of every row lies below `num_cols`.
pub open spec fn cols_in_range(rows: Seq<MatrixRow>, num_cols: nat) -> bool {
    forall|i: int, k: int|
        0 <= i < rows.len() && 0 <= k < rows[i].cols@.len() ==> #[trigger] rows[i].cols@[k]
            < num_cols
}

/// `A^T * v` on the words of a block: word `c` is column `c`'s scatter over all rows.
pub open spec fn transpose_words(rows: Seq<MatrixRow>, ncols: nat, v: Seq<u64>) -> Seq<u64> {
    Seq::new(ncols, |c: int| scatter(rows, v, c as usize, rows.len() as int))
}

/// `A * v` on the words of a block: word `i` gathers the words at the columns of row `i`.
pub open spec fn apply_words(rows: Seq<MatrixRow>, v: Seq<u64>) -> Seq<u64> {
    Seq::new(rows.len(), |i: int| xor_gather(v, rows[i].cols@))
}

/// `B * v` with `B = A * A^T`, on the words of a block.
pub open spec fn gram_words(rows: Seq<MatrixRow>, ncols: nat, v: Seq<u64>) -> Seq<u64> {
    apply_words(rows, transpose_words(rows, ncols, v))
}

/// A view of a `SparseMatrix` as a linear operator over GF(2).
pub struct MatrixOperator<'a> {
    matrix: &'a SparseMatrix,
}

impl<'a> MatrixOperator<'a> {
    /// The rows of the matrix viewed.
    pub closed spec fn rows(&self) -> Seq<MatrixRow> {
        self.matrix.rows@
    }

    /// The column count of the matrix viewed.
    pub closed spec fn ncols(&self) -> nat {
        self.matrix.num_cols as nat
    }

    /// An operator view of `matrix`.
    pub fn new(matrix: &'a SparseMatrix) -> (r: Self)
        ensures
            r.rows() == matrix.rows@,
            r.ncols() == matrix.num_cols,
    {
        MatrixOperator { matrix }
    }

    /// Number of rows (matrix height).
    pub fn num_rows(&self) -> (n: usize)
        ensures
            n == self.rows().len(),
    {
        self.matrix.rows.len()
    }

    /// Number of columns (matrix width).
    pub fn num_cols(&self) -> (n: usize)
        ensures
            n == self.ncols(),
    {
        self.matrix.num_cols
    }

    /// `A * V`: row `i` of the result is the sum of the words of `v` at the columns of row `i`.
    pub fn apply(&self, v: &BlockVec) -> (r: BlockVec)
        requires
            v.wf(),
            v.num_rows == self.ncols(),
            cols_in_range(self.rows(), self.ncols()),
        ensures
            r.wf(),
            r.num_rows == self.rows().len(),
            forall|i: int| 0 <= i < r.num_rows ==> #[trigger] r.data@[i] == xor_gather(
                v.data@,
                self.rows()[i].cols@,
            ),
    {
        let n = self.matrix.rows.len();
        let mut result = BlockVec::zeros(n);
        let mut i: usize = 0;
        while i < n
            invariant
                n == self.rows().len(),
                i <= n,
                v.wf(),
                v.num_rows == self.ncols(),
                cols_in_range(self.rows(), self.ncols()),
                result.wf(),
                result.num_rows == n,
                forall|k: int| 0 <= k < i ==> #[trigger] result.data@[k] == xor_gather(
                    v.data@,
                    self.rows()[k].cols@,
                ),
            decreases n - i,
        {
            let row = &self.matrix.rows[i];
            let m = row.cols.len();
            let mut word: u64 = 0;
            let mut k: usize = 0;
            while k < m
                invariant
                    m == row.cols@.len(),
                    *row == self.rows()[i as int],
                    i < n,
                    n == self.rows().len(),
                    k <= m,
                    v.wf(),
                    v.num_rows == self.ncols(),
                    cols_in_range(self.rows(), self.ncols()),
                    word == xor_gather(v.data@, row.cols@.take(k as int)),
                decreases m - k,
            {
                proof {
                    assert(row.cols@.take(k as int + 1).drop_last() =~= row.cols@.take(k as int));
                }
                let c = row.cols[k];
                word = word ^ v.data[c];
                k = k + 1;
            }
            proof {
                assert(row.cols@.take(m as int) =~= row.cols@);
            }
            result.data.set(i, word);
            i = i + 1;
        }
        result
    }

    /// `A^T * V`: each row `i` adds `v[i]` into the result word of every column it holds.
    pub fn apply_transpose(&self, v: &BlockVec) -> (r: BlockVec)
        requires
            v.wf(),
            v.num_rows == self.rows().len(),
            cols_in_range(self.rows(), self.ncols()),
        ensures
            r.wf(),
            r.num_rows == self.ncols(),
            forall|c: int| 0 <= c < r.num_rows ==> #[trigger] r.data@[c] == scatter(
                self.rows(),
                v.data@,
                c as usize,
                self.rows().len() as int,
            ),
    {
        let n = self.matrix.rows.len();
        let nc = self.matrix.num_cols;
        let mut result = BlockVec::zeros(nc);
        let mut i: usize = 0;
        while i < n
            invariant
                n == self.rows().len(),
                nc == self.ncols(),
                i <= n,
                v.wf(),
                v.num_rows == n,
                cols_in_range(self.rows(), self.ncols()),
                result.wf(),
                result.num_rows == nc,
                forall|c: int| 0 <= c < nc ==> #[trigger] result.data@[c] == scatter(
                    self.rows(),
                    v.data@,
                    c as usize,
                    i as int,
                ),
            decreases n - i,
        {
            let vi = v.data[i];
            let row = &self.matrix.rows[i];
            let m = row.cols.len();
            if vi == 0 {
                proof {
                    assert forall|c: int| 0 <= c < nc implies #[trigger] result.data@[c] == scatter(
                        self.rows(),
                        v.data@,
                        c as usize,
                        i + 1,
                    ) by {
                        lemma_occ_xor_zero(row.cols@, c as usize);
                        lemma_xor_zero_self(scatter(self.rows(), v.data@, c as usize, i as int));
                    }
                }
                i = i + 1;
                continue;
            }
            let mut k: usize = 0;
            proof {
                assert forall|c: int| 0 <= c < nc implies #[trigger] result.data@[c] == scatter(
                    self.rows(),
                    v.data@,
                    c as usize,
                    i as int,
                ) ^ occ_xor(row.cols@.take(0), c as usize, vi) by {
                    lemma_xor_zero_self(scatter(self.rows(), v.data@, c as usize, i as int));
                }
            }
            while k < m
                invariant
                    m == row.cols@.len(),
                    *row == self.rows()[i as int],
                    v.wf(),
                    v.num_rows == n,
                    vi == v.data@[i as int],
                    i < n,
                    n == self.rows().len(),
                    nc == self.ncols(),
                    k <= m,
                    cols_in_range(self.rows(), self.ncols()),
                    result.wf(),
                    result.num_rows == nc,
                    forall|c: int| 0 <= c < nc ==> #[trigger] result.data@[c] == scatter(
                        self.rows(),
                        v.data@,
                        c as usize,
                        i as int,
                    ) ^ occ_xor(row.cols@.take(k as int), c as usize, vi),
                decreases m - k,
            {
                let c = row.cols[k];
                proof {
                    assert(row.cols@.take(k as int + 1).drop_last() =~= row.cols@.take(k as int));
                    lemma_xor_assoc(
                        scatter(self.rows(), v.data@, c, i as int),
                        occ_xor(row.cols@.take(k as int), c, vi),
                        vi,
                    );
                }
                let w = result.data[c] ^ vi;
                result.data.set(c, w);
                k = k + 1;
            }
            proof {
                assert(row.cols@.take(m as int) =~= row.cols@);
            }
            i = i + 1;
        }
        result
    }
}

/// Adding the zero word any number of times adds nothing.
pub proof fn lemma_occ_xor_zero(cols: Seq<usize>, c: usize)
    ensures
        occ_xor(cols, c, 0u64) == 0u64,
    decreases cols.len(),
{
    if cols.len() > 0 {
        lemma_occ_xor_zero(cols.drop_last(), c);
        lemma_xor_zero_self(0u64);
    }
}

/// Weighting by a pointwise sum of weights gives the sum of the weightings.
proof fn lemma_weighted_sum_xor(a: Seq<u64>, b: Seq<u64>, c: Seq<u64>, w: Seq<u64>, i: u64, n: int)
    requires
        i < 64,
        n <= a.len(),
        n <= b.len(),
        n <= c.len(),
        forall|k: int| 0 <= k < n ==> #[trigger] c[k] == a[k] ^ b[k],
    ensures
        weighted_sum(c, w, i, n) == weighted_sum(a, w, i, n) ^ weighted_sum(b, w, i, n),
    decreases n,
{
    if n <= 0 {
        lemma_xor_zero_self(0u64);
    } else {
        lemma_weighted_sum_xor(a, b, c, w, i, n - 1);
        lemma_bit_xor(a[n - 1], b[n - 1], i);
        let x = weighted_sum(a, w, i, n - 1);
        let y = weighted_sum(b, w, i, n - 1);
        let v = w[n - 1];
        assert((x ^ y) ^ v == (x ^ v) ^ y && (x ^ y) ^ v == x ^ (y ^ v) && (x ^ v) ^ (y ^ v) == x ^ y)
            by (bit_vector);
    }
}

/// Zero weights give zero.
proof fn lemma_weighted_sum_zero(z: Seq<u64>, w: Seq<u64>, i: u64, n: int)
    requires
        i < 64,
        n <= z.len(),
        forall|k: int| 0 <= k < n ==> #[trigger] z[k] == 0u64,
    ensures
        weighted_sum(z, w, i, n) == 0u64,
    decreases n,
{
    if n > 0 {
        lemma_weighted_sum_zero(z, w, i, n - 1);
        lemma_bit_zero(i);
    }
}

/// Weights zero but at position `j`, where they are `x`, pick `w[j]` when `x` has bit `i`.
proof fn lemma_weighted_sum_single(e: Seq<u64>, w: Seq<u64>, i: u64, n: int, j: int, x: u64)
    requires
        i < 64,
        n <= e.len(),
        forall|k: int| 0 <= k < n ==> #[trigger] e[k] == if k == j { x } else { 0u64 },
    ensures
        weighted_sum(e, w, i, n) == if 0 <= j < n && bit(x, i) { w[j] } else { 0u64 },
    decreases n,
{
    if n > 0 {
        lemma_weighted_sum_single(e, w, i, n - 1, j, x);
        lemma_bit_zero(i);
        lemma_xor_zero_self(w[n - 1]);
    }
}

/// Weighting the words by how often each column occurs in `cols` (times `x`) gathers the
/// words at `cols`, when `x` has bit `i`.
proof fn lemma_weighted_sum_occ(cols: Seq<usize>, x: u64, w: Seq<u64>, i: u64, n: nat)
    requires
        i < 64,
        n <= usize::MAX,
        forall|k: int| 0 <= k < cols.len() ==> #[trigger] cols[k] < n,
    ensures
        weighted_sum(Seq::new(n, |c: int| occ_xor(cols, c as usize, x)), w, i, n as int) == if bit(x, i) {
            xor_gather(w, cols)
        } else {
            0u64
        },
    decreases cols.len(),
{
    let o = Seq::new(n, |c: int| occ_xor(cols, c as usize, x));
    if cols.len() == 0 {
        lemma_weighted_sum_zero(o, w, i, n as int);
    } else {
        let d = cols.drop_last();
        let last = cols.last();
        assert forall|k: int| 0 <= k < d.len() implies #[trigger] d[k] < n by {
            assert(d[k] == cols[k]);
        }
        lemma_weighted_sum_occ(d, x, w, i, n);
        let od = Seq::new(n, |c: int| occ_xor(d, c as usize, x));
        let e = Seq::new(n, |c: int| if c == last as int { x } else { 0u64 });
        assert forall|k: int| 0 <= k < n implies #[trigger] o[k] == od[k] ^ e[k] by {
            lemma_xor_zero_self(od[k]);
        }
        lemma_weighted_sum_xor(od, e, o, w, i, n as int);
        lemma_weighted_sum_single(e, w, i, n as int, last as int, x);
        assert(last < n);
        lemma_xor_zero_self(0u64);
        lemma_xor_zero_self(xor_gather(w, d));
        lemma_xor_zero_self(w[last as int]);
    }
}

/// The adjoint law over the first `n` rows: `u^T (A w)` equals `(A^T u)^T w` with `A` cut to
/// its first `n` rows.
proof fn lemma_adjoint_prefix(rows: Seq<MatrixRow>, ncols: nat, u: Seq<u64>, w: Seq<u64>, i: u64, n: int)
    requires
        i < 64,
        0 <= n <= rows.len(),
        cols_in_range(rows, ncols),
        u.len() == rows.len(),
        ncols <= usize::MAX,
    ensures
        weighted_sum(u, apply_words(rows, w), i, n) == weighted_sum(
            Seq::new(ncols, |c: int| scatter(rows, u, c as usize, n)),
            w,
            i,
            ncols as int,
        ),
    decreases n,
{
    let s = Seq::new(ncols, |c: int| scatter(rows, u, c as usize, n));
    if n == 0 {
        lemma_weighted_sum_zero(s, w, i, ncols as int);
    } else {
        lemma_adjoint_prefix(rows, ncols, u, w, i, n - 1);
        let sp = Seq::new(ncols, |c: int| scatter(rows, u, c as usize, n - 1));
        let cols = rows[n - 1].cols@;
        let o = Seq::new(ncols, |c: int| occ_xor(cols, c as usize, u[n - 1]));
        assert forall|k: int| 0 <= k < ncols implies #[trigger] s[k] == sp[k] ^ o[k] by {}
        lemma_weighted_sum_xor(sp, o, s, w, i, ncols as int);
        assert forall|k: int| 0 <= k < cols.len() implies #[trigger] cols[k] < ncols by {
            assert(rows[n - 1].cols@[k] < ncols);
        }
        lemma_weighted_sum_occ(cols, u[n - 1], w, i, ncols);
        assert(apply_words(rows, w)[n - 1] == xor_gather(w, cols));
        lemma_xor_zero_self(weighted_sum(u, apply_words(rows, w), i, n - 1));
    }
}

/// The GF(2) adjoint law between `apply` and `apply_transpose`: for a block `u` over the rows
/// and a block `w` over the columns, `u^T (A w) = (A^T u)^T w`, row `i` of one
/// `inner_product_matrix` against the other.
pub proof fn lemma_adjoint(rows: Seq<MatrixRow>, ncols: nat, u: Seq<u64>, w: Seq<u64>, i: u64)
    requires
        i < 64,
        cols_in_range(rows, ncols),
        u.len() == rows.len(),
        w.len() == ncols,
        ncols <= usize::MAX,
    ensures
        weighted_sum(u, apply_words(rows, w), i, rows.len() as int) == weighted_sum(
            transpose_words(rows, ncols, u),
            w,
            i,
            ncols as int,
        ),
{
    lemma_adjoint_prefix(rows, ncols, u, w, i, rows.len() as int);
    assert(transpose_words(rows, ncols, u) =~= Seq::new(ncols, |c: int| scatter(rows, u, c as usize, rows.len() as int)));
}

} // verus!
