//! Bit-packed blocks of `BLOCK_WIDTH` GF(2) vectors: `data[i]` bit `j` is vector `j` at row `i`.

use vstd::prelude::*;
use crate::linalg::bits::{bit, lemma_bit_clear, lemma_bit_set, lemma_bit_zero};

verus! {

/// Number of GF(2) vectors packed side by side in one block.
pub const BLOCK_WIDTH: usize = 64;

/// A block of `BLOCK_WIDTH` GF(2) vectors, each of length `num_rows`.
#[derive(Debug, Clone, PartialEq, Eq)]
pub struct BlockVec {
    /// Packed row data: bit `j` of `data[row]` is vector `j`'s entry at `row`.
    pub data: Vec<u64>,
    /// Number of rows.
    pub num_rows: usize,
}

/// Sum over GF(2)^64 of the words `words[r]`, `r < n`, whose row `r` has bit `i` set in
/// `weights`: row `i` of the product `weights^T * words`.
pub open spec fn weighted_sum(weights: Seq<u64>, words: Seq<u64>, i: u64, n: int) -> u64
    decreases n,
{
    if n <= 0 {
        0u64
    } else if bit(weights[n - 1], i) {
        weighted_sum(weights, words, i, n - 1) ^ words[n - 1]
    } else {
        weighted_sum(weights, words, i, n - 1)
    }
}

impl BlockVec {
    /// The block is well formed when it holds one word per row.
    pub open spec fn wf(&self) -> bool {
        self.data@.len() == self.num_rows
    }

    /// Entry `(row, col)` of the block, as a bit.
    pub open spec fn entry(&self, row: int, col: int) -> bool {
        bit(self.data@[row], col as u64)
    }

    /// The zero block with `num_rows` rows.
    pub fn zeros(num_rows: usize) -> (r: Self)
        ensures
            r.wf(),
            r.num_rows == num_rows,
            r.data@ == Seq::new(num_rows as nat, |i: int| 0u64),
    {
        let mut data: Vec<u64> = Vec::with_capacity(num_rows);
        let mut i: usize = 0;
        while i < num_rows
            invariant
                i <= num_rows,
                data@ == Seq::new(i as nat, |k: int| 0u64),
            decreases num_rows - i,
        {
            data.push(0u64);
            i = i + 1;
        }
        BlockVec { data, num_rows }
    }

    /// Bit `(row, col)`.
    pub fn get(&self, row: usize, col: usize) -> (b: bool)
        requires
            self.wf(),
            row < self.num_rows,
            col < BLOCK_WIDTH,
        ensures
            b == self.entry(row as int, col as int),
    {
        (self.data[row] >> (col as u64)) & 1u64 == 1u64
    }

    /// Set bit `(row, col)` to `value`; every other bit stays.
    pub fn set(&mut self, row: usize, col: usize, value: bool)
        requires
            old(self).wf(),
            row < old(self).num_rows,
            col < BLOCK_WIDTH,
        ensures
            final(self).wf(),
            final(self).num_rows == old(self).num_rows,
            final(self).data@ == old(self).data@.update(
                row as int,
                if value {
                    old(self).data@[row as int] | (1u64 << (col as u64))
                } else {
                    old(self).data@[row as int] & !(1u64 << (col as u64))
                },
            ),
            forall|i: int, j: int|
                0 <= i < final(self).num_rows && 0 <= j < 64 ==> #[trigger] final(self).entry(i, j)
                    == if i == row && j == col {
                    value
                } else {
                    old(self).entry(i, j)
                },
    {
        let w = self.data[row];
        let nw = if value {
            w | (1u64 << (col as u64))
        } else {
            w & !(1u64 << (col as u64))
        };
        self.data.set(row, nw);
        proof {
            assert forall|i: int, j: int|
                0 <= i < self.num_rows && 0 <= j < 64 implies #[trigger] self.entry(i, j) == if i
                == row && j == col {
                value
            } else {
                old(self).entry(i, j)
            } by {
                if i == row {
                    if value {
                        lemma_bit_set(w, col as u64, j as u64);
                    } else {
                        lemma_bit_clear(w, col as u64, j as u64);
                    }
                }
            }
        }
    }

    /// Build a block from at most `BLOCK_WIDTH` columns of equal length: vector `j` is `cols[j]`,
    /// the vectors past `cols.len()` are zero.
    pub fn from_columns(cols: &[Vec<bool>]) -> (r: Self)
        requires
            cols@.len() <= BLOCK_WIDTH,
            forall|k: int| 0 <= k < cols@.len() ==> #[trigger] cols@[k]@.len() == cols@[0]@.len(),
        ensures
            r.wf(),
            r.num_rows == if cols@.len() == 0 {
                0
            } else {
                cols@[0]@.len()
            },
            forall|i: int, j: int|
                0 <= i < r.num_rows && 0 <= j < 64 ==> #[trigger] r.entry(i, j) == (j
                    < cols@.len() && cols@[j]@[i]),
    {
        let num_rows: usize = if cols.len() == 0 {
            0
        } else {
            cols[0].len()
        };
        let mut r = BlockVec::zeros(num_rows);
        let ncols = cols.len();
        proof {
            assert forall|i: int, jj: int| 0 <= i < num_rows && 0 <= jj < 64 implies !#[trigger] r.entry(
                i,
                jj,
            ) by {
                lemma_bit_zero(jj as u64);
            }
        }
        let mut j: usize = 0;
        while j < ncols
            invariant
                ncols == cols@.len(),
                ncols <= 64,
                j <= ncols,
                r.wf(),
                r.num_rows == num_rows,
                ncols > 0 ==> num_rows == cols@[0]@.len(),
                forall|k: int| 0 <= k < cols@.len() ==> #[trigger] cols@[k]@.len() == cols@[0]@.len(),
                forall|i: int, jj: int|
                    0 <= i < num_rows && 0 <= jj < 64 ==> #[trigger] r.entry(i, jj) == (jj < j
                        && cols@[jj]@[i]),
            decreases ncols - j,
        {
            let mut i: usize = 0;
            while i < num_rows
                invariant
                    ncols == cols@.len(),
                    ncols <= 64,
                    j < ncols,
                    i <= num_rows,
                    r.wf(),
                    r.num_rows == num_rows,
                    num_rows == cols@[j as int]@.len(),
                    forall|ii: int, jj: int|
                        0 <= ii < num_rows && 0 <= jj < 64 ==> #[trigger] r.entry(ii, jj) == ((jj
                            < j && cols@[jj]@[ii]) || (jj == j && ii < i && cols@[jj]@[ii])),
                decreases num_rows - i,
            {
                if cols[j][i] {
                    r.set(i, j, true);
                }
                i = i + 1;
            }
            j = j + 1;
        }
        proof {
            assert forall|i: int, jj: int|
                0 <= i < num_rows && 0 <= jj < 64 implies #[trigger] r.entry(i, jj) == (jj
                < cols@.len() && cols@[jj]@[i]) by {}
        }
        r
    }

    /// Component-wise GF(2) addition: `self ^= other`.
    pub fn xor_assign(&mut self, other: &BlockVec)
        requires
            old(self).wf(),
            other.wf(),
            old(self).num_rows == other.num_rows,
        ensures
            final(self).wf(),
            final(self).num_rows == old(self).num_rows,
            final(self).data@ == Seq::new(
                old(self).num_rows as nat,
                |i: int| old(self).data@[i] ^ other.data@[i],
            ),
    {
        let n = self.num_rows;
        let mut i: usize = 0;
        while i < n
            invariant
                n == self.num_rows,
                self.wf(),
                other.wf(),
                other.num_rows == n,
                i <= n,
                forall|k: int| 0 <= k < i ==> #[trigger] self.data@[k] == old(self).data@[k] ^ other.data@[k],
                forall|k: int| i <= k < n ==> #[trigger] self.data@[k] == old(self).data@[k],
            decreases n - i,
        {
            let w = self.data[i] ^ other.data[i];
            self.data.set(i, w);
            i = i + 1;
        }
        proof {
            assert(self.data@ =~= Seq::new(n as nat, |k: int| old(self).data@[k] ^ other.data@[k]));
        }
    }

    /// The `BLOCK_WIDTH x BLOCK_WIDTH` GF(2) product `self^T * other`: row `i` of the result is
    /// the sum of the rows of `other` at which vector `i` of `self` is set.
    pub fn inner_product_matrix(&self, other: &BlockVec) -> (r: [u64; BLOCK_WIDTH])
        requires
            self.wf(),
            other.wf(),
            self.num_rows == other.num_rows,
        ensures
            forall|i: int|
                0 <= i < 64 ==> #[trigger] r[i] == weighted_sum(
                    self.data@,
                    other.data@,
                    i as u64,
                    self.num_rows as int,
                ),
    {
        let mut result = [0u64; BLOCK_WIDTH];
        let n = self.num_rows;
        let mut row: usize = 0;
        while row < n
            invariant
                n == self.num_rows,
                self.wf(),
                other.wf(),
                other.num_rows == n,
                row <= n,
                forall|i: int|
                    0 <= i < 64 ==> #[trigger] result[i] == weighted_sum(
                        self.data@,
                        other.data@,
                        i as u64,
                        row as int,
                    ),
            decreases n - row,
        {
            let s = self.data[row];
            let o = other.data[row];
            let mut i: usize = 0;
            while i < BLOCK_WIDTH
                invariant
                    n == self.num_rows,
                    self.wf(),
                    other.wf(),
                    other.num_rows == n,
                    row < n,
                    s == self.data@[row as int],
                    o == other.data@[row as int],
                    i <= 64,
                    forall|k: int|
                        0 <= k < i ==> #[trigger] result[k] == weighted_sum(
                            self.data@,
                            other.data@,
                            k as u64,
                            row + 1,
                        ),
                    forall|k: int|
                        i <= k < 64 ==> #[trigger] result[k] == weighted_sum(
                            self.data@,
                            other.data@,
                            k as u64,
                            row as int,
                        ),
                decreases 64 - i,
            {
                if (s >> (i as u64)) & 1u64 == 1u64 {
                    result[i] = result[i] ^ o;
                }
                i = i + 1;
            }
            row = row + 1;
        }
        result
    }

    /// Vector `j` of the block as a dense bit vector.
    pub fn column(&self, j: usize) -> (r: Vec<bool>)
        requires
            self.wf(),
            j < BLOCK_WIDTH,
        ensures
            r@ == Seq::new(self.num_rows as nat, |i: int| self.entry(i, j as int)),
    {
        let mut r: Vec<bool> = Vec::with_capacity(self.num_rows);
        let mut i: usize = 0;
        while i < self.num_rows
            invariant
                self.wf(),
                j < 64,
                i <= self.num_rows,
                r@ == Seq::new(i as nat, |k: int| self.entry(k, j as int)),
            decreases self.num_rows - i,
        {
            r.push((self.data[i] >> (j as u64)) & 1u64 == 1u64);
            i = i + 1;
        }
        r
    }

    /// A copy of the block.
    pub fn duplicate(&self) -> (r: BlockVec)
        ensures
            r.data@ == self.data@,
            r.num_rows == self.num_rows,
    {
        let mut data: Vec<u64> = Vec::with_capacity(self.data.len());
        let mut i: usize = 0;
        while i < self.data.len()
            invariant
                i <= self.data@.len(),
                data@ == self.data@.take(i as int),
            decreases self.data@.len() - i,
        {
            data.push(self.data[i]);
            i = i + 1;
            assert(data@ =~= self.data@.take(i as int));
        }
        assert(self.data@.take(i as int) =~= self.data@);
        BlockVec { data, num_rows: self.num_rows }
    }
}

} // verus!
