//! Montgomery's block Lanczos iteration for the left nullspace of a sparse GF(2) matrix.
//!
//! The iteration runs on `B = A * A^T`, whose nullspace is the left nullspace of `A`, with
//! blocks of `BLOCK_WIDTH` vectors. Columns of the current block that drop out of the active
//! set are tested against `A^T`, and those that vanish are reported as kernel vectors.

use vstd::prelude::*;
use crate::filter::matrix::MatrixRow;
use crate::filter::seqs::count_in;
use crate::linalg::bits::{
    bit, lemma_bit_not, lemma_bit_set, lemma_bit_unit, lemma_bit_xor, lemma_bit_zero, lemma_xor_zero_self, lemma_zero_iff_no_bit,
};
use crate::linalg::blockvec::{weighted_sum, BlockVec, BLOCK_WIDTH};
use crate::linalg::kernel::{is_left_null, mask_indices, sel_count, KernelVector};
use crate::linalg::lcg::{lcg_iter, lcg_next, seed_mix, GOLDEN};
use crate::linalg::operator::{apply_words, cols_in_range, gram_words, occ_xor, scatter, transpose_words, MatrixOperator};
use crate::filter::seqs::strictly_sorted;

verus! {

/// Sum over GF(2)^64 of the rows `b[j]`, `j < n`, selected by the bits of `w`: the row
/// vector `w` times the matrix `b`.
pub open spec fn select_xor(w: u64, b: Seq<u64>, n: int) -> u64
    decreases n,
{
    if n <= 0 {
        0u64
    } else if bit(w, (n - 1) as u64) {
        select_xor(w, b, n - 1) ^ b[n - 1]
    } else {
        select_xor(w, b, n - 1)
    }
}

/// A reported kernel vector: sorted, nonempty rows of `rows` summing to zero.
pub open spec fn is_kernel_vector(rows: Seq<MatrixRow>, num_cols: nat, kv: KernelVector) -> bool {
    &&& strictly_sorted(kv.row_indices@)
    &&& kv.row_indices@.len() > 0
    &&& is_left_null(rows, kv.row_indices@, num_cols)
}

/// The rows at which vector `j` of the packed block `v` is set, in increasing order.
pub open spec fn column_rows(v: Seq<u64>, j: int) -> Seq<usize> {
    mask_indices(Seq::new(v.len(), |i: int| bit(v[i], j as u64)))
}

/// What vector `j` of the block `v` yields as a kernel vector of `rows`: its rows, when it
/// has some and they sum to zero over GF(2); nothing otherwise.
pub open spec fn column_kernel(rows: Seq<MatrixRow>, num_cols: nat, v: Seq<u64>, j: int) -> Option<Seq<usize>> {
    let idx = column_rows(v, j);
    if idx.len() > 0 && forall|c: usize| c < num_cols ==> #[trigger] sel_count(rows, idx, c) % 2 == 0 {
        Some(idx)
    } else {
        None
    }
}

/// Every entry of `r` is a kernel vector of `rows`.
pub open spec fn all_kernel_vectors(rows: Seq<MatrixRow>, num_cols: nat, r: Seq<KernelVector>) -> bool {
    forall|k: int| 0 <= k < r.len() ==> #[trigger] is_kernel_vector(rows, num_cols, r[k])
}

/// The selection by `w` is linear in `w`.
pub proof fn lemma_select_xor_xor(w1: u64, w2: u64, b: Seq<u64>, n: int)
    requires
        n <= 64,
    ensures
        select_xor(w1 ^ w2, b, n) == select_xor(w1, b, n) ^ select_xor(w2, b, n),
    decreases n,
{
    if n <= 0 {
        lemma_xor_zero_self(0u64);
    } else {
        lemma_select_xor_xor(w1, w2, b, n - 1);
        lemma_bit_xor(w1, w2, (n - 1) as u64);
        let x = select_xor(w1, b, n - 1);
        let y = select_xor(w2, b, n - 1);
        let v = b[n - 1];
        assert((x ^ y) == ((x ^ v) ^ (y ^ v)) && ((x ^ y) ^ v) == ((x ^ v) ^ y) && ((x ^ y) ^ v)
            == (x ^ (y ^ v))) by (bit_vector);
    }
}

/// Selecting by the zero word gives zero.
pub proof fn lemma_select_xor_zero(b: Seq<u64>, n: int)
    requires
        n <= 64,
    ensures
        select_xor(0u64, b, n) == 0u64,
    decreases n,
{
    if n > 0 {
        lemma_select_xor_zero(b, n - 1);
        lemma_bit_zero((n - 1) as u64);
    }
}

/// Selecting by the unit word `1 << i` picks row `i`.
pub proof fn lemma_select_xor_unit(i: u64, b: Seq<u64>, n: int)
    requires
        i < 64,
        n <= 64,
    ensures
        select_xor(1u64 << i, b, n) == if i < n {
            b[i as int]
        } else {
            0u64
        },
    decreases n,
{
    if n > 0 {
        lemma_select_xor_unit(i, b, n - 1);
        lemma_bit_unit(i, (n - 1) as u64);
        lemma_xor_zero_self(b[n - 1]);
    }
}

/// The `BLOCK_WIDTH x BLOCK_WIDTH` GF(2) product `a * b` on the rows in `active_mask`, zero on
/// the other rows.
pub fn gf2_matmul_block(a: [u64; BLOCK_WIDTH], b: [u64; BLOCK_WIDTH], active_mask: u64) -> (c: [u64; BLOCK_WIDTH])
    ensures
        forall|i: int|
            0 <= i < 64 ==> #[trigger] c[i] == if bit(active_mask, i as u64) {
                select_xor(a[i], b@, 64)
            } else {
                0u64
            },
{
    let mut c = [0u64; BLOCK_WIDTH];
    let mut i: usize = 0;
    while i < BLOCK_WIDTH
        invariant
            i <= 64,
            forall|k: int|
                0 <= k < i ==> #[trigger] c[k] == if bit(active_mask, k as u64) {
                    select_xor(a[k], b@, 64)
                } else {
                    0u64
                },
            forall|k: int| i <= k < 64 ==> #[trigger] c[k] == 0u64,
        decreases 64 - i,
    {
        if (active_mask >> (i as u64)) & 1u64 == 1u64 {
            let row_a = a[i];
            let mut acc: u64 = 0;
            let mut j: usize = 0;
            while j < BLOCK_WIDTH
                invariant
                    j <= 64,
                    row_a == a[i as int],
                    acc == select_xor(row_a, b@, j as int),
                decreases 64 - j,
            {
                if (row_a >> (j as u64)) & 1u64 == 1u64 {
                    acc = acc ^ b[j];
                }
                j = j + 1;
            }
            c[i] = acc;
        }
        i = i + 1;
    }
    c
}

/// `dst -= src * mat` over GF(2): each row of `dst` gains the rows of `mat` selected by the
/// same row of `src`.
pub fn block_vec_sub_matmul(dst: &mut BlockVec, src: &BlockVec, mat: [u64; BLOCK_WIDTH])
    requires
        old(dst).wf(),
        src.wf(),
        old(dst).num_rows == src.num_rows,
    ensures
        final(dst).wf(),
        final(dst).num_rows == old(dst).num_rows,
        forall|r: int|
            0 <= r < src.num_rows ==> #[trigger] final(dst).data@[r] == old(dst).data@[r]
                ^ select_xor(src.data@[r], mat@, 64),
{
    let n = src.num_rows;
    let mut r: usize = 0;
    while r < n
        invariant
            n == src.num_rows,
            src.wf(),
            dst.wf(),
            dst.num_rows == n,
            r <= n,
            forall|k: int|
                0 <= k < r ==> #[trigger] dst.data@[k] == old(dst).data@[k] ^ select_xor(
                    src.data@[k],
                    mat@,
                    64,
                ),
            forall|k: int| r <= k < n ==> #[trigger] dst.data@[k] == old(dst).data@[k],
        decreases n - r,
    {
        let word = src.data[r];
        if word == 0 {
            proof {
                lemma_select_xor_zero(mat@, 64);
                lemma_xor_zero_self(dst.data@[r as int]);
            }
            r = r + 1;
            continue;
        }
        let mut product_row: u64 = 0;
        let mut j: usize = 0;
        while j < BLOCK_WIDTH
            invariant
                j <= 64,
                product_row == select_xor(word, mat@, j as int),
            decreases 64 - j,
        {
            if (word >> (j as u64)) & 1u64 == 1u64 {
                product_row = product_row ^ mat[j];
            }
            j = j + 1;
        }
        let nw = dst.data[r] ^ product_row;
        dst.data.set(r, nw);
        r = r + 1;
    }
}

/// Clear, in every row, the bits of the columns outside `active_mask`.
pub fn zero_inactive_columns(v: &mut BlockVec, active_mask: u64)
    requires
        old(v).wf(),
    ensures
        final(v).wf(),
        final(v).num_rows == old(v).num_rows,
        forall|r: int| 0 <= r < old(v).num_rows ==> #[trigger] final(v).data@[r] == old(v).data@[r] & active_mask,
{
    let n = v.data.len();
    let mut r: usize = 0;
    while r < n
        invariant
            n == v.data@.len(),
            v.num_rows == old(v).num_rows,
            v.data@.len() == old(v).data@.len(),
            r <= n,
            forall|k: int| 0 <= k < r ==> #[trigger] v.data@[k] == old(v).data@[k] & active_mask,
            forall|k: int| r <= k < n ==> #[trigger] v.data@[k] == old(v).data@[k],
        decreases n - r,
    {
        let w = v.data[r] & active_mask;
        v.data.set(r, w);
        r = r + 1;
    }
}

/// A pseudo-random block: row `i` is the generator state after `i + 1` steps from the mixed
/// seed.
pub fn random_block_vec(num_rows: usize, seed: u64) -> (r: BlockVec)
    ensures
        r.wf(),
        r.num_rows == num_rows,
        forall|i: int| 0 <= i < num_rows ==> #[trigger] r.data@[i] == lcg_iter(seed_mix(seed), (i + 1) as nat),
{
    let mut state = seed.wrapping_add(GOLDEN);
    let mut data: Vec<u64> = Vec::with_capacity(num_rows);
    let mut i: usize = 0;
    while i < num_rows
        invariant
            i <= num_rows,
            data@.len() == i,
            state == lcg_iter(seed_mix(seed), i as nat),
            forall|k: int| 0 <= k < i ==> #[trigger] data@[k] == lcg_iter(seed_mix(seed), (k + 1) as nat),
        decreases num_rows - i,
    {
        state = lcg_next(state);
        data.push(state);
        i = i + 1;
    }
    BlockVec { data, num_rows }
}

/// Column `c` is a clean pivot of the row set `sw`: row `c` has bit `c`, no other row has it.
pub open spec fn clean_pivot(sw: Seq<u64>, c: int) -> bool {
    &&& bit(sw[c], c as u64)
    &&& forall|r: int| 0 <= r < 64 && r != c ==> !#[trigger] bit(sw[r], c as u64)
}

/// The first row at or after `row`, below 64, whose word has bit `col`; 64 when there is
/// none.
pub open spec fn first_row_with_bit(sw: Seq<u64>, col: int, row: int) -> int
    decreases 64 - row,
{
    if row >= 64 {
        64
    } else if bit(sw[row], col as u64) {
        row
    } else {
        first_row_with_bit(sw, col, row + 1)
    }
}

/// `w` after adding row `col` to every other row `r` at which `sw[r]` has bit `col`.
pub open spec fn eliminate(w: Seq<u64>, sw: Seq<u64>, col: int) -> Seq<u64> {
    Seq::new(
        64,
        |r: int|
            if r != col && bit(sw[r], col as u64) {
                w[r] ^ w[col]
            } else {
                w[r]
            },
    )
}

/// Rows `i` and `j` of `w` exchanged.
pub open spec fn swap_rows(w: Seq<u64>, i: int, j: int) -> Seq<u64> {
    w.update(i, w[j]).update(j, w[i])
}

/// The elimination state `(rows, row operations, pivot mask)` after column `col` is
/// processed: when a row at or below position `col` has bit `col`, the first such row is
/// swapped into position `col`, cleared from every other row, and `col` joins the mask.
pub open spec fn pivot_column(st: (Seq<u64>, Seq<u64>, u64), col: int) -> (Seq<u64>, Seq<u64>, u64) {
    let f = first_row_with_bit(st.0, col, col);
    if f >= 64 {
        st
    } else {
        let sw = swap_rows(st.0, col, f);
        let inv = swap_rows(st.1, col, f);
        (eliminate(sw, sw, col), eliminate(inv, sw, col), st.2 | (1u64 << (col as u64)))
    }
}

/// The elimination state of `s` after the first `col` columns: it starts from `s`, the
/// identity and the empty mask.
pub open spec fn pivot_state(s: Seq<u64>, col: int) -> (Seq<u64>, Seq<u64>, u64)
    decreases col,
{
    if col <= 0 {
        (s, Seq::new(64, |k: int| 1u64 << (k as u64)), 0u64)
    } else {
        pivot_column(pivot_state(s, col - 1), col - 1)
    }
}

/// The pivot mask of `s` and the row operations on its pivot rows, zero on the other rows.
pub open spec fn block_pivot(s: Seq<u64>) -> (u64, Seq<u64>) {
    let st = pivot_state(s, 64);
    (
        st.2,
        Seq::new(
            64,
            |k: int|
                if bit(st.2, k as u64) {
                    st.1[k]
                } else {
                    0u64
                },
        ),
    )
}

/// Gauss-Jordan elimination over GF(2) on a `BLOCK_WIDTH x BLOCK_WIDTH` matrix (row `i` is
/// `s[i]`, bit `j` is entry `(i, j)`).
///
/// Column `col` becomes a pivot when one of the rows at or below position `col` has bit
/// `col`; that row is swapped into position `col` and cleared from every other row. Returns
/// the mask of pivot columns and `s_inv`, whose pivot rows are the accumulated row operations
/// and whose other rows are zero: on the pivot rows and columns, `s_inv * s` is the identity.
pub fn gf2_block_pivot(s: [u64; BLOCK_WIDTH]) -> (res: (u64, [u64; BLOCK_WIDTH]))
    ensures
        forall|r: int| 0 <= r < 64 && !bit(res.0, r as u64) ==> #[trigger] res.1[r] == 0u64,
        forall|r: int, c: int|
            0 <= r < 64 && 0 <= c < 64 && bit(res.0, r as u64) && bit(res.0, c as u64) ==> #[trigger] bit(
                select_xor(res.1[r], s@, 64),
                c as u64,
            ) == (r == c),
        res.0 == block_pivot(s@).0,
        res.1@ == block_pivot(s@).1,
{
    let mut s_work = s;
    let mut inv = [0u64; BLOCK_WIDTH];
    let mut i: usize = 0;
    while i < BLOCK_WIDTH
        invariant
            i <= 64,
            forall|k: int| 0 <= k < i ==> #[trigger] inv[k] == 1u64 << (k as u64),
        decreases 64 - i,
    {
        inv[i] = 1u64 << (i as u64);
        i = i + 1;
    }
    proof {
        assert forall|r: int| 0 <= r < 64 implies #[trigger] s_work[r] == select_xor(inv[r], s@, 64) by {
            lemma_select_xor_unit(r as u64, s@, 64);
        }
    }
    let mut pivot_mask: u64 = 0;
    proof {
        assert forall|c: int| 0 <= c < 64 implies !#[trigger] bit(pivot_mask, c as u64) by {
            lemma_bit_zero(c as u64);
        }
        assert(inv@ =~= pivot_state(s@, 0).1);
        assert(s_work@ =~= pivot_state(s@, 0).0);
    }
    let mut col: usize = 0;
    while col < BLOCK_WIDTH
        invariant
            col <= 64,
            forall|r: int| 0 <= r < 64 ==> #[trigger] s_work[r] == select_xor(inv[r], s@, 64),
            forall|c: int| 0 <= c < col && bit(pivot_mask, c as u64) ==> #[trigger] clean_pivot(s_work@, c),
            forall|c: int| col <= c < 64 ==> !#[trigger] bit(pivot_mask, c as u64),
            (s_work@, inv@, pivot_mask) == pivot_state(s@, col as int),
        decreases 64 - col,
    {
        let mut found: usize = BLOCK_WIDTH;
        let mut row: usize = col;
        while row < BLOCK_WIDTH && found == BLOCK_WIDTH
            invariant
                col < 64,
                col <= row <= 64,
                found == 64 || (col <= found < 64 && bit(s_work[found as int], col as u64)),
                found == 64 ==> first_row_with_bit(s_work@, col as int, col as int) == first_row_with_bit(
                    s_work@,
                    col as int,
                    row as int,
                ),
                found != 64 ==> found as int == first_row_with_bit(s_work@, col as int, col as int),
            decreases 64 - row,
        {
            if (s_work[row] >> (col as u64)) & 1u64 == 1u64 {
                found = row;
            }
            row = row + 1;
        }
        if found == BLOCK_WIDTH {
            proof {
                assert(first_row_with_bit(s_work@, col as int, row as int) == 64);
            }
            col = col + 1;
            continue;
        }
        let ghost before = s_work@;
        let ghost inv_before = inv@;
        let t = s_work[col];
        s_work[col] = s_work[found];
        s_work[found] = t;
        let t2 = inv[col];
        inv[col] = inv[found];
        inv[found] = t2;
        proof {
            assert forall|c: int| 0 <= c < col && bit(pivot_mask, c as u64) implies #[trigger] clean_pivot(s_work@, c) by {
                assert(clean_pivot(before, c));
                assert forall|r: int| 0 <= r < 64 && r != c implies !#[trigger] bit(s_work@[r], c as u64) by {
                    if r == col {
                        assert(!bit(before[found as int], c as u64));
                    } else if r == found {
                        assert(!bit(before[col as int], c as u64));
                    } else {
                        assert(!bit(before[r], c as u64));
                    }
                }
            }
            lemma_bit_set(pivot_mask, col as u64, col as u64);
            assert forall|c: int| 0 <= c < 64 implies #[trigger] bit(pivot_mask | (1u64 << (col as u64)), c as u64) == (c == col || bit(pivot_mask, c as u64)) by {
                lemma_bit_set(pivot_mask, col as u64, c as u64);
            }
        }
        let ghost sw1 = s_work@;
        let ghost inv1 = inv@;
        proof {
            assert(sw1 =~= swap_rows(before, col as int, found as int));
            assert(inv1 =~= swap_rows(inv_before, col as int, found as int));
        }
        pivot_mask = pivot_mask | (1u64 << (col as u64));
        let prow = s_work[col];
        let pinv = inv[col];
        let mut r: usize = 0;
        while r < BLOCK_WIDTH
            invariant
                col < 64,
                r <= 64,
                prow == s_work[col as int],
                pinv == inv[col as int],
                bit(prow, col as u64),
                forall|k: int| 0 <= k < 64 ==> #[trigger] s_work[k] == select_xor(inv[k], s@, 64),
                forall|c: int| 0 <= c < col && bit(pivot_mask, c as u64) ==> #[trigger] clean_pivot(s_work@, c),
                forall|k: int| 0 <= k < r && k != col ==> !#[trigger] bit(s_work[k], col as u64),
                bit(pivot_mask, col as u64),
                forall|c: int| col < c < 64 ==> !#[trigger] bit(pivot_mask, c as u64),
                prow == sw1[col as int],
                pinv == inv1[col as int],
                sw1.len() == 64,
                inv1.len() == 64,
                forall|k: int| 0 <= k < r ==> #[trigger] s_work@[k] == eliminate(sw1, sw1, col as int)[k],
                forall|k: int| r <= k < 64 ==> #[trigger] s_work@[k] == sw1[k],
                forall|k: int| 0 <= k < r ==> #[trigger] inv@[k] == eliminate(inv1, sw1, col as int)[k],
                forall|k: int| r <= k < 64 ==> #[trigger] inv@[k] == inv1[k],
            decreases 64 - r,
        {
            if r != col && (s_work[r] >> (col as u64)) & 1u64 == 1u64 {
                let ghost before2 = s_work@;
                let nrow = s_work[r] ^ prow;
                let ninv = inv[r] ^ pinv;
                proof {
                    lemma_select_xor_xor(inv[r as int], pinv, s@, 64);
                    lemma_bit_xor(s_work[r as int], prow, col as u64);
                    assert forall|c: int| 0 <= c < col && bit(pivot_mask, c as u64) implies #[trigger] clean_pivot(before2.update(r as int, nrow), c) by {
                        assert(clean_pivot(before2, c));
                        lemma_bit_xor(before2[r as int], prow, c as u64);
                        assert(!bit(prow, c as u64));
                    }
                }
                s_work[r] = nrow;
                inv[r] = ninv;
                assert(s_work@ == before2.update(r as int, nrow));
            }
            r = r + 1;
        }
        proof {
            assert(clean_pivot(s_work@, col as int));
            assert(s_work@ =~= eliminate(sw1, sw1, col as int));
            assert(inv@ =~= eliminate(inv1, sw1, col as int));
        }
        col = col + 1;
    }
    let mut s_inv = [0u64; BLOCK_WIDTH];
    let mut c: usize = 0;
    while c < BLOCK_WIDTH
        invariant
            c <= 64,
            forall|k: int| 0 <= k < c ==> #[trigger] s_inv[k] == if bit(pivot_mask, k as u64) {
                inv[k]
            } else {
                0u64
            },
            forall|k: int| c <= k < 64 ==> #[trigger] s_inv[k] == 0u64,
            forall|k: int| 0 <= k < 64 ==> #[trigger] s_work[k] == select_xor(inv[k], s@, 64),
            forall|k: int| 0 <= k < 64 && bit(pivot_mask, k as u64) ==> #[trigger] clean_pivot(s_work@, k),
        decreases 64 - c,
    {
        if (pivot_mask >> (c as u64)) & 1u64 == 1u64 {
            s_inv[c] = inv[c];
        }
        c = c + 1;
    }
    proof {
        assert forall|r: int, cc: int|
            0 <= r < 64 && 0 <= cc < 64 && bit(pivot_mask, r as u64) && bit(pivot_mask, cc as u64) implies #[trigger] bit(
                select_xor(s_inv[r], s@, 64),
                cc as u64,
            ) == (r == cc) by {
            assert(clean_pivot(s_work@, cc));
            assert(s_inv[r] == inv[r]);
            assert(s_work[r] == select_xor(inv[r], s@, 64));
        }
        assert(s_inv@ =~= block_pivot(s@).1);
    }
    (pivot_mask, s_inv)
}

/// Bit `b` of `w` added once per occurrence of `c`: set when `w` has bit `b` and `c` occurs
/// an odd number of times.
pub proof fn lemma_occ_xor_parity(cols: Seq<usize>, c: usize, w: u64, b: u64)
    requires
        b < 64,
    ensures
        bit(occ_xor(cols, c, w), b) == (bit(w, b) && count_in(cols, c) % 2 == 1),
    decreases cols.len(),
{
    if cols.len() == 0 {
        lemma_bit_zero(b);
    } else {
        lemma_occ_xor_parity(cols.drop_last(), c, w, b);
        lemma_bit_xor(occ_xor(cols.drop_last(), c, w), w, b);
    }
}

/// Bit `b` of column `c` of `A^T * V` over the first `n` rows is the parity of the
/// occurrences of `c` over the rows whose word in `V` has bit `b` set.
pub proof fn lemma_scatter_parity(rows: Seq<MatrixRow>, v: Seq<u64>, mask: Seq<bool>, c: usize, n: int, b: u64)
    requires
        b < 64,
        0 <= n <= mask.len(),
        n <= rows.len(),
        n <= v.len(),
        mask.len() <= usize::MAX,
        forall|i: int| 0 <= i < n ==> #[trigger] bit(v[i], b) == mask[i],
    ensures
        bit(scatter(rows, v, c, n), b) == (sel_count(rows, mask_indices(mask.take(n)), c) % 2 == 1),
    decreases n,
{
    if n == 0 {
        lemma_bit_zero(b);
        assert(mask.take(0) =~= Seq::<bool>::empty());
    } else {
        lemma_scatter_parity(rows, v, mask, c, n - 1, b);
        let t = mask.take(n);
        assert(t.drop_last() =~= mask.take(n - 1));
        assert(bit(v[n - 1], b) == mask[n - 1]);
        lemma_bit_xor(scatter(rows, v, c, n - 1), occ_xor(rows[n - 1].cols@, c, v[n - 1]), b);
        lemma_occ_xor_parity(rows[n - 1].cols@, c, v[n - 1], b);
        let prev = mask_indices(mask.take(n - 1));
        if mask[n - 1] {
            let x = (n - 1) as usize;
            assert(prev.push(x).drop_last() =~= prev);
            assert(sel_count(rows, prev.push(x), c) == sel_count(rows, prev, c) + count_in(rows[n - 1].cols@, c));
        }
    }
}

/// A mask with no bit set selects no index.
pub proof fn lemma_mask_indices_none(mask: Seq<bool>)
    requires
        forall|i: int| 0 <= i < mask.len() ==> !#[trigger] mask[i],
    ensures
        mask_indices(mask).len() == 0,
    decreases mask.len(),
{
    if mask.len() > 0 {
        lemma_mask_indices_none(mask.drop_last());
    }
}

/// Whether every word of `data` is zero.
pub(crate) fn all_words_zero(data: &Vec<u64>) -> (b: bool)
    ensures
        b == forall|k: int| 0 <= k < data@.len() ==> #[trigger] data@[k] == 0u64,
{
    let mut i: usize = 0;
    while i < data.len()
        invariant
            i <= data@.len(),
            forall|k: int| 0 <= k < i ==> #[trigger] data@[k] == 0u64,
        decreases data@.len() - i,
    {
        if data[i] != 0 {
            return false;
        }
        i = i + 1;
    }
    true
}

/// Whether two index lists are equal.
pub(crate) fn same_indices(a: &Vec<usize>, b: &Vec<usize>) -> (r: bool)
    ensures
        r == (a@ == b@),
{
    if a.len() != b.len() {
        return false;
    }
    let mut i: usize = 0;
    while i < a.len()
        invariant
            a@.len() == b@.len(),
            i <= a@.len(),
            forall|k: int| 0 <= k < i ==> a@[k] == b@[k],
        decreases a@.len() - i,
    {
        if a[i] != b[i] {
            return false;
        }
        i = i + 1;
    }
    assert(a@ =~= b@);
    true
}

/// Test vector `j` of `v` against `A^T`: the kernel vector it spells, when it is nonzero and
/// `A^T` sends it to zero.
pub(crate) fn kernel_from_column(op: &MatrixOperator<'_>, v: &BlockVec, j: usize) -> (r: Option<KernelVector>)
    requires
        v.wf(),
        v.num_rows == op.rows().len(),
        j < BLOCK_WIDTH,
        cols_in_range(op.rows(), op.ncols()),
    ensures
        r matches Some(kv) ==> is_kernel_vector(op.rows(), op.ncols(), kv),
        match r {
            Some(kv) => column_kernel(op.rows(), op.ncols(), v.data@, j as int) == Some(kv.row_indices@),
            None => column_kernel(op.rows(), op.ncols(), v.data@, j as int) is None,
        },
{
    let col = v.column(j);
    let kv = KernelVector::from_mask(col.as_slice());
    proof {
        assert(col@ =~= Seq::new(v.data@.len(), |i: int| bit(v.data@[i], j as u64)));
    }
    if kv.is_empty() {
        return None;
    }
    let ghost mask = col@;
    let mut one: Vec<Vec<bool>> = Vec::new();
    one.push(col);
    let col_bv = BlockVec::from_columns(one.as_slice());
    let at_col = op.apply_transpose(&col_bv);
    let ghost rows = op.rows();
    let ghost m = rows.len() as int;
    proof {
        assert(one@[0]@ == mask);
        assert forall|i: int| 0 <= i < m implies #[trigger] bit(col_bv.data@[i], 0) == mask[i] by {
            assert(col_bv.entry(i, 0) == (0 < one@.len() && one@[0]@[i]));
        }
        assert(mask.take(m) =~= mask);
    }
    if !all_words_zero(&at_col.data) {
        proof {
            let k = choose|k: int| 0 <= k < at_col.data@.len() && at_col.data@[k] != 0u64;
            let c = k as usize;
            let none = Seq::new(m as nat, |i: int| false);
            lemma_mask_indices_none(none);
            assert(none.take(m) =~= none);
            lemma_zero_iff_no_bit(at_col.data@[k]);
            let b = choose|b: u64| b < 64 && #[trigger] bit(at_col.data@[k], b);
            if b != 0 {
                assert forall|i: int| 0 <= i < m implies #[trigger] bit(col_bv.data@[i], b) == none[i] by {
                    assert(col_bv.entry(i, b as int) == (b < one@.len() && one@[b as int]@[i]));
                }
                lemma_scatter_parity(rows, col_bv.data@, none, c, m, b);
            }
            lemma_scatter_parity(rows, col_bv.data@, mask, c, m, 0);
            assert(sel_count(rows, kv.row_indices@, c) % 2 == 1);
        }
        return None;
    }
    proof {
        assert forall|c: usize| c < op.ncols() implies #[trigger] sel_count(rows, kv.row_indices@, c) % 2 == 0 by {
            lemma_scatter_parity(rows, col_bv.data@, mask, c, m, 0);
            assert(at_col.data@[c as int] == 0u64);
            lemma_bit_zero(0);
        }
        assert forall|k: int| 0 <= k < kv.row_indices@.len() implies #[trigger] kv.row_indices@[k] < rows.len() by {
            assert(kv.row_indices@.contains(kv.row_indices@[k]));
        }
    }
    Some(kv)
}

/// The row sets of a list of kernel vectors.
pub open spec fn found_rows(r: Seq<KernelVector>) -> Seq<Seq<usize>> {
    r.map_values(|kv: KernelVector| kv.row_indices@)
}

/// The `BLOCK_WIDTH x BLOCK_WIDTH` GF(2) product `a^T * b` of two packed blocks.
pub open spec fn inner_words(a: Seq<u64>, b: Seq<u64>) -> Seq<u64> {
    Seq::new(64, |i: int| weighted_sum(a, b, i as u64, a.len() as int))
}

/// `s_inv * raw` on the rows in `mask`, zero on the other rows.
pub open spec fn masked_product(s_inv: Seq<u64>, raw: Seq<u64>, mask: u64) -> Seq<u64> {
    Seq::new(
        64,
        |i: int|
            if bit(mask, i as u64) {
                select_xor(s_inv[i], raw, 64)
            } else {
                0u64
            },
    )
}

/// The block that follows `v` (pivot mask `mask`, inverse `s_inv`) when the block before it
/// was `vp` (pivot mask `mp`, inverse `sp_inv`): `B v - v alpha - vp beta`, with
/// `alpha = s_inv (v^T B B v)` and `beta = sp_inv (vp^T B v)`, and its columns outside `mask`
/// cleared.
#[verifier::opaque]
pub open spec fn lanczos_next(
    rows: Seq<MatrixRow>,
    ncols: nat,
    v: Seq<u64>,
    vp: Seq<u64>,
    sp_inv: Seq<u64>,
    mp: u64,
    mask: u64,
    s_inv: Seq<u64>,
) -> Seq<u64> {
    let w = gram_words(rows, ncols, v);
    let alpha = masked_product(s_inv, inner_words(v, gram_words(rows, ncols, w)), mask);
    let beta = masked_product(sp_inv, inner_words(vp, w), mp);
    Seq::new(v.len(), |r: int| ((w[r] ^ select_xor(v[r], alpha, 64)) ^ select_xor(vp[r], beta, 64)) & mask)
}

/// The first block of a run seeded with `seed`: row `i` is the generator state after `i + 1`
/// steps from the mixed seed.
pub open spec fn start_block(m: nat, seed: u64) -> Seq<u64> {
    Seq::new(m, |i: int| lcg_iter(seed_mix(seed), (i + 1) as nat))
}

/// The block scanned before step `k`; zero before the first step.
pub open spec fn prev_block(vs: Seq<Seq<u64>>, m: nat, k: int) -> Seq<u64> {
    if k == 0 {
        Seq::new(m, |i: int| 0u64)
    } else {
        vs[k - 1]
    }
}

/// The inverse of the step before step `k`; zero before the first step.
pub open spec fn prev_inv(invs: Seq<Seq<u64>>, k: int) -> Seq<u64> {
    if k == 0 {
        Seq::new(64, |i: int| 0u64)
    } else {
        invs[k - 1]
    }
}

/// The pivot mask of the step before step `k`; zero before the first step.
pub open spec fn prev_mask(masks: Seq<u64>, k: int) -> u64 {
    if k == 0 {
        0u64
    } else {
        masks[k - 1]
    }
}

/// The block that step `k` of a run seeded with `seed` scans, given the blocks, pivot masks
/// and inverses of the steps before it.
pub open spec fn expected_block(
    rows: Seq<MatrixRow>,
    ncols: nat,
    seed: u64,
    vs: Seq<Seq<u64>>,
    masks: Seq<u64>,
    invs: Seq<Seq<u64>>,
    k: int,
) -> Seq<u64> {
    if k == 0 {
        start_block(rows.len(), seed)
    } else {
        lanczos_next(
            rows,
            ncols,
            vs[k - 1],
            prev_block(vs, rows.len(), k - 1),
            prev_inv(invs, k - 1),
            prev_mask(masks, k - 1),
            masks[k - 1],
            invs[k - 1],
        )
    }
}

/// Step pivot of block `v`: `mask` and `inv` are what `gf2_block_pivot` gives for
/// `v^T B v`.
pub open spec fn step_pivot(rows: Seq<MatrixRow>, ncols: nat, v: Seq<u64>, mask: u64, inv: Seq<u64>) -> bool {
    let p = block_pivot(inner_words(v, gram_words(rows, ncols, v)));
    mask == p.0 && inv == p.1
}

/// The number of steps after which a run stops when no step has an empty pivot set.
pub open spec fn max_steps(m: nat) -> nat {
    2 * (m / 64 + if m % 64 != 0 {
        1nat
    } else {
        0nat
    }) + 74
}

/// The first `n` steps of a run seeded with `seed`: step `k` scans `vs[k]`, the block that
/// the steps before it give, and `gf2_block_pivot` turns `vs[k]^T B vs[k]` into `masks[k]`
/// and `invs[k]`.
#[verifier::opaque]
pub open spec fn lanczos_steps(
    rows: Seq<MatrixRow>,
    ncols: nat,
    seed: u64,
    vs: Seq<Seq<u64>>,
    masks: Seq<u64>,
    invs: Seq<Seq<u64>>,
    n: int,
) -> bool {
    &&& vs.len() == n
    &&& masks.len() == n
    &&& invs.len() == n
    &&& forall|k: int| 0 <= k < n ==> #[trigger] vs[k] == expected_block(rows, ncols, seed, vs, masks, invs, k)
    &&& forall|k: int| 0 <= k < n ==> #[trigger] step_pivot(rows, ncols, vs[k], masks[k], invs[k])
}

/// A whole run seeded with `seed`: it stops after the first step with an empty pivot set,
/// or after `max_steps` steps.
pub open spec fn lanczos_run(
    rows: Seq<MatrixRow>,
    ncols: nat,
    seed: u64,
    vs: Seq<Seq<u64>>,
    masks: Seq<u64>,
    invs: Seq<Seq<u64>>,
) -> bool {
    let n = masks.len() as int;
    &&& lanczos_steps(rows, ncols, seed, vs, masks, invs, n)
    &&& 1 <= n <= max_steps(rows.len())
    &&& forall|k: int| 0 <= k < n - 1 ==> #[trigger] masks[k] != 0u64
    &&& (masks[n - 1] == 0u64 || n == max_steps(rows.len()))
}

/// `acc` with a found row set appended, unless it repeats the last entry.
pub open spec fn push_found(acc: Seq<Seq<usize>>, found: Option<Seq<usize>>) -> Seq<Seq<usize>> {
    match found {
        Some(idx) => if acc.len() > 0 && acc.last() == idx {
            acc
        } else {
            acc.push(idx)
        },
        None => acc,
    }
}

/// `acc` after the kernel vectors among the first `j` vectors of the block `v` whose
/// columns lie outside `mask`.
pub open spec fn scan_columns(
    rows: Seq<MatrixRow>,
    ncols: nat,
    acc: Seq<Seq<usize>>,
    v: Seq<u64>,
    mask: u64,
    j: int,
) -> Seq<Seq<usize>>
    decreases j,
{
    if j <= 0 {
        acc
    } else {
        let prev = scan_columns(rows, ncols, acc, v, mask, j - 1);
        if bit(mask, (j - 1) as u64) {
            prev
        } else {
            push_found(prev, column_kernel(rows, ncols, v, j - 1))
        }
    }
}

/// The row sets reported over the first `k` steps of a run with blocks `vs` and pivot masks
/// `masks`.
pub open spec fn scan_steps(rows: Seq<MatrixRow>, ncols: nat, vs: Seq<Seq<u64>>, masks: Seq<u64>, k: int) -> Seq<
    Seq<usize>,
>
    decreases k,
{
    if k <= 0 {
        Seq::empty()
    } else {
        scan_columns(rows, ncols, scan_steps(rows, ncols, vs, masks, k - 1), vs[k - 1], masks[k - 1], 64)
    }
}

/// What the first `k` steps report depends only on their blocks and masks.
proof fn lemma_scan_steps_prefix(
    rows: Seq<MatrixRow>,
    ncols: nat,
    vs: Seq<Seq<u64>>,
    masks: Seq<u64>,
    vs2: Seq<Seq<u64>>,
    masks2: Seq<u64>,
    k: int,
)
    requires
        forall|i: int| 0 <= i < k ==> #[trigger] vs[i] == vs2[i] && masks[i] == masks2[i],
    ensures
        scan_steps(rows, ncols, vs, masks, k) == scan_steps(rows, ncols, vs2, masks2, k),
    decreases k,
{
    if k > 0 {
        assert(vs[k - 1] == vs2[k - 1] && masks[k - 1] == masks2[k - 1]);
        lemma_scan_steps_prefix(rows, ncols, vs, masks, vs2, masks2, k - 1);
    }
}

/// One more step keeps a run's earlier steps, and the block after it follows from it and
/// the step before.
proof fn lemma_steps_extend(
    rows: Seq<MatrixRow>,
    ncols: nat,
    seed: u64,
    vs: Seq<Seq<u64>>,
    masks: Seq<u64>,
    invs: Seq<Seq<u64>>,
    n: int,
    v: Seq<u64>,
    mask: u64,
    inv: Seq<u64>,
)
    requires
        n >= 0,
        lanczos_steps(rows, ncols, seed, vs, masks, invs, n),
        v == expected_block(rows, ncols, seed, vs, masks, invs, n),
        step_pivot(rows, ncols, v, mask, inv),
    ensures
        lanczos_steps(rows, ncols, seed, vs.push(v), masks.push(mask), invs.push(inv), n + 1),
        expected_block(rows, ncols, seed, vs.push(v), masks.push(mask), invs.push(inv), n + 1) == lanczos_next(
            rows,
            ncols,
            v,
            prev_block(vs, rows.len(), n),
            prev_inv(invs, n),
            prev_mask(masks, n),
            mask,
            inv,
        ),
        prev_block(vs.push(v), rows.len(), n + 1) == v,
        prev_inv(invs.push(inv), n + 1) == inv,
        prev_mask(masks.push(mask), n + 1) == mask,
        scan_steps(rows, ncols, vs.push(v), masks.push(mask), n) == scan_steps(rows, ncols, vs, masks, n),
{
    reveal(lanczos_steps);
    let vs2 = vs.push(v);
    let masks2 = masks.push(mask);
    let invs2 = invs.push(inv);
    assert forall|k: int| 0 <= k < n + 1 implies #[trigger] vs2[k] == expected_block(rows, ncols, seed, vs2, masks2, invs2, k) by {
        if k < n {
            assert(vs2[k] == vs[k]);
            assert(vs[k] == expected_block(rows, ncols, seed, vs, masks, invs, k));
            if k > 0 {
                assert(vs2[k - 1] == vs[k - 1]);
                assert(masks2[k - 1] == masks[k - 1]);
                assert(invs2[k - 1] == invs[k - 1]);
                if k > 1 {
                    assert(vs2[k - 2] == vs[k - 2]);
                    assert(masks2[k - 2] == masks[k - 2]);
                    assert(invs2[k - 2] == invs[k - 2]);
                }
                assert(prev_block(vs2, rows.len(), k - 1) == prev_block(vs, rows.len(), k - 1));
                assert(prev_inv(invs2, k - 1) == prev_inv(invs, k - 1));
                assert(prev_mask(masks2, k - 1) == prev_mask(masks, k - 1));
            }
        } else {
            if n > 0 {
                assert(vs2[n - 1] == vs[n - 1]);
                assert(masks2[n - 1] == masks[n - 1]);
                assert(invs2[n - 1] == invs[n - 1]);
                if n > 1 {
                    assert(vs2[n - 2] == vs[n - 2]);
                    assert(masks2[n - 2] == masks[n - 2]);
                    assert(invs2[n - 2] == invs[n - 2]);
                }
                assert(prev_block(vs2, rows.len(), n - 1) == prev_block(vs, rows.len(), n - 1));
                assert(prev_inv(invs2, n - 1) == prev_inv(invs, n - 1));
                assert(prev_mask(masks2, n - 1) == prev_mask(masks, n - 1));
            }
        }
    }
    assert forall|k: int| 0 <= k < n + 1 implies #[trigger] step_pivot(rows, ncols, vs2[k], masks2[k], invs2[k]) by {
        if k < n {
            assert(vs2[k] == vs[k] && masks2[k] == masks[k] && invs2[k] == invs[k]);
            assert(step_pivot(rows, ncols, vs[k], masks[k], invs[k]));
        }
    }
    if n > 0 {
        assert(vs2[n - 1] == vs[n - 1]);
        assert(masks2[n - 1] == masks[n - 1]);
        assert(invs2[n - 1] == invs[n - 1]);
    }
    assert(prev_block(vs2, rows.len(), n) == prev_block(vs, rows.len(), n));
    lemma_scan_steps_prefix(rows, ncols, vs2, masks2, vs, masks, n);
}

/// Append `kv` unless it repeats the last entry of `results`.
fn push_unless_repeat(results: &mut Vec<KernelVector>, kv: KernelVector)
    ensures
        final(results)@ == if old(results)@.len() > 0 && old(results)@.last().row_indices@ == kv.row_indices@ {
            old(results)@
        } else {
            old(results)@.push(kv)
        },
{
    let n = results.len();
    if n > 0 && same_indices(&results[n - 1].row_indices, &kv.row_indices) {
        return;
    }
    results.push(kv);
}

/// Report into `results` the kernel vectors among the vectors of `v_cur` outside
/// `active_mask`, in column order, each dropped when it repeats the entry before.
fn scan_inactive(op: &MatrixOperator<'_>, v_cur: &BlockVec, active_mask: u64, results: &mut Vec<KernelVector>)
    requires
        v_cur.wf(),
        v_cur.num_rows == op.rows().len(),
        cols_in_range(op.rows(), op.ncols()),
        all_kernel_vectors(op.rows(), op.ncols(), old(results)@),
        forall|k: int|
            0 < k < old(results)@.len() ==> old(results)@[k - 1].row_indices@ != #[trigger] old(results)@[k].row_indices@,
    ensures
        all_kernel_vectors(op.rows(), op.ncols(), final(results)@),
        forall|k: int|
            0 < k < final(results)@.len() ==> final(results)@[k - 1].row_indices@
                != #[trigger] final(results)@[k].row_indices@,
        found_rows(final(results)@) == scan_columns(
            op.rows(),
            op.ncols(),
            found_rows(old(results)@),
            v_cur.data@,
            active_mask,
            64,
        ),
{
    let ghost rows = op.rows();
    let ghost ncols = op.ncols();
    let ghost m = rows.len();
    let ghost acc0 = found_rows(results@);
    let inactive_mask = !active_mask;
    let mut j: usize = 0;
    while j < BLOCK_WIDTH
        invariant
            j <= 64,
            rows == op.rows(),
            ncols == op.ncols(),
            m == rows.len(),
            cols_in_range(rows, ncols),
            v_cur.wf(),
            v_cur.num_rows == m,
            inactive_mask == !active_mask,
            all_kernel_vectors(rows, ncols, results@),
            forall|k: int| 0 < k < results@.len() ==> results@[k - 1].row_indices@ != #[trigger] results@[k].row_indices@,
            found_rows(results@) == scan_columns(rows, ncols, acc0, v_cur.data@, active_mask, j as int),
        decreases 64 - j,
    {
        proof {
            lemma_bit_not(active_mask, j as u64);
        }
        if (inactive_mask >> (j as u64)) & 1u64 == 1u64 {
            let found = kernel_from_column(op, v_cur, j);
            if let Some(kv) = found {
                let ghost before = results@;
                push_unless_repeat(results, kv);
                proof {
                    if before.len() > 0 {
                        assert(found_rows(before).last() == before.last().row_indices@);
                    }
                    if results@.len() > before.len() {
                        assert(found_rows(results@) =~= found_rows(before).push(kv.row_indices@));
                        assert forall|k: int| 0 <= k < results@.len() implies #[trigger] is_kernel_vector(rows, ncols, results@[k]) by {
                            if k < before.len() {
                                assert(results@[k] == before[k]);
                            }
                        }
                        assert forall|k: int| 0 < k < results@.len() implies results@[k - 1].row_indices@ != #[trigger] results@[k].row_indices@ by {
                            if k < before.len() {
                                assert(results@[k] == before[k]);
                                assert(results@[k - 1] == before[k - 1]);
                            }
                        }
                    }
                }
            }
        }
        j = j + 1;
    }
}

/// The block after `v_cur`, with `w_cur = B v_cur`, pivot mask `active_mask` and inverse
/// `s_inv`, when the block before it was `v_prev`, with `active_mask_prev` and `s_prev_inv`.
fn next_block(
    op: &MatrixOperator<'_>,
    v_cur: &BlockVec,
    v_prev: &BlockVec,
    w_cur: &BlockVec,
    s_inv: [u64; BLOCK_WIDTH],
    s_prev_inv: [u64; BLOCK_WIDTH],
    active_mask: u64,
    active_mask_prev: u64,
) -> (r: BlockVec)
    requires
        cols_in_range(op.rows(), op.ncols()),
        v_cur.wf(),
        v_cur.num_rows == op.rows().len(),
        v_prev.wf(),
        v_prev.num_rows == op.rows().len(),
        w_cur.wf(),
        w_cur.num_rows == op.rows().len(),
        w_cur.data@ == gram_words(op.rows(), op.ncols(), v_cur.data@),
    ensures
        r.wf(),
        r.num_rows == op.rows().len(),
        r.data@ == lanczos_next(
            op.rows(),
            op.ncols(),
            v_cur.data@,
            v_prev.data@,
            s_prev_inv@,
            active_mask_prev,
            active_mask,
            s_inv@,
        ),
{
    let ghost rows = op.rows();
    let ghost ncols = op.ncols();
    let at_w = op.apply_transpose(w_cur);
    assert(at_w.data@ =~= transpose_words(rows, ncols, w_cur.data@));
    let bw_cur = op.apply(&at_w);
    assert(bw_cur.data@ =~= apply_words(rows, at_w.data@));
    let alpha_raw = v_cur.inner_product_matrix(&bw_cur);
    let alpha = gf2_matmul_block(s_inv, alpha_raw, active_mask);
    let beta_raw = v_prev.inner_product_matrix(w_cur);
    let beta = gf2_matmul_block(s_prev_inv, beta_raw, active_mask_prev);
    proof {
        assert(alpha_raw@ =~= inner_words(v_cur.data@, gram_words(rows, ncols, w_cur.data@)));
        assert(alpha@ =~= masked_product(s_inv@, alpha_raw@, active_mask));
        assert(beta_raw@ =~= inner_words(v_prev.data@, w_cur.data@));
        assert(beta@ =~= masked_product(s_prev_inv@, beta_raw@, active_mask_prev));
    }
    let mut v_next = w_cur.duplicate();
    block_vec_sub_matmul(&mut v_next, v_cur, alpha);
    block_vec_sub_matmul(&mut v_next, v_prev, beta);
    zero_inactive_columns(&mut v_next, active_mask);
    reveal(lanczos_next);
    assert(v_next.data@ =~= lanczos_next(
        rows,
        ncols,
        v_cur.data@,
        v_prev.data@,
        s_prev_inv@,
        active_mask_prev,
        active_mask,
        s_inv@,
    ));
    v_next
}

/// Montgomery's block Lanczos iteration on `B = A * A^T`, seeded by `rng_seed`: the kernel
/// vectors found among the columns that leave the active set, with repeats of the previous
/// entry dropped.
///
/// Every vector returned is a nonempty sorted set of rows of `A` summing to zero over GF(2).
/// On a nonempty matrix, the row sets returned are those that the scan of a run reports: at
/// each step, the vectors of the block outside the step's pivot set whose rows sum to zero,
/// in column order, each dropped when it repeats the entry before.
pub fn block_lanczos(op: &MatrixOperator<'_>, rng_seed: u64) -> (r: Vec<KernelVector>)
    requires
        cols_in_range(op.rows(), op.ncols()),
    ensures
        all_kernel_vectors(op.rows(), op.ncols(), r@),
        forall|k: int| 0 < k < r@.len() ==> r@[k - 1].row_indices@ != #[trigger] r@[k].row_indices@,
        (op.rows().len() == 0 || op.ncols() == 0) ==> r@.len() == 0,
        (op.rows().len() > 0 && op.ncols() > 0) ==> exists|vs: Seq<Seq<u64>>, masks: Seq<u64>, invs: Seq<Seq<u64>>|
            #[trigger] lanczos_run(op.rows(), op.ncols(), rng_seed, vs, masks, invs) && found_rows(r@) == scan_steps(
                op.rows(),
                op.ncols(),
                vs,
                masks,
                masks.len() as int,
            ),
{
    let m = op.num_rows();
    if m == 0 || op.num_cols() == 0 {
        return Vec::new();
    }
    let ghost rows = op.rows();
    let ghost ncols = op.ncols();
    let mut v_cur = random_block_vec(m, rng_seed);
    let mut v_prev = BlockVec::zeros(m);
    let mut s_prev_inv = [0u64; BLOCK_WIDTH];
    let mut active_mask_prev: u64 = 0;
    let mut results: Vec<KernelVector> = Vec::new();
    let blocks: usize = m / BLOCK_WIDTH + if m % BLOCK_WIDTH != 0 {
        1
    } else {
        0
    };
    let max_iter: usize = 2 * blocks + BLOCK_WIDTH + 10;
    let mut iter: usize = 0;
    let mut done = false;
    let ghost mut vs: Seq<Seq<u64>> = Seq::empty();
    let ghost mut masks: Seq<u64> = Seq::empty();
    let ghost mut invs: Seq<Seq<u64>> = Seq::empty();
    proof {
        assert(v_cur.data@ =~= start_block(m as nat, rng_seed));
        assert(s_prev_inv@ =~= prev_inv(invs, 0));
        assert(found_rows(results@) =~= scan_steps(rows, ncols, vs, masks, 0));
        reveal(lanczos_steps);
    }
    while iter < max_iter && !done
        invariant
            rows == op.rows(),
            ncols == op.ncols(),
            m == rows.len(),
            m > 0,
            cols_in_range(rows, ncols),
            max_iter == max_steps(m as nat),
            iter <= max_iter,
            v_cur.wf(),
            v_cur.num_rows == m,
            v_prev.wf(),
            v_prev.num_rows == m,
            all_kernel_vectors(rows, ncols, results@),
            forall|k: int| 0 < k < results@.len() ==> results@[k - 1].row_indices@ != #[trigger] results@[k].row_indices@,
            lanczos_steps(rows, ncols, rng_seed, vs, masks, invs, iter as int),
            vs.len() == iter,
            masks.len() == iter,
            invs.len() == iter,
            forall|k: int| 0 <= k < iter - 1 ==> #[trigger] masks[k] != 0u64,
            done ==> iter > 0 && masks[iter - 1] == 0u64,
            !done ==> iter > 0 ==> masks[iter - 1] != 0u64,
            !done ==> v_cur.data@ == expected_block(rows, ncols, rng_seed, vs, masks, invs, iter as int),
            !done ==> v_prev.data@ == prev_block(vs, m as nat, iter as int),
            !done ==> s_prev_inv@ == prev_inv(invs, iter as int),
            !done ==> active_mask_prev == prev_mask(masks, iter as int),
            found_rows(results@) == scan_steps(rows, ncols, vs, masks, iter as int),
        decreases max_iter - iter,
    {
        let at_v = op.apply_transpose(&v_cur);
        assert(at_v.data@ =~= transpose_words(rows, ncols, v_cur.data@));
        let w_cur = op.apply(&at_v);
        assert(w_cur.data@ =~= apply_words(rows, at_v.data@));
        let s = v_cur.inner_product_matrix(&w_cur);
        let (active_mask, s_inv) = gf2_block_pivot(s);
        proof {
            assert(s@ =~= inner_words(v_cur.data@, w_cur.data@));
            lemma_steps_extend(rows, ncols, rng_seed, vs, masks, invs, iter as int, v_cur.data@, active_mask, s_inv@);
        }
        scan_inactive(op, &v_cur, active_mask, &mut results);
        proof {
            let old_masks = masks;
            vs = vs.push(v_cur.data@);
            masks = masks.push(active_mask);
            invs = invs.push(s_inv@);
            assert forall|k: int| 0 <= k < iter implies #[trigger] masks[k] != 0u64 by {
                assert(masks[k] == old_masks[k]);
            }
        }
        if active_mask == 0 {
            done = true;
        } else {
            let v_next = next_block(op, &v_cur, &v_prev, &w_cur, s_inv, s_prev_inv, active_mask, active_mask_prev);
            v_prev = v_cur;
            s_prev_inv = s_inv;
            active_mask_prev = active_mask;
            v_cur = v_next;
        }
        iter = iter + 1;
    }
    proof {
        assert(lanczos_run(rows, ncols, rng_seed, vs, masks, invs));
    }
    results
}

} // verus!
