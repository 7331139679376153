//! Kernel vectors: a set of matrix rows, kept as sorted row indices, whose GF(2) sum is zero.

use vstd::prelude::*;
use crate::filter::matrix::{row_wf, symdiff_vec, MatrixRow, SparseMatrix};
use crate::filter::provenance::{lemma_hits_union, lemma_prov_count_two, prov_hits, provenance_consistent, sums_provenance};
use crate::filter::seqs::{
    count_in, lemma_count_sorted, lemma_count_take_step, lemma_merge_symdiff, lemma_merge_union, lemma_sorted_drop_first,
    lemma_contains_split, lemma_sorted_head_min, merge_symdiff, merge_union, strictly_sorted,
};
use crate::linalg::bits::{bit, lemma_bit_unit, lemma_bit_xor, lemma_bit_zero, lemma_zero_iff_no_bit};
use crate::linalg::operator::cols_in_range;

verus! {

/// Total occurrences of column `c` over the selected rows `idx`.
pub open spec fn sel_count(rows: Seq<MatrixRow>, idx: Seq<usize>, c: usize) -> nat
    decreases idx.len(),
{
    if idx.len() == 0 {
        0
    } else {
        sel_count(rows, idx.drop_last(), c) + count_in(rows[idx.last() as int].cols@, c)
    }
}

/// The selected rows sum to zero over GF(2): every column occurs an even number of times.
pub open spec fn is_left_null(rows: Seq<MatrixRow>, idx: Seq<usize>, num_cols: nat) -> bool {
    &&& forall|k: int| 0 <= k < idx.len() ==> #[trigger] idx[k] < rows.len()
    &&& forall|c: usize| c < num_cols ==> #[trigger] sel_count(rows, idx, c) % 2 == 0
}

/// Symmetric difference of the provenance lists of the selected rows, folded left to right.
pub open spec fn prov_fold(rows: Seq<MatrixRow>, idx: Seq<usize>) -> Seq<usize>
    decreases idx.len(),
{
    if idx.len() == 0 {
        Seq::empty()
    } else {
        merge_symdiff(prov_fold(rows, idx.drop_last()), rows[idx.last() as int].provenance@)
    }
}

/// Indices `i < mask.len()` with `mask[i]` set, in increasing order.
pub open spec fn mask_indices(mask: Seq<bool>) -> Seq<usize>
    decreases mask.len(),
{
    if mask.len() == 0 {
        Seq::empty()
    } else if mask.last() {
        mask_indices(mask.drop_last()).push((mask.len() - 1) as usize)
    } else {
        mask_indices(mask.drop_last())
    }
}

/// Two strictly increasing lists holding the same values are equal.
proof fn lemma_sorted_same_elems(a: Seq<usize>, b: Seq<usize>)
    requires
        strictly_sorted(a),
        strictly_sorted(b),
        forall|x: usize| #[trigger] a.contains(x) <==> b.contains(x),
    ensures
        a == b,
    decreases a.len(),
{
    if a.len() == 0 {
        if b.len() > 0 {
            assert(b.contains(b[0]));
            assert(a.contains(b[0]));
        }
        assert(a =~= b);
    } else {
        assert(a.contains(a[0]));
        assert(b.contains(a[0]));
        assert(b.contains(b[0]));
        assert(a.contains(b[0]));
        lemma_sorted_head_min(a, b[0]);
        lemma_sorted_head_min(b, a[0]);
        lemma_sorted_drop_first(a);
        lemma_sorted_drop_first(b);
        assert forall|x: usize| #[trigger] a.drop_first().contains(x) <==> b.drop_first().contains(x) by {
            lemma_contains_split(a, x);
            lemma_contains_split(b, x);
            if a.drop_first().contains(x) {
                let k = choose|k: int| 0 <= k < a.drop_first().len() && a.drop_first()[k] == x;
                assert(a[0] < a.drop_first()[k]);
            }
            if b.drop_first().contains(x) {
                let k = choose|k: int| 0 <= k < b.drop_first().len() && b.drop_first()[k] == x;
                assert(b[0] < b.drop_first()[k]);
            }
        }
        lemma_sorted_same_elems(a.drop_first(), b.drop_first());
        assert(a =~= seq![a[0]] + a.drop_first());
        assert(b =~= seq![b[0]] + b.drop_first());
    }
}

/// Along the selected rows, the folded provenance is sorted, comes from the selected rows,
/// and hits each column as often, mod 2, as the selected rows hold it.
proof fn lemma_prov_fold_hits(rows: Seq<MatrixRow>, idx: Seq<usize>, orig: Seq<Seq<usize>>, num_cols: nat)
    requires
        forall|i: int| 0 <= i < rows.len() ==> row_wf(#[trigger] rows[i], num_cols),
        provenance_consistent(rows, orig),
        strictly_sorted(idx),
        forall|k: int| 0 <= k < idx.len() ==> #[trigger] idx[k] < rows.len(),
    ensures
        strictly_sorted(prov_fold(rows, idx)),
        forall|x: usize|
            #[trigger] prov_fold(rows, idx).contains(x) ==> exists|k: int|
                0 <= k < idx.len() && (#[trigger] rows[idx[k] as int]).provenance@.contains(x),
        forall|c: usize| #[trigger] prov_hits(orig, prov_fold(rows, idx), c) % 2 == sel_count(rows, idx, c) % 2,
    decreases idx.len(),
{
    if idx.len() == 0 {
        assert forall|c: usize| #[trigger] prov_hits(orig, prov_fold(rows, idx), c) % 2 == sel_count(rows, idx, c) % 2 by {}
    } else {
        let prev = idx.drop_last();
        let last = idx.last();
        lemma_prov_fold_hits(rows, prev, orig, num_cols);
        let p = prov_fold(rows, prev);
        let r = rows[last as int];
        let q = r.provenance@;
        assert(row_wf(r, num_cols));
        assert forall|x: usize| !(p.contains(x) && q.contains(x)) by {
            if p.contains(x) && q.contains(x) {
                let k = choose|k: int| 0 <= k < prev.len() && (#[trigger] rows[prev[k] as int]).provenance@.contains(x);
                assert(prev[k] == idx[k]);
                assert(idx[k] < idx[idx.len() - 1]);
                lemma_prov_count_two(rows, idx[k] as int, last as int, x);
            }
        }
        lemma_merge_symdiff(p, q);
        lemma_merge_union(p, q);
        assert forall|x: usize| #[trigger] merge_symdiff(p, q).contains(x) <==> merge_union(p, q).contains(x) by {}
        lemma_sorted_same_elems(merge_symdiff(p, q), merge_union(p, q));
        assert(prov_fold(rows, idx) == merge_symdiff(p, q));
        assert forall|x: usize| #[trigger] prov_fold(rows, idx).contains(x) implies exists|k: int|
            0 <= k < idx.len() && (#[trigger] rows[idx[k] as int]).provenance@.contains(x) by {
            if p.contains(x) {
                let k = choose|k: int| 0 <= k < prev.len() && (#[trigger] rows[prev[k] as int]).provenance@.contains(x);
                assert(prev[k] == idx[k]);
            } else {
                assert(idx[idx.len() - 1] == last);
            }
        }
        assert forall|c: usize| #[trigger] prov_hits(orig, prov_fold(rows, idx), c) % 2 == sel_count(rows, idx, c) % 2 by {
            lemma_hits_union(orig, p, q, c);
            lemma_count_sorted(r.cols@, c);
            assert(sums_provenance(orig, r));
            assert(r.cols@.contains(c) <==> prov_hits(orig, q, c) % 2 == 1);
            assert(prov_hits(orig, p, c) % 2 == sel_count(rows, prev, c) % 2);
        }
    }
}

/// Selected rows that do not hold column `c` hold it zero times.
proof fn lemma_sel_count_absent(rows: Seq<MatrixRow>, idx: Seq<usize>, c: usize, num_cols: nat)
    requires
        c >= num_cols,
        forall|i: int| 0 <= i < rows.len() ==> row_wf(#[trigger] rows[i], num_cols),
        forall|k: int| 0 <= k < idx.len() ==> #[trigger] idx[k] < rows.len(),
    ensures
        sel_count(rows, idx, c) == 0,
    decreases idx.len(),
{
    if idx.len() > 0 {
        lemma_sel_count_absent(rows, idx.drop_last(), c, num_cols);
        let r = rows[idx.last() as int];
        assert(idx[idx.len() - 1] < rows.len());
        assert(row_wf(r, num_cols));
        lemma_count_sorted(r.cols@, c);
        if r.cols@.contains(c) {
            let k = choose|k: int| 0 <= k < r.cols@.len() && r.cols@[k] == c;
            assert(r.cols@[k] < num_cols);
        }
    }
}

/// A kernel vector of a matrix whose rows are sums of original rows expands to a set of
/// original rows that sums to zero over GF(2): every column is hit an even number of times by
/// the original rows that `expand_provenance` returns. This is what makes the expanded set a
/// congruence of squares.
pub proof fn lemma_kernel_provenance_even(m: SparseMatrix, idx: Seq<usize>, orig: Seq<Seq<usize>>)
    requires
        m.wf(),
        provenance_consistent(m.rows@, orig),
        strictly_sorted(idx),
        is_left_null(m.rows@, idx, m.num_cols as nat),
    ensures
        forall|c: usize| #[trigger] prov_hits(orig, prov_fold(m.rows@, idx), c) % 2 == 0,
{
    lemma_prov_fold_hits(m.rows@, idx, orig, m.num_cols as nat);
    assert forall|c: usize| #[trigger] prov_hits(orig, prov_fold(m.rows@, idx), c) % 2 == 0 by {
        if c >= m.num_cols {
            lemma_sel_count_absent(m.rows@, idx, c, m.num_cols as nat);
        }
        assert(prov_hits(orig, prov_fold(m.rows@, idx), c) % 2 == sel_count(m.rows@, idx, c) % 2);
    }
}

/// A vector in the left nullspace of the matrix, as sorted row indices.
#[derive(Debug, Clone, PartialEq, Eq)]
pub struct KernelVector {
    /// Sorted, deduplicated row indices into the filtered matrix.
    pub row_indices: Vec<usize>,
}

impl KernelVector {
    /// Wrap a strictly increasing list of row indices.
    pub fn new(row_indices: Vec<usize>) -> (r: Self)
        requires
            strictly_sorted(row_indices@),
        ensures
            r.row_indices@ == row_indices@,
    {
        KernelVector { row_indices }
    }

    /// The rows whose mask bit is set, in increasing order.
    pub fn from_mask(mask: &[bool]) -> (r: Self)
        ensures
            r.row_indices@ == mask_indices(mask@),
            strictly_sorted(r.row_indices@),
            forall|i: usize| #[trigger] r.row_indices@.contains(i) <==> (i < mask@.len() && mask@[i as int]),
    {
        let mut row_indices: Vec<usize> = Vec::new();
        let mut i: usize = 0;
        while i < mask.len()
            invariant
                i <= mask@.len(),
                strictly_sorted(row_indices@),
                forall|k: int| 0 <= k < row_indices@.len() ==> #[trigger] row_indices@[k] < i,
                forall|x: usize| #[trigger] row_indices@.contains(x) <==> (x < i && mask@[x as int]),
                row_indices@ == mask_indices(mask@.take(i as int)),
            decreases mask@.len() - i,
        {
            assert(mask@.take(i as int + 1).drop_last() =~= mask@.take(i as int));
            if mask[i] {
                let ghost before = row_indices@;
                row_indices.push(i);
                proof {
                    assert forall|x: usize| #[trigger] row_indices@.contains(x) <==> (x < i + 1
                        && mask@[x as int]) by {
                        if x == i {
                            assert(row_indices@[before.len() as int] == x);
                        }
                        if row_indices@.contains(x) && x != i {
                            let k = choose|k: int| 0 <= k < row_indices@.len() && row_indices@[k] == x;
                            assert(before[k] == x);
                            assert(before.contains(x));
                        }
                        if x < i && mask@[x as int] {
                            assert(before.contains(x));
                            let k = choose|k: int| 0 <= k < before.len() && before[k] == x;
                            assert(row_indices@[k] == x);
                        }
                    }
                }
            } else {
                assert forall|x: usize| #[trigger] row_indices@.contains(x) <==> (x < i + 1
                    && mask@[x as int]) by {
                    if x == i && row_indices@.contains(x) {
                        let k = choose|k: int| 0 <= k < row_indices@.len() && row_indices@[k] == x;
                    }
                }
            }
            i = i + 1;
        }
        assert(mask@.take(i as int) =~= mask@);
        KernelVector { row_indices }
    }

    /// Whether the selected rows are rows of `matrix` summing to zero over GF(2).
    pub fn verify(&self, matrix: &SparseMatrix) -> (ok: bool)
        requires
            cols_in_range(matrix.rows@, matrix.num_cols as nat),
            matrix.num_cols + 63 <= usize::MAX,
        ensures
            ok == is_left_null(matrix.rows@, self.row_indices@, matrix.num_cols as nat),
    {
        let num_cols = matrix.num_cols;
        let words = (num_cols + 63) / 64;
        let mut bits: Vec<u64> = Vec::with_capacity(words);
        let mut w: usize = 0;
        while w < words
            invariant
                w <= words,
                bits@ == Seq::new(w as nat, |k: int| 0u64),
            decreases words - w,
        {
            bits.push(0u64);
            w = w + 1;
        }
        let ghost rows = matrix.rows@;
        let ghost idx = self.row_indices@;
        proof {
            assert forall|c: usize| c < words * 64 implies !#[trigger] bit(bits@[c as int / 64], (c % 64) as u64) by {
                lemma_bit_zero((c % 64) as u64);
            }
        }
        let n = self.row_indices.len();
        let mut t: usize = 0;
        while t < n
            invariant
                n == idx.len(),
                idx == self.row_indices@,
                rows == matrix.rows@,
                num_cols == matrix.num_cols,
                words == (num_cols + 63) / 64,
                bits@.len() == words,
                t <= n,
                cols_in_range(rows, num_cols as nat),
                forall|k: int| 0 <= k < t ==> #[trigger] idx[k] < rows.len(),
                forall|c: usize| c < words * 64 ==> #[trigger] bit(bits@[c as int / 64], (c % 64) as u64)
                    == (c < num_cols && sel_count(rows, idx.take(t as int), c) % 2 == 1),
            decreases n - t,
        {
            let i = self.row_indices[t];
            if i >= matrix.rows.len() {
                return false;
            }
            let row = &matrix.rows[i];
            let m = row.cols.len();
            let mut k: usize = 0;
            while k < m
                invariant
                    m == row.cols@.len(),
                    *row == rows[i as int],
                    i < rows.len(),
                    n == idx.len(),
                    t < n,
                    idx[t as int] == i,
                    num_cols == matrix.num_cols,
                    rows == matrix.rows@,
                    words == (num_cols + 63) / 64,
                    bits@.len() == words,
                    k <= m,
                    cols_in_range(rows, num_cols as nat),
                    forall|c: usize| c < words * 64 ==> #[trigger] bit(bits@[c as int / 64], (c % 64) as u64)
                        == (c < num_cols && (sel_count(rows, idx.take(t as int), c) + count_in(
                        row.cols@.take(k as int),
                        c,
                    )) % 2 == 1),
                decreases m - k,
            {
                let c = row.cols[k];
                assert(c < num_cols);
                let wi = c / 64;
                let sh = (c % 64) as u64;
                let nw = bits[wi] ^ (1u64 << sh);
                proof {
                    assert forall|c2: usize| c2 < words * 64 implies #[trigger] bit(
                        bits@.update(wi as int, nw)[c2 as int / 64],
                        (c2 % 64) as u64,
                    ) == (c2 < num_cols && (sel_count(rows, idx.take(t as int), c2) + count_in(
                        row.cols@.take(k as int + 1),
                        c2,
                    )) % 2 == 1) by {
                        lemma_count_take_step(row.cols@, k as int, c2);
                        if c2 as int / 64 == wi as int {
                            lemma_bit_xor(bits@[wi as int], 1u64 << sh, (c2 % 64) as u64);
                            lemma_bit_unit(sh, (c2 % 64) as u64);
                        }
                    }
                }
                bits.set(wi, nw);
                k = k + 1;
            }
            proof {
                assert(row.cols@.take(m as int) =~= row.cols@);
                assert(idx.take(t as int + 1).drop_last() =~= idx.take(t as int));
            }
            t = t + 1;
        }
        proof {
            assert(idx.take(n as int) =~= idx);
        }
        let mut w: usize = 0;
        while w < words
            invariant
                w <= words,
                bits@.len() == words,
                n == idx.len(),
                idx == self.row_indices@,
                rows == matrix.rows@,
                num_cols == matrix.num_cols,
                words == (num_cols + 63) / 64,
                forall|k: int| 0 <= k < n ==> #[trigger] idx[k] < rows.len(),
                forall|c: usize| c < words * 64 ==> #[trigger] bit(bits@[c as int / 64], (c % 64) as u64)
                    == (c < num_cols && sel_count(rows, idx, c) % 2 == 1),
                forall|k: int| 0 <= k < w ==> bits@[k] == 0u64,
            decreases words - w,
        {
            if bits[w] != 0 {
                proof {
                    lemma_zero_iff_no_bit(bits@[w as int]);
                    let j = choose|j: u64| j < 64 && bit(bits@[w as int], j);
                    let ci: int = w * 64 + j;
                    assert(ci < words * 64);
                    let c = ci as usize;
                    assert(c as int / 64 == w as int);
                    assert(c % 64 == j);
                    assert(bit(bits@[c as int / 64], (c % 64) as u64));
                    assert(sel_count(rows, idx, c) % 2 == 1);
                }
                return false;
            }
            w = w + 1;
        }
        proof {
            assert forall|c: usize| c < num_cols implies #[trigger] sel_count(rows, idx, c) % 2 == 0 by {
                lemma_zero_iff_no_bit(bits@[c as int / 64]);
                assert(!bit(bits@[c as int / 64], (c % 64) as u64));
            }
        }
        true
    }

    /// The symmetric difference of the provenance lists of the selected rows: the original
    /// relations whose product gives the congruence of squares.
    pub fn expand_provenance(&self, matrix: &SparseMatrix) -> (r: Vec<usize>)
        requires
            forall|k: int| 0 <= k < self.row_indices@.len() ==> #[trigger] self.row_indices@[k] < matrix.rows@.len(),
        ensures
            r@ == prov_fold(matrix.rows@, self.row_indices@),
            matrix.wf() ==> strictly_sorted(r@),
    {
        let mut result: Vec<usize> = Vec::new();
        let n = self.row_indices.len();
        let mut t: usize = 0;
        while t < n
            invariant
                n == self.row_indices@.len(),
                t <= n,
                forall|k: int| 0 <= k < self.row_indices@.len() ==> #[trigger] self.row_indices@[k] < matrix.rows@.len(),
                result@ == prov_fold(matrix.rows@, self.row_indices@.take(t as int)),
                matrix.wf() ==> strictly_sorted(result@),
            decreases n - t,
        {
            let i = self.row_indices[t];
            proof {
                if matrix.wf() {
                    assert(row_wf(matrix.rows@[i as int], matrix.num_cols as nat));
                    lemma_merge_symdiff(result@, matrix.rows@[i as int].provenance@);
                }
            }
            result = symdiff_vec(&result, &matrix.rows[i].provenance);
            proof {
                assert(self.row_indices@.take(t as int + 1).drop_last() =~= self.row_indices@.take(t as int));
            }
            t = t + 1;
        }
        proof {
            assert(self.row_indices@.take(n as int) =~= self.row_indices@);
        }
        result
    }

    /// Number of selected rows.
    pub fn len(&self) -> (n: usize)
        ensures
            n == self.row_indices@.len(),
    {
        self.row_indices.len()
    }

    /// True if no rows are selected.
    pub fn is_empty(&self) -> (b: bool)
        ensures
            b == (self.row_indices@.len() == 0),
    {
        self.row_indices.len() == 0
    }
}

} // verus!
