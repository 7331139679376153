//! The sparse GF(2) relation matrix: rows of sorted column indices with their provenance
//! (the original relation indices a row derives from), and the column-weight side table.

use vstd::prelude::*;
use crate::filter::seqs::{
    count_in, lemma_count_take_le, lemma_count_take_step, merge_symdiff, merge_union,
    strictly_sorted,
};

verus! {

/// Minimum excess that clique pruning keeps.
pub const EXCESS_FLOOR: usize = 20;

/// One row of the sparse GF(2) matrix with its provenance record.
#[derive(Debug, Clone, PartialEq, Eq)]
pub struct MatrixRow {
    /// Sorted column indices where this row has a 1.
    pub cols: Vec<usize>,
    /// Sorted, deduplicated original relation indices this row derives from.
    pub provenance: Vec<usize>,
}

/// Appends `src[from..]` to `dst`.
fn push_rest(dst: &mut Vec<usize>, src: &Vec<usize>, from: usize)
    requires
        from <= src@.len(),
    ensures
        final(dst)@ == old(dst)@ + src@.skip(from as int),
{
    let mut k = from;
    while k < src.len()
        invariant
            from <= k <= src@.len(),
            dst@ == old(dst)@ + src@.subrange(from as int, k as int),
        decreases src@.len() - k,
    {
        dst.push(src[k]);
        k = k + 1;
        assert(dst@ =~= old(dst)@ + src@.subrange(from as int, k as int));
    }
    assert(src@.subrange(from as int, k as int) =~= src@.skip(from as int));
}

/// The symmetric-difference merge of two vectors.
pub fn symdiff_vec(a: &Vec<usize>, b: &Vec<usize>) -> (r: Vec<usize>)
    ensures
        r@ == merge_symdiff(a@, b@),
{
    let mut cols: Vec<usize> = Vec::new();
    let mut i: usize = 0;
    let mut j: usize = 0;
    assert(a@.skip(0) =~= a@ && b@.skip(0) =~= b@);
    assert(cols@ + merge_symdiff(a@, b@) =~= merge_symdiff(a@, b@));
    while i < a.len() && j < b.len()
        invariant
            i <= a@.len(),
            j <= b@.len(),
            cols@ + merge_symdiff(a@.skip(i as int), b@.skip(j as int)) == merge_symdiff(a@, b@),
        decreases a@.len() + b@.len() - i - j,
    {
        let ghost sa = a@.skip(i as int);
        let ghost sb = b@.skip(j as int);
        assert(sa.drop_first() =~= a@.skip(i + 1));
        assert(sb.drop_first() =~= b@.skip(j + 1));
        if a[i] < b[j] {
            cols.push(a[i]);
            i = i + 1;
            assert(merge_symdiff(sa, sb) == seq![sa[0]] + merge_symdiff(a@.skip(i as int), sb));
        } else if a[i] > b[j] {
            cols.push(b[j]);
            j = j + 1;
            assert(merge_symdiff(sa, sb) == seq![sb[0]] + merge_symdiff(sa, b@.skip(j as int)));
        } else {
            i = i + 1;
            j = j + 1;
        }
    }
    push_rest(&mut cols, a, i);
    push_rest(&mut cols, b, j);
    proof {
        if i < a@.len() {
            assert(b@.skip(j as int) =~= Seq::<usize>::empty());
        } else {
            assert(a@.skip(i as int) =~= Seq::<usize>::empty());
        }
    }
    cols
}

impl MatrixRow {
    /// A copy of the row.
    pub fn duplicate(&self) -> (r: MatrixRow)
        ensures
            r.cols@ == self.cols@,
            r.provenance@ == self.provenance@,
    {
        let mut cols: Vec<usize> = Vec::new();
        push_rest(&mut cols, &self.cols, 0);
        let mut provenance: Vec<usize> = Vec::new();
        push_rest(&mut provenance, &self.provenance, 0);
        assert(self.cols@.skip(0) =~= self.cols@);
        assert(self.provenance@.skip(0) =~= self.provenance@);
        MatrixRow { cols, provenance }
    }

    /// GF(2) sum of two rows: the symmetric difference of their column lists, with the union of
    /// their provenance lists, both computed by a sorted merge.
    pub fn xor_merge(&self, other: &MatrixRow) -> (r: MatrixRow)
        ensures
            r.cols@ == merge_symdiff(self.cols@, other.cols@),
            r.provenance@ == merge_union(self.provenance@, other.provenance@),
    {
        let cols = symdiff_vec(&self.cols, &other.cols);
        let pa = &self.provenance;
        let pb = &other.provenance;
        let mut prov: Vec<usize> = Vec::new();
        let mut pi: usize = 0;
        let mut pj: usize = 0;
        assert(pa@.skip(0) =~= pa@ && pb@.skip(0) =~= pb@);
        assert(prov@ + merge_union(pa@, pb@) =~= merge_union(pa@, pb@));
        while pi < pa.len() && pj < pb.len()
            invariant
                pi <= pa@.len(),
                pj <= pb@.len(),
                prov@ + merge_union(pa@.skip(pi as int), pb@.skip(pj as int)) == merge_union(
                    pa@,
                    pb@,
                ),
            decreases pa@.len() + pb@.len() - pi - pj,
        {
            let ghost sa = pa@.skip(pi as int);
            let ghost sb = pb@.skip(pj as int);
            assert(sa.drop_first() =~= pa@.skip(pi + 1));
            assert(sb.drop_first() =~= pb@.skip(pj + 1));
            if pa[pi] < pb[pj] {
                prov.push(pa[pi]);
                pi = pi + 1;
                assert(merge_union(sa, sb) == seq![sa[0]] + merge_union(pa@.skip(pi as int), sb));
            } else if pa[pi] > pb[pj] {
                prov.push(pb[pj]);
                pj = pj + 1;
                assert(merge_union(sa, sb) == seq![sb[0]] + merge_union(sa, pb@.skip(pj as int)));
            } else {
                prov.push(pa[pi]);
                pi = pi + 1;
                pj = pj + 1;
                assert(merge_union(sa, sb) == seq![sa[0]] + merge_union(
                    pa@.skip(pi as int),
                    pb@.skip(pj as int),
                ));
            }
        }
        push_rest(&mut prov, pa, pi);
        push_rest(&mut prov, pb, pj);
        proof {
            if pi < pa@.len() {
                assert(pb@.skip(pj as int) =~= Seq::<usize>::empty());
            } else {
                assert(pa@.skip(pi as int) =~= Seq::<usize>::empty());
            }
        }
        MatrixRow { cols, provenance: prov }
    }
}

/// Sparse GF(2) matrix over a factor base, with relation provenance and column weights.
#[derive(Debug, Clone)]
pub struct SparseMatrix {
    /// The rows, each with its column set and provenance.
    pub rows: Vec<MatrixRow>,
    /// Total number of columns.
    pub num_cols: usize,
    /// Index of the first obstruction column; singleton removal and merging skip columns at
    /// or above it.
    pub obstruction_col_start: usize,
    /// Number of obstruction columns.
    pub obstruction_count: usize,
    /// `col_weights[c]` = number of rows with a 1 in column `c`.
    pub col_weights: Vec<u32>,
}

/// Number of occurrences of column `c` over all rows.
pub open spec fn total_count(rows: Seq<MatrixRow>, c: usize) -> nat
    decreases rows.len(),
{
    if rows.len() == 0 {
        0
    } else {
        total_count(rows.drop_last(), c) + count_in(rows.last().cols@, c)
    }
}

/// A row is well formed in a matrix of `num_cols` columns: strictly sorted columns below
/// `num_cols`, strictly sorted provenance.
pub open spec fn row_wf(r: MatrixRow, num_cols: nat) -> bool {
    &&& strictly_sorted(r.cols@)
    &&& strictly_sorted(r.provenance@)
    &&& forall|k: int| 0 <= k < r.cols@.len() ==> #[trigger] r.cols@[k] < num_cols
}

/// Removing row `i` removes its column occurrences from the totals.
pub proof fn lemma_total_count_remove(rows: Seq<MatrixRow>, i: int, c: usize)
    requires
        0 <= i < rows.len(),
    ensures
        total_count(rows.remove(i), c) + count_in(rows[i].cols@, c) == total_count(rows, c),
    decreases rows.len(),
{
    if i == rows.len() - 1 {
        assert(rows.remove(i) =~= rows.drop_last());
    } else {
        lemma_total_count_remove(rows.drop_last(), i, c);
        assert(rows.remove(i).drop_last() =~= rows.drop_last().remove(i));
        assert(rows.remove(i).last() == rows.last());
    }
}

/// Replacing row `i` trades its column occurrences for those of the new row.
pub proof fn lemma_total_count_update(rows: Seq<MatrixRow>, i: int, r: MatrixRow, c: usize)
    requires
        0 <= i < rows.len(),
    ensures
        total_count(rows.update(i, r), c) + count_in(rows[i].cols@, c) == total_count(rows, c) + count_in(r.cols@, c),
    decreases rows.len(),
{
    if i == rows.len() - 1 {
        assert(rows.update(i, r).drop_last() =~= rows.drop_last());
    } else {
        lemma_total_count_update(rows.drop_last(), i, r, c);
        assert(rows.update(i, r).drop_last() =~= rows.drop_last().update(i, r));
    }
}

/// Appending a row adds its column occurrences to the totals.
pub proof fn lemma_total_count_push(rows: Seq<MatrixRow>, r: MatrixRow, c: usize)
    ensures
        total_count(rows.push(r), c) == total_count(rows, c) + count_in(r.cols@, c),
{
    assert(rows.push(r).drop_last() =~= rows);
}

impl SparseMatrix {
    /// The matrix invariant: one weight per column, each weight the number of occurrences of
    /// its column, obstruction block inside the column range, well-formed rows.
    pub open spec fn wf(&self) -> bool {
        &&& self.col_weights@.len() == self.num_cols
        &&& self.obstruction_col_start <= self.num_cols
        &&& forall|i: int| 0 <= i < self.rows@.len() ==> row_wf(#[trigger] self.rows@[i], self.num_cols as nat)
        &&& forall|c: usize|
            c < self.num_cols ==> #[trigger] self.col_weights@[c as int] == total_count(
                self.rows@,
                c,
            )
    }

    /// Excess as a mathematical integer: rows minus non-obstruction columns.
    pub open spec fn excess_spec(&self) -> int {
        self.rows@.len() - (self.num_cols - self.obstruction_count)
    }

    /// The excess fits the machine's signed word.
    pub open spec fn excess_fits(&self) -> bool {
        &&& self.rows@.len() <= isize::MAX
        &&& self.num_cols <= isize::MAX
        &&& self.obstruction_count <= isize::MAX
        &&& isize::MIN <= self.excess_spec() <= isize::MAX
    }

    /// Current excess: `rows.len() - (num_cols - obstruction_count)`.
    pub fn excess(&self) -> (e: isize)
        requires
            self.excess_fits(),
        ensures
            e == self.excess_spec(),
    {
        self.rows.len() as isize - (self.num_cols as isize - self.obstruction_count as isize)
    }

    /// Row `idx` can be removed without a weight dropping below zero or an index leaving the
    /// weight table.
    pub open spec fn removable(&self, idx: int) -> bool {
        &&& 0 <= idx < self.rows@.len()
        &&& forall|k: int|
            0 <= k < self.rows@[idx].cols@.len() ==> #[trigger] self.rows@[idx].cols@[k]
                < self.col_weights@.len()
        &&& forall|c: usize|
            c < self.col_weights@.len() ==> count_in(self.rows@[idx].cols@, c)
                <= #[trigger] self.col_weights@[c as int]
    }

    /// Remove row `row_idx` (keeping the order of the others) and take its columns out of the
    /// weights.
    pub fn remove_row(&mut self, row_idx: usize)
        requires
            old(self).removable(row_idx as int),
        ensures
            final(self).rows@ == old(self).rows@.remove(row_idx as int),
            final(self).num_cols == old(self).num_cols,
            final(self).obstruction_col_start == old(self).obstruction_col_start,
            final(self).obstruction_count == old(self).obstruction_count,
            final(self).col_weights@.len() == old(self).col_weights@.len(),
            forall|c: usize|
                c < old(self).col_weights@.len() ==> #[trigger] final(self).col_weights@[c as int]
                    == old(self).col_weights@[c as int] - count_in(
                    old(self).rows@[row_idx as int].cols@,
                    c,
                ),
            old(self).wf() ==> final(self).wf(),
    {
        let row = self.rows.remove(row_idx);
        let n = row.cols.len();
        let mut k: usize = 0;
        while k < n
            invariant
                n == row.cols@.len(),
                row == old(self).rows@[row_idx as int],
                k <= n,
                self.rows@ == old(self).rows@.remove(row_idx as int),
                self.num_cols == old(self).num_cols,
                self.obstruction_col_start == old(self).obstruction_col_start,
                self.obstruction_count == old(self).obstruction_count,
                self.col_weights@.len() == old(self).col_weights@.len(),
                old(self).removable(row_idx as int),
                forall|c: usize|
                    c < old(self).col_weights@.len() ==> #[trigger] self.col_weights@[c as int]
                        == old(self).col_weights@[c as int] - count_in(row.cols@.take(k as int), c),
            decreases n - k,
        {
            let c = row.cols[k];
            proof {
                lemma_count_take_step(row.cols@, k as int, c);
                lemma_count_take_le(row.cols@, k as int + 1, c);
                assert forall|c2: usize| c2 < old(self).col_weights@.len() implies #[trigger] count_in(
                    row.cols@.take(k as int + 1),
                    c2,
                ) == count_in(row.cols@.take(k as int), c2) + if c2 == c {
                    1nat
                } else {
                    0nat
                } by {
                    lemma_count_take_step(row.cols@, k as int, c2);
                }
            }
            let w = self.col_weights[c];
            self.col_weights.set(c, w - 1);
            k = k + 1;
        }
        proof {
            assert(row.cols@.take(n as int) =~= row.cols@);
            if old(self).wf() {
                lemma_remove_row_wf(*old(self), row_idx as int);
                assert forall|i: int| 0 <= i < self.rows@.len() implies row_wf(
                    #[trigger] self.rows@[i],
                    self.num_cols as nat,
                ) by {
                    if i < row_idx {
                        assert(self.rows@[i] == old(self).rows@[i]);
                    } else {
                        assert(self.rows@[i] == old(self).rows@[i + 1]);
                    }
                }
            }
        }
    }
}

/// A well-formed matrix can lose any row and stays well formed.
pub proof fn lemma_remove_row_wf(m: SparseMatrix, idx: int)
    requires
        m.wf(),
        0 <= idx < m.rows@.len(),
    ensures
        m.removable(idx),
        forall|c: usize|
            c < m.num_cols ==> #[trigger] total_count(m.rows@.remove(idx), c)
                == m.col_weights@[c as int] - count_in(m.rows@[idx].cols@, c),
{
    assert(row_wf(m.rows@[idx], m.num_cols as nat));
    assert forall|c: usize| c < m.col_weights@.len() implies count_in(m.rows@[idx].cols@, c)
        <= #[trigger] m.col_weights@[c as int] by {
        lemma_total_count_remove(m.rows@, idx, c);
    }
    assert forall|c: usize| c < m.num_cols implies #[trigger] total_count(m.rows@.remove(idx), c)
        == m.col_weights@[c as int] - count_in(m.rows@[idx].cols@, c) by {
        lemma_total_count_remove(m.rows@, idx, c);
    }
}

/// A positive total means some row holds the column.
pub proof fn lemma_total_count_pos(rows: Seq<MatrixRow>, c: usize) -> (i: int)
    requires
        total_count(rows, c) > 0,
    ensures
        0 <= i < rows.len(),
        count_in(rows[i].cols@, c) > 0,
    decreases rows.len(),
{
    if count_in(rows.last().cols@, c) > 0 {
        rows.len() - 1
    } else {
        let i = lemma_total_count_pos(rows.drop_last(), c);
        assert(rows.drop_last()[i] == rows[i]);
        i
    }
}

} // verus!
