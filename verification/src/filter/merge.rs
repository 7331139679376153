//! Clique/excess pruning (drop the heaviest rows while the excess exceeds the floor) and
//! column merging (XOR away the rows of weight-2, then weight-3, columns).

use vstd::prelude::*;
use crate::filter::matrix::{
    lemma_remove_row_wf, lemma_total_count_push, row_wf, total_count, MatrixRow, SparseMatrix,
    EXCESS_FLOOR,
};
use crate::filter::provenance::{
    lemma_merge_three_consistent, lemma_merge_two_consistent, lemma_remove_consistent,
    provenance_consistent,
};
use crate::filter::singleton::{lemma_select_rows_agree, lemma_select_rows_indices, select_rows};
use vstd::set_lib::{lemma_int_range, lemma_len_subset, set_int_range};
use crate::filter::seqs::{
    count_in, lemma_count_sorted, lemma_count_take_le, lemma_count_take_step, lemma_merge_symdiff,
    lemma_merge_union, merge_symdiff, merge_union, sorted_contains, strictly_sorted,
};

verus! {

broadcast use vstd::seq_lib::group_to_multiset_ensures;

/// Row `a` comes before row `b` in pruning order: it is heavier, or as heavy and earlier.
pub open spec fn prunes_before(rows: Seq<MatrixRow>, a: int, b: int) -> bool {
    rows[a].cols@.len() > rows[b].cols@.len() || (rows[a].cols@.len() == rows[b].cols@.len() && a < b)
}

/// The rows that come before row `i` in pruning order.
pub open spec fn pruned_before(rows: Seq<MatrixRow>, i: int) -> Set<int> {
    Set::new(|j: int| 0 <= j < rows.len() && prunes_before(rows, j, i))
}

/// Position of row `i` in pruning order (heaviest first, earliest first among equals).
pub open spec fn prune_rank(rows: Seq<MatrixRow>, i: int) -> nat {
    pruned_before(rows, i).len()
}

/// The rows holding at least one column.
pub open spec fn nonempty_rows(rows: Seq<MatrixRow>) -> Set<int> {
    Set::new(|i: int| 0 <= i < rows.len() && rows[i].cols@.len() > 0)
}

/// How many rows pruning removes: the excess above the floor, but never an empty row.
pub open spec fn prune_count(m: SparseMatrix) -> nat {
    if m.excess_spec() <= EXCESS_FLOOR {
        0
    } else if m.excess_spec() - EXCESS_FLOOR <= nonempty_rows(m.rows@).len() {
        (m.excess_spec() - EXCESS_FLOOR) as nat
    } else {
        nonempty_rows(m.rows@).len()
    }
}

/// The rows pruning keeps: all but the first `prune_count` in pruning order, in their order.
pub open spec fn pruned_rows(m: SparseMatrix) -> Seq<MatrixRow> {
    select_rows(m.rows@, Set::new(|i: int| prune_rank(m.rows@, i) >= prune_count(m)))
}

/// Index sets below `n` are finite and hold at most `n` elements.
proof fn lemma_index_set_finite(s: Set<int>, n: int)
    requires
        n >= 0,
        forall|i: int| #[trigger] s.contains(i) ==> 0 <= i < n,
    ensures
        s.finite(),
        s.len() <= n,
{
    lemma_int_range(0, n);
    lemma_len_subset(s, set_int_range(0, n));
}

/// Pruning order is strict: a row that comes before another has a smaller rank.
proof fn lemma_rank_strict(rows: Seq<MatrixRow>, a: int, b: int)
    requires
        0 <= a < rows.len(),
        0 <= b < rows.len(),
        prunes_before(rows, a, b),
    ensures
        prune_rank(rows, a) < prune_rank(rows, b),
{
    let sa = pruned_before(rows, a);
    let sb = pruned_before(rows, b);
    lemma_index_set_finite(sa, rows.len() as int);
    lemma_index_set_finite(sb, rows.len() as int);
    assert(sa.subset_of(sb.remove(a)));
    lemma_len_subset(sa, sb.remove(a));
    assert(sb.contains(a));
}

/// Distinct rows have distinct ranks, ordered as the rows are.
proof fn lemma_rank_order(rows: Seq<MatrixRow>, a: int, b: int)
    requires
        0 <= a < rows.len(),
        0 <= b < rows.len(),
        a != b,
    ensures
        prune_rank(rows, a) != prune_rank(rows, b),
        prune_rank(rows, a) < prune_rank(rows, b) ==> prunes_before(rows, a, b),
{
    if prunes_before(rows, a, b) {
        lemma_rank_strict(rows, a, b);
    } else {
        lemma_rank_strict(rows, b, a);
    }
}

/// Greedy clique/excess pruning: while the excess is above `EXCESS_FLOOR`, remove the first row
/// of greatest weight. Each removal lowers the excess by one, so a matrix that starts at or
/// above the floor ends at or above it (at the floor, unless every row left is empty).
///
/// Pruning only removes rows, so it cannot raise the excess: a matrix that starts below the
/// floor comes back unchanged, still below the floor and with its rows. The floor is
/// therefore kept, not reached: `excess >= EXCESS_FLOOR` after pruning holds for inputs at or
/// above the floor, which is what the filtering pipeline feeds in.
///
/// Exactly `prune_count` rows go, the first ones in pruning order (heaviest first, earliest
/// first among equals); the others stay in their order.
pub fn prune_cliques(matrix: SparseMatrix) -> (r: SparseMatrix)
    requires
        matrix.wf(),
        matrix.excess_fits(),
    ensures
        r.wf(),
        r.excess_fits(),
        r.num_cols == matrix.num_cols,
        r.obstruction_col_start == matrix.obstruction_col_start,
        r.obstruction_count == matrix.obstruction_count,
        r.rows@ == pruned_rows(matrix),
        r.rows@.len() == matrix.rows@.len() - prune_count(matrix),
        r.rows@.to_multiset().subset_of(matrix.rows@.to_multiset()),
        r.excess_spec() <= EXCESS_FLOOR || r.rows@.len() == 0 || forall|i: int|
            0 <= i < r.rows@.len() ==> (#[trigger] r.rows@[i]).cols@.len() == 0,
        matrix.excess_spec() >= EXCESS_FLOOR ==> r.excess_spec() >= EXCESS_FLOOR,
        matrix.excess_spec() <= EXCESS_FLOOR ==> r.rows@ == matrix.rows@,
        forall|orig: Seq<Seq<usize>>|
            provenance_consistent(matrix.rows@, orig) ==> #[trigger] provenance_consistent(r.rows@, orig),
{
    let ghost orig = matrix.rows@;
    let ghost n0 = orig.len() as int;
    let ghost mut idx: Seq<int> = Seq::new(orig.len(), |k: int| k);
    let ghost mut t: nat = 0;
    let mut m = matrix;
    proof {
        assert(Set::new(|i: int| 0 <= i < n0 && prune_rank(orig, i) < t) =~= Set::<int>::empty());
        assert forall|i: int| 0 <= i < n0 implies (idx.contains(i) <==> prune_rank(orig, i) >= t) by {
            assert(idx[i] == i);
        }
    }
    loop
        invariant
            m.wf(),
            m.excess_fits(),
            m.num_cols == matrix.num_cols,
            m.obstruction_col_start == matrix.obstruction_col_start,
            m.obstruction_count == matrix.obstruction_count,
            m.rows@.to_multiset().subset_of(matrix.rows@.to_multiset()),
            matrix.excess_spec() >= EXCESS_FLOOR ==> m.excess_spec() >= EXCESS_FLOOR,
            matrix.excess_spec() <= EXCESS_FLOOR ==> m.rows@ == matrix.rows@,
            forall|o: Seq<Seq<usize>>|
                provenance_consistent(matrix.rows@, o) ==> #[trigger] provenance_consistent(m.rows@, o),
            orig == matrix.rows@,
            n0 == orig.len(),
            idx.len() == m.rows@.len(),
            m.rows@.len() + t == n0,
            forall|a: int, b: int| 0 <= a < b < idx.len() ==> idx[a] < idx[b],
            forall|k: int| 0 <= k < idx.len() ==> 0 <= #[trigger] idx[k] < n0 && m.rows@[k] == orig[idx[k]],
            forall|i: int| 0 <= i < n0 ==> (idx.contains(i) <==> #[trigger] prune_rank(orig, i) >= t),
            Set::new(|i: int| 0 <= i < n0 && prune_rank(orig, i) < t).len() == t,
            Set::new(|i: int| 0 <= i < n0 && prune_rank(orig, i) < t).subset_of(nonempty_rows(orig)),
            t > 0 ==> matrix.excess_spec() - (t - 1) > EXCESS_FLOOR,
        ensures
            m.wf(),
            m.excess_fits(),
            m.num_cols == matrix.num_cols,
            m.obstruction_col_start == matrix.obstruction_col_start,
            m.obstruction_count == matrix.obstruction_count,
            m.rows@.to_multiset().subset_of(matrix.rows@.to_multiset()),
            m.excess_spec() <= EXCESS_FLOOR || m.rows@.len() == 0 || forall|i: int|
                0 <= i < m.rows@.len() ==> (#[trigger] m.rows@[i]).cols@.len() == 0,
            matrix.excess_spec() >= EXCESS_FLOOR ==> m.excess_spec() >= EXCESS_FLOOR,
            matrix.excess_spec() <= EXCESS_FLOOR ==> m.rows@ == matrix.rows@,
            forall|o: Seq<Seq<usize>>|
                provenance_consistent(matrix.rows@, o) ==> #[trigger] provenance_consistent(m.rows@, o),
            idx.len() == m.rows@.len(),
            forall|a: int, b: int| 0 <= a < b < idx.len() ==> idx[a] < idx[b],
            forall|k: int| 0 <= k < idx.len() ==> 0 <= #[trigger] idx[k] < n0 && m.rows@[k] == orig[idx[k]],
            forall|i: int| 0 <= i < n0 ==> (idx.contains(i) <==> #[trigger] prune_rank(orig, i) >= t),
            t == prune_count(matrix),
        decreases m.rows@.len(),
    {
        let ghost dt = Set::new(|i: int| 0 <= i < n0 && prune_rank(orig, i) < t);
        let ghost ne = nonempty_rows(orig);
        proof {
            lemma_index_set_finite(ne, n0);
            lemma_index_set_finite(dt, n0);
        }
        if m.excess() <= EXCESS_FLOOR as isize {
            proof {
                if t > 0 {
                    lemma_len_subset(dt, ne);
                }
            }
            break;
        }
        if m.rows.len() == 0 {
            proof {
                assert(dt =~= ne) by {
                    assert forall|i: int| ne.contains(i) implies dt.contains(i) by {
                        if prune_rank(orig, i) >= t {
                            assert(idx.contains(i));
                        }
                    }
                }
            }
            break;
        }
        let n = m.rows.len();
        let mut max_weight: usize = 0;
        let mut i: usize = 0;
        while i < n
            invariant
                n == m.rows@.len(),
                i <= n,
                forall|k: int| 0 <= k < i ==> (#[trigger] m.rows@[k]).cols@.len() <= max_weight,
                max_weight > 0 ==> exists|k: int| 0 <= k < i && (#[trigger] m.rows@[k]).cols@.len() == max_weight,
            decreases n - i,
        {
            if m.rows[i].cols.len() > max_weight {
                max_weight = m.rows[i].cols.len();
            }
            i = i + 1;
        }
        if max_weight == 0 {
            proof {
                assert(dt =~= ne) by {
                    assert forall|i: int| ne.contains(i) implies dt.contains(i) by {
                        if prune_rank(orig, i) >= t {
                            assert(idx.contains(i));
                            let k = choose|k: int| 0 <= k < idx.len() && idx[k] == i;
                            assert(m.rows@[k].cols@.len() <= max_weight);
                        }
                    }
                }
            }
            break;
        }
        let mut p: usize = 0;
        while m.rows[p].cols.len() != max_weight
            invariant
                n == m.rows@.len(),
                p < n,
                exists|k: int| p <= k < n && (#[trigger] m.rows@[k]).cols@.len() == max_weight,
                forall|k: int| 0 <= k < p ==> (#[trigger] m.rows@[k]).cols@.len() != max_weight,
            decreases n - p,
        {
            p = p + 1;
        }
        let ghost before = m.rows@;
        let ghost idx_before = idx;
        let ghost j = idx[p as int];
        proof {
            assert(idx.contains(j));
            assert(prune_rank(orig, j) >= t);
            assert(pruned_before(orig, j) =~= dt) by {
                assert forall|x: int| #[trigger] pruned_before(orig, j).contains(x) implies dt.contains(x) by {
                    if prune_rank(orig, x) >= t {
                        assert(idx.contains(x));
                        let q = choose|q: int| 0 <= q < idx.len() && idx[q] == x;
                        assert(m.rows@[q].cols@.len() <= max_weight);
                        if q >= p {
                            if q > p {
                                assert(idx[p as int] < idx[q]);
                            }
                        }
                    }
                }
                assert forall|x: int| #[trigger] dt.contains(x) implies pruned_before(orig, j).contains(x) by {
                    lemma_rank_order(orig, x, j);
                }
            }
            assert(prune_rank(orig, j) == t);
            lemma_remove_row_wf(m, p as int);
        }
        m.remove_row(p);
        proof {
            assert forall|x: MatrixRow| m.rows@.to_multiset().count(x) <= matrix.rows@.to_multiset().count(x) by {
                assert(m.rows@.to_multiset() == before.to_multiset().remove(before[p as int]));
            }
            assert forall|o: Seq<Seq<usize>>|
                provenance_consistent(matrix.rows@, o) implies #[trigger] provenance_consistent(m.rows@, o) by {
                assert(provenance_consistent(before, o));
                lemma_remove_consistent(before, p as int, o);
            }
            idx = idx.remove(p as int);
            assert forall|k: int| 0 <= k < idx.len() implies 0 <= #[trigger] idx[k] < n0 && m.rows@[k] == orig[idx[k]] by {
                if k < p {
                    assert(idx[k] == idx_before[k]);
                } else {
                    assert(idx[k] == idx_before[k + 1]);
                }
            }
            let dt2 = Set::new(|i: int| 0 <= i < n0 && prune_rank(orig, i) < t + 1);
            assert(dt2 =~= dt.insert(j)) by {
                assert forall|x: int| #[trigger] dt2.contains(x) && !dt.contains(x) implies x == j by {
                    if x != j {
                        lemma_rank_order(orig, x, j);
                    }
                }
            }
            assert forall|x: int| 0 <= x < n0 implies (idx.contains(x) <==> #[trigger] prune_rank(orig, x) >= t + 1) by {
                if idx.contains(x) {
                    let q = choose|q: int| 0 <= q < idx.len() && idx[q] == x;
                    if q < p {
                        assert(idx_before[q] == x);
                        assert(idx_before[q] < idx_before[p as int]);
                    } else {
                        assert(idx_before[q + 1] == x);
                        assert(idx_before[p as int] < idx_before[q + 1]);
                    }
                    assert(idx_before.contains(x));
                    if prune_rank(orig, x) == t {
                        lemma_rank_order(orig, x, j);
                    }
                }
                if prune_rank(orig, x) >= t + 1 {
                    assert(idx_before.contains(x));
                    let q = choose|q: int| 0 <= q < idx_before.len() && idx_before[q] == x;
                    assert(q != p);
                    if q < p {
                        assert(idx[q] == x);
                    } else {
                        assert(idx[q - 1] == x);
                    }
                }
            }
            assert(orig[j] == before[p as int]);
            t = t + 1;
        }
    }
    proof {
        let kept = Set::new(|j: int| idx.contains(j));
        let target = Set::new(|i: int| prune_rank(orig, i) >= prune_count(matrix));
        lemma_select_rows_indices(orig, idx, m.rows@);
        lemma_select_rows_agree(orig, kept, target);
    }
    m
}

/// Occurrences in a symmetric-difference merge: those of both inputs, less two for a value
/// that both hold.
proof fn lemma_count_symdiff(a: Seq<usize>, b: Seq<usize>, c: usize)
    requires
        strictly_sorted(a),
        strictly_sorted(b),
    ensures
        count_in(merge_symdiff(a, b), c) + (if a.contains(c) && b.contains(c) {
            2nat
        } else {
            0nat
        }) == count_in(a, c) + count_in(b, c),
{
    lemma_merge_symdiff(a, b);
    lemma_count_sorted(a, c);
    lemma_count_sorted(b, c);
    lemma_count_sorted(merge_symdiff(a, b), c);
}

/// The XOR of two well-formed rows is a well-formed row.
pub proof fn lemma_xor_row_wf(x: MatrixRow, y: MatrixRow, r: MatrixRow, num_cols: nat)
    requires
        row_wf(x, num_cols),
        row_wf(y, num_cols),
        r.cols@ == merge_symdiff(x.cols@, y.cols@),
        r.provenance@ == merge_union(x.provenance@, y.provenance@),
    ensures
        row_wf(r, num_cols),
        forall|c: usize| count_in(r.cols@, c) <= count_in(x.cols@, c) + count_in(y.cols@, c),
{
    lemma_merge_symdiff(x.cols@, y.cols@);
    lemma_merge_union(x.provenance@, y.provenance@);
    assert forall|k: int| 0 <= k < r.cols@.len() implies #[trigger] r.cols@[k] < num_cols by {
        assert(r.cols@.contains(r.cols@[k]));
        if x.cols@.contains(r.cols@[k]) {
            let j = choose|j: int| 0 <= j < x.cols@.len() && x.cols@[j] == r.cols@[k];
        } else {
            let j = choose|j: int| 0 <= j < y.cols@.len() && y.cols@[j] == r.cols@[k];
        }
    }
    assert forall|c: usize| count_in(r.cols@, c) <= count_in(x.cols@, c) + count_in(y.cols@, c) by {
        lemma_count_symdiff(x.cols@, y.cols@, c);
    }
}

/// Append a row and add its columns to the weights, given that no weight overflows.
fn push_row(m: &mut SparseMatrix, row: MatrixRow, Ghost(bound): Ghost<Seq<nat>>)
    requires
        old(m).col_weights@.len() == old(m).num_cols,
        old(m).obstruction_col_start <= old(m).num_cols,
        forall|i: int| 0 <= i < old(m).rows@.len() ==> row_wf(#[trigger] old(m).rows@[i], old(m).num_cols as nat),
        forall|c: usize|
            c < old(m).num_cols ==> #[trigger] old(m).col_weights@[c as int] == total_count(
                old(m).rows@,
                c,
            ),
        row_wf(row, old(m).num_cols as nat),
        bound.len() == old(m).num_cols,
        forall|c: usize|
            c < old(m).num_cols ==> old(m).col_weights@[c as int] + count_in(row.cols@, c)
                <= #[trigger] bound[c as int] <= u32::MAX,
    ensures
        final(m).wf(),
        final(m).rows@ == old(m).rows@.push(row),
        final(m).num_cols == old(m).num_cols,
        final(m).obstruction_col_start == old(m).obstruction_col_start,
        final(m).obstruction_count == old(m).obstruction_count,
{
    let n = row.cols.len();
    let mut k: usize = 0;
    while k < n
        invariant
            n == row.cols@.len(),
            k <= n,
            row_wf(row, m.num_cols as nat),
            m.rows@ == old(m).rows@,
            m.num_cols == old(m).num_cols,
            m.obstruction_col_start == old(m).obstruction_col_start,
            m.obstruction_count == old(m).obstruction_count,
            m.col_weights@.len() == m.num_cols,
            bound.len() == old(m).num_cols,
            forall|c: usize|
                c < old(m).num_cols ==> old(m).col_weights@[c as int] + count_in(row.cols@, c)
                    <= #[trigger] bound[c as int] <= u32::MAX,
            forall|c: usize|
                c < m.num_cols ==> #[trigger] m.col_weights@[c as int] == old(m).col_weights@[c as int]
                    + count_in(row.cols@.take(k as int), c),
        decreases n - k,
    {
        let c = row.cols[k];
        proof {
            lemma_count_take_step(row.cols@, k as int, c);
            lemma_count_take_le(row.cols@, k as int + 1, c);
            assert(bound[c as int] <= u32::MAX);
            assert forall|c2: usize| c2 < m.num_cols implies #[trigger] count_in(
                row.cols@.take(k as int + 1),
                c2,
            ) == count_in(row.cols@.take(k as int), c2) + if c2 == c {
                1nat
            } else {
                0nat
            } by {
                lemma_count_take_step(row.cols@, k as int, c2);
            }
        }
        let w = m.col_weights[c];
        m.col_weights.set(c, w + 1);
        k = k + 1;
    }
    let ghost before = m.rows@;
    m.rows.push(row);
    proof {
        assert(row.cols@.take(n as int) =~= row.cols@);
        assert forall|c: usize| c < m.num_cols implies #[trigger] m.col_weights@[c as int]
            == total_count(m.rows@, c) by {
            lemma_total_count_push(before, row, c);
        }
        assert forall|i: int| 0 <= i < m.rows@.len() implies row_wf(
            #[trigger] m.rows@[i],
            m.num_cols as nat,
        ) by {
            if i < before.len() {
                assert(m.rows@[i] == before[i]);
            }
        }
    }
}

/// Merge the rows at two distinct indices: both leave, their XOR is appended, and the weights
/// follow.
fn merge_two_rows(m: &mut SparseMatrix, i0: usize, i1: usize)
    requires
        old(m).wf(),
        i0 < old(m).rows@.len(),
        i1 < old(m).rows@.len(),
        i0 != i1,
    ensures
        final(m).wf(),
        final(m).num_cols == old(m).num_cols,
        final(m).obstruction_col_start == old(m).obstruction_col_start,
        final(m).obstruction_count == old(m).obstruction_count,
        ({
            let lo = if i0 < i1 { i0 as int } else { i1 as int };
            let hi = if i0 < i1 { i1 as int } else { i0 as int };
            &&& final(m).rows@.len() == old(m).rows@.len() - 1
            &&& final(m).rows@.drop_last() == old(m).rows@.remove(hi).remove(lo)
            &&& final(m).rows@.last().cols@ == merge_symdiff(
                old(m).rows@[lo].cols@,
                old(m).rows@[hi].cols@,
            )
            &&& final(m).rows@.last().provenance@ == merge_union(
                old(m).rows@[lo].provenance@,
                old(m).rows@[hi].provenance@,
            )
        }),
        forall|orig: Seq<Seq<usize>>|
            provenance_consistent(old(m).rows@, orig) ==> #[trigger] provenance_consistent(final(m).rows@, orig),
{
    let (lo, hi) = if i0 < i1 {
        (i0, i1)
    } else {
        (i1, i0)
    };
    let ghost m0 = *m;
    let r_hi = m.rows[hi].duplicate();
    let r_lo = m.rows[lo].duplicate();
    proof {
        assert(row_wf(m0.rows@[hi as int], m0.num_cols as nat));
        assert(row_wf(m0.rows@[lo as int], m0.num_cols as nat));
        lemma_remove_row_wf(*m, hi as int);
    }
    m.remove_row(hi);
    let ghost m1 = *m;
    proof {
        assert(m1.rows@[lo as int] == m0.rows@[lo as int]);
        lemma_remove_row_wf(*m, lo as int);
    }
    m.remove_row(lo);
    let new_row = r_lo.xor_merge(&r_hi);
    proof {
        lemma_xor_row_wf(r_lo, r_hi, new_row, m.num_cols as nat);
    }
    let ghost bound = Seq::new(m0.num_cols as nat, |c: int| m0.col_weights@[c] as nat);
    push_row(m, new_row, Ghost(bound));
    proof {
        assert(m.rows@.drop_last() =~= m0.rows@.remove(hi as int).remove(lo as int));
        assert(m.rows@ =~= m0.rows@.remove(hi as int).remove(lo as int).push(new_row));
        assert forall|orig: Seq<Seq<usize>>|
            provenance_consistent(m0.rows@, orig) implies #[trigger] provenance_consistent(m.rows@, orig) by {
            lemma_merge_two_consistent(m0.rows@, lo as int, hi as int, new_row, m0.num_cols as nat, orig);
        }
    }
}

/// A row as the values it holds: its columns and its provenance.
pub open spec fn row_view(r: MatrixRow) -> (Seq<usize>, Seq<usize>) {
    (r.cols@, r.provenance@)
}

/// The rows as values.
pub open spec fn rows_view(rows: Seq<MatrixRow>) -> Seq<(Seq<usize>, Seq<usize>)> {
    Seq::new(rows.len(), |i: int| row_view(rows[i]))
}

/// Indices of the rows holding column `c`, increasing.
pub open spec fn holders(v: Seq<(Seq<usize>, Seq<usize>)>, c: usize) -> Seq<usize>
    decreases v.len(),
{
    if v.len() == 0 {
        Seq::empty()
    } else if v.last().0.contains(c) {
        holders(v.drop_last(), c).push((v.len() - 1) as usize)
    } else {
        holders(v.drop_last(), c)
    }
}

/// The rows holding column `c`, when there are two or three of them, leave, and their GF(2)
/// sum (symmetric difference of the columns, union of the provenances) is appended.
pub open spec fn merge_holders(v: Seq<(Seq<usize>, Seq<usize>)>, c: usize) -> Seq<(Seq<usize>, Seq<usize>)> {
    let h = holders(v, c);
    if h.len() == 2 {
        let (x, y) = (v[h[0] as int], v[h[1] as int]);
        v.remove(h[1] as int).remove(h[0] as int).push((merge_symdiff(x.0, y.0), merge_union(x.1, y.1)))
    } else if h.len() == 3 {
        let (x, y, z) = (v[h[0] as int], v[h[1] as int], v[h[2] as int]);
        v.remove(h[2] as int).remove(h[1] as int).remove(h[0] as int).push(
            (merge_symdiff(merge_symdiff(x.0, y.0), z.0), merge_union(merge_union(x.1, y.1), z.1)),
        )
    } else {
        v
    }
}

/// The columns below `k` held by exactly `target` rows, increasing.
pub open spec fn weight_columns(v: Seq<(Seq<usize>, Seq<usize>)>, k: nat, target: nat) -> Seq<usize>
    decreases k,
{
    if k == 0 {
        Seq::empty()
    } else if holders(v, (k - 1) as usize).len() == target {
        weight_columns(v, (k - 1) as nat, target).push((k - 1) as usize)
    } else {
        weight_columns(v, (k - 1) as nat, target)
    }
}

/// The columns `cands` in turn: each one that still has `target` holders has them merged.
pub open spec fn merge_sweep(v: Seq<(Seq<usize>, Seq<usize>)>, cands: Seq<usize>, target: nat) -> Seq<(Seq<usize>, Seq<usize>)>
    decreases cands.len(),
{
    if cands.len() == 0 {
        v
    } else {
        let prev = merge_sweep(v, cands.drop_last(), target);
        if holders(prev, cands.last()).len() == target {
            merge_holders(prev, cands.last())
        } else {
            prev
        }
    }
}

/// One merge pass: the non-obstruction columns with `target` holders at the start of the pass,
/// in increasing order, each merged if it still has `target` holders when its turn comes.
pub open spec fn merge_pass_spec(v: Seq<(Seq<usize>, Seq<usize>)>, ocs: nat, target: nat) -> Seq<(Seq<usize>, Seq<usize>)> {
    merge_sweep(v, weight_columns(v, ocs, target), target)
}

/// With strictly sorted rows, a column's total is its number of holders.
proof fn lemma_total_count_holders(rows: Seq<MatrixRow>, c: usize)
    requires
        forall|i: int| 0 <= i < rows.len() ==> strictly_sorted(#[trigger] rows[i].cols@),
    ensures
        total_count(rows, c) == holders(rows_view(rows), c).len(),
    decreases rows.len(),
{
    if rows.len() > 0 {
        lemma_total_count_holders(rows.drop_last(), c);
        assert(rows_view(rows).drop_last() =~= rows_view(rows.drop_last()));
        lemma_count_sorted(rows.last().cols@, c);
    }
}

/// Three distinct integers in increasing order.
pub open spec fn order3(a: int, b: int, c: int) -> (int, int, int) {
    if a < b {
        if b < c {
            (a, b, c)
        } else if a < c {
            (a, c, b)
        } else {
            (c, a, b)
        }
    } else {
        if a < c {
            (b, a, c)
        } else if b < c {
            (b, c, a)
        } else {
            (c, b, a)
        }
    }
}

/// Merge the rows at three distinct indices: all three leave and `(r_lo ^ r_mid) ^ r_hi` is
/// appended, where `lo < mid < hi` orders the indices.
fn merge_three_rows(m: &mut SparseMatrix, i0: usize, i1: usize, i2: usize)
    requires
        old(m).wf(),
        i0 < old(m).rows@.len(),
        i1 < old(m).rows@.len(),
        i2 < old(m).rows@.len(),
        i0 != i1,
        i1 != i2,
        i0 != i2,
    ensures
        final(m).wf(),
        final(m).num_cols == old(m).num_cols,
        final(m).obstruction_col_start == old(m).obstruction_col_start,
        final(m).obstruction_count == old(m).obstruction_count,
        final(m).rows@.len() == old(m).rows@.len() - 2,
        ({
            let (lo, mid, hi) = order3(i0 as int, i1 as int, i2 as int);
            &&& final(m).rows@.drop_last() == old(m).rows@.remove(hi).remove(mid).remove(lo)
            &&& final(m).rows@.last().cols@ == merge_symdiff(
                merge_symdiff(old(m).rows@[lo].cols@, old(m).rows@[mid].cols@),
                old(m).rows@[hi].cols@,
            )
            &&& final(m).rows@.last().provenance@ == merge_union(
                merge_union(old(m).rows@[lo].provenance@, old(m).rows@[mid].provenance@),
                old(m).rows@[hi].provenance@,
            )
        }),
        forall|orig: Seq<Seq<usize>>|
            provenance_consistent(old(m).rows@, orig) ==> #[trigger] provenance_consistent(final(m).rows@, orig),
{
    let mut lo = i0;
    let mut mid = i1;
    let mut hi = i2;
    if lo > mid {
        let t = lo;
        lo = mid;
        mid = t;
    }
    if mid > hi {
        let t = mid;
        mid = hi;
        hi = t;
    }
    if lo > mid {
        let t = lo;
        lo = mid;
        mid = t;
    }
    let ghost m0 = *m;
    let r0 = m.rows[lo].duplicate();
    let r1 = m.rows[mid].duplicate();
    let r2 = m.rows[hi].duplicate();
    proof {
        assert(row_wf(m0.rows@[hi as int], m0.num_cols as nat));
        assert(row_wf(m0.rows@[mid as int], m0.num_cols as nat));
        assert(row_wf(m0.rows@[lo as int], m0.num_cols as nat));
        lemma_remove_row_wf(*m, hi as int);
    }
    m.remove_row(hi);
    proof {
        assert(m.rows@[mid as int] == m0.rows@[mid as int]);
        lemma_remove_row_wf(*m, mid as int);
    }
    m.remove_row(mid);
    proof {
        assert(m.rows@[lo as int] == m0.rows@[lo as int]);
        lemma_remove_row_wf(*m, lo as int);
    }
    m.remove_row(lo);
    let tmp = r0.xor_merge(&r1);
    let new_row = tmp.xor_merge(&r2);
    proof {
        lemma_xor_row_wf(r0, r1, tmp, m.num_cols as nat);
        lemma_xor_row_wf(tmp, r2, new_row, m.num_cols as nat);
    }
    let ghost bound = Seq::new(m0.num_cols as nat, |c: int| m0.col_weights@[c] as nat);
    let ghost removed = m.rows@;
    push_row(m, new_row, Ghost(bound));
    proof {
        assert(removed =~= m0.rows@.remove(hi as int).remove(mid as int).remove(lo as int));
        assert((lo as int, mid as int, hi as int) == order3(i0 as int, i1 as int, i2 as int));
        assert(m.rows@.drop_last() =~= removed);
        assert forall|orig: Seq<Seq<usize>>|
            provenance_consistent(m0.rows@, orig) implies #[trigger] provenance_consistent(m.rows@, orig) by {
            lemma_merge_three_consistent(m0.rows@, lo as int, mid as int, hi as int, tmp, new_row, m0.num_cols as nat, orig);
        }
    }
}

/// The rows of `m` that hold column `col`, by index.
fn containing_rows(m: &SparseMatrix, col: usize) -> (r: Vec<usize>)
    requires
        m.wf(),
    ensures
        r@ == holders(rows_view(m.rows@), col),
        forall|k: int| 0 <= k < r@.len() ==> #[trigger] r@[k] < m.rows@.len() && m.rows@[r@[k] as int].cols@.contains(col),
        forall|a: int, b: int| 0 <= a < b < r@.len() ==> r@[a] < r@[b],
{
    let n = m.rows.len();
    let ghost v = rows_view(m.rows@);
    let mut r: Vec<usize> = Vec::new();
    let mut i: usize = 0;
    while i < n
        invariant
            n == m.rows@.len(),
            v == rows_view(m.rows@),
            m.wf(),
            i <= n,
            r@ == holders(v.take(i as int), col),
            forall|k: int| 0 <= k < r@.len() ==> #[trigger] r@[k] < i && m.rows@[r@[k] as int].cols@.contains(col),
            forall|a: int, b: int| 0 <= a < b < r@.len() ==> r@[a] < r@[b],
        decreases n - i,
    {
        assert(row_wf(m.rows@[i as int], m.num_cols as nat));
        assert(v.take(i as int + 1).drop_last() =~= v.take(i as int));
        assert(v.take(i as int + 1).last() == v[i as int]);
        if sorted_contains(&m.rows[i].cols, col) {
            r.push(i);
        }
        i = i + 1;
    }
    assert(v.take(n as int) =~= v);
    r
}

/// One merge pass for columns of weight `target_weight` (2 or 3): every non-obstruction column
/// of that weight when the pass starts, still of that weight when its turn comes, has its
/// rows merged into one. The returned matrix is the result; `matrix` is left empty.
fn merge_pass(matrix: &mut SparseMatrix, target_weight: u32) -> (r: SparseMatrix)
    requires
        old(matrix).wf(),
        target_weight == 2 || target_weight == 3,
    ensures
        r.wf(),
        r.num_cols == old(matrix).num_cols,
        r.obstruction_col_start == old(matrix).obstruction_col_start,
        r.obstruction_count == old(matrix).obstruction_count,
        rows_view(r.rows@) == merge_pass_spec(
            rows_view(old(matrix).rows@),
            old(matrix).obstruction_col_start as nat,
            target_weight as nat,
        ),
        r.rows@.len() <= old(matrix).rows@.len(),
        final(matrix).rows@.len() == 0,
        final(matrix).num_cols == 0,
        forall|orig: Seq<Seq<usize>>|
            provenance_consistent(old(matrix).rows@, orig) ==> #[trigger] provenance_consistent(r.rows@, orig),
{
    let mut m = SparseMatrix {
        rows: Vec::new(),
        num_cols: 0,
        obstruction_col_start: 0,
        obstruction_count: 0,
        col_weights: Vec::new(),
    };
    std::mem::swap(matrix, &mut m);
    let ghost m0 = m;
    let ghost v0 = rows_view(m0.rows@);
    let ghost tw = target_weight as nat;
    let ocs = m.obstruction_col_start;
    let mut candidates: Vec<usize> = Vec::new();
    let mut c: usize = 0;
    proof {
        assert forall|i: int| 0 <= i < m.rows@.len() implies strictly_sorted(#[trigger] m.rows@[i].cols@) by {
            assert(row_wf(m.rows@[i], m.num_cols as nat));
        }
    }
    while c < ocs
        invariant
            m.wf(),
            m == m0,
            v0 == rows_view(m.rows@),
            ocs == m.obstruction_col_start,
            c <= ocs,
            tw == target_weight,
            candidates@ == weight_columns(v0, c as nat, tw),
            forall|k: int| 0 <= k < candidates@.len() ==> #[trigger] candidates@[k] < ocs,
            forall|i: int| 0 <= i < m.rows@.len() ==> strictly_sorted(#[trigger] m.rows@[i].cols@),
        decreases ocs - c,
    {
        proof {
            lemma_total_count_holders(m.rows@, c);
        }
        if m.col_weights[c] == target_weight {
            candidates.push(c);
        }
        c = c + 1;
    }
    let nc = candidates.len();
    let mut t: usize = 0;
    while t < nc
        invariant
            nc == candidates@.len(),
            t <= nc,
            target_weight == 2 || target_weight == 3,
            tw == target_weight,
            candidates@ == weight_columns(v0, ocs as nat, tw),
            rows_view(m.rows@) == merge_sweep(v0, candidates@.take(t as int), tw),
            m.wf(),
            m.num_cols == m0.num_cols,
            m.obstruction_col_start == m0.obstruction_col_start,
            m.obstruction_count == m0.obstruction_count,
            m.rows@.len() <= m0.rows@.len(),
            ocs == m.obstruction_col_start,
            ocs <= m.num_cols,
            forall|k: int| 0 <= k < candidates@.len() ==> #[trigger] candidates@[k] < ocs,
            forall|orig: Seq<Seq<usize>>|
                provenance_consistent(m0.rows@, orig) ==> #[trigger] provenance_consistent(m.rows@, orig),
        decreases nc - t,
    {
        let col = candidates[t];
        let ghost v1 = rows_view(m.rows@);
        proof {
            assert(candidates@.take(t as int + 1).drop_last() =~= candidates@.take(t as int));
            assert(candidates@.take(t as int + 1).last() == col);
            assert forall|i: int| 0 <= i < m.rows@.len() implies strictly_sorted(#[trigger] m.rows@[i].cols@) by {
                assert(row_wf(m.rows@[i], m.num_cols as nat));
            }
            lemma_total_count_holders(m.rows@, col);
        }
        t = t + 1;
        if m.col_weights[col] != target_weight {
            continue;
        }
        let rows = containing_rows(&m, col);
        if rows.len() != target_weight as usize {
            continue;
        }
        let ghost mb = m.rows@;
        if target_weight == 2 {
            assert(rows@.len() == 2);
            merge_two_rows(&mut m, rows[0], rows[1]);
            proof {
                let (lo, hi) = (rows@[0] as int, rows@[1] as int);
                assert(rows_view(m.rows@) =~= v1.remove(hi).remove(lo).push(
                    (merge_symdiff(v1[lo].0, v1[hi].0), merge_union(v1[lo].1, v1[hi].1)),
                )) by {
                    assert(rows_view(m.rows@.drop_last()) =~= rows_view(mb.remove(hi).remove(lo)));
                    assert(rows_view(mb.remove(hi).remove(lo)) =~= v1.remove(hi).remove(lo));
                    assert(m.rows@ =~= m.rows@.drop_last().push(m.rows@.last()));
                }
            }
        } else {
            assert(rows@.len() == 3);
            merge_three_rows(&mut m, rows[0], rows[1], rows[2]);
            proof {
                let (lo, mid, hi) = (rows@[0] as int, rows@[1] as int, rows@[2] as int);
                assert(order3(lo, mid, hi) == (lo, mid, hi));
                assert(rows_view(m.rows@) =~= v1.remove(hi).remove(mid).remove(lo).push(
                    (
                        merge_symdiff(merge_symdiff(v1[lo].0, v1[mid].0), v1[hi].0),
                        merge_union(merge_union(v1[lo].1, v1[mid].1), v1[hi].1),
                    ),
                )) by {
                    assert(rows_view(m.rows@.drop_last()) =~= rows_view(mb.remove(hi).remove(mid).remove(lo)));
                    assert(rows_view(mb.remove(hi).remove(mid).remove(lo)) =~= v1.remove(hi).remove(mid).remove(lo));
                    assert(m.rows@ =~= m.rows@.drop_last().push(m.rows@.last()));
                }
            }
        }
        proof {
            assert forall|orig: Seq<Seq<usize>>|
                provenance_consistent(m0.rows@, orig) implies #[trigger] provenance_consistent(m.rows@, orig) by {
                assert(provenance_consistent(mb, orig));
            }
        }
    }
    proof {
        assert(candidates@.take(nc as int) =~= candidates@);
    }
    m
}

/// Column merging: a weight-2 pass, then a weight-3 pass over the weights as they stand after
/// the first.
pub fn merge_columns(matrix: SparseMatrix) -> (r: SparseMatrix)
    requires
        matrix.wf(),
    ensures
        r.wf(),
        r.num_cols == matrix.num_cols,
        r.obstruction_col_start == matrix.obstruction_col_start,
        r.obstruction_count == matrix.obstruction_count,
        rows_view(r.rows@) == merge_pass_spec(
            merge_pass_spec(rows_view(matrix.rows@), matrix.obstruction_col_start as nat, 2),
            matrix.obstruction_col_start as nat,
            3,
        ),
        r.rows@.len() <= matrix.rows@.len(),
        forall|orig: Seq<Seq<usize>>|
            provenance_consistent(matrix.rows@, orig) ==> #[trigger] provenance_consistent(r.rows@, orig),
{
    let mut m = matrix;
    m = merge_pass(&mut m, 2);
    m = merge_pass(&mut m, 3);
    m
}

} // verus!
