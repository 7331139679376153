//! Singleton removal: a non-obstruction column of weight one cannot be part of a GF(2)
//! dependency, so the row holding it goes; this repeats until no such column remains.

use vstd::prelude::*;
use crate::filter::matrix::{lemma_total_count_pos, lemma_total_count_remove, total_count, MatrixRow, SparseMatrix};
use crate::filter::provenance::{lemma_remove_consistent, provenance_consistent};
use crate::filter::seqs::{count_in, lemma_count_pos_contains, lemma_count_sorted, sorted_contains, strictly_sorted};

verus! {

broadcast use vstd::seq_lib::group_to_multiset_ensures;

/// The rows of `s` whose mark is false, in order.
pub open spec fn keep_unmarked<T>(s: Seq<T>, marks: Seq<bool>) -> Seq<T>
    decreases s.len(),
{
    if s.len() == 0 {
        Seq::empty()
    } else if marks[0] {
        keep_unmarked(s.drop_first(), marks.drop_first())
    } else {
        seq![s[0]] + keep_unmarked(s.drop_first(), marks.drop_first())
    }
}

/// Dropping the marked rows leaves fewer rows when a mark is set.
proof fn lemma_keep_unmarked_len<T>(s: Seq<T>, marks: Seq<bool>)
    requires
        marks.len() == s.len(),
    ensures
        keep_unmarked(s, marks).len() <= s.len(),
        (exists|k: int| 0 <= k < marks.len() && marks[k]) ==> keep_unmarked(s, marks).len()
            < s.len(),
    decreases s.len(),
{
    if s.len() > 0 {
        lemma_keep_unmarked_len(s.drop_first(), marks.drop_first());
        if exists|k: int| 0 <= k < marks.len() && marks[k] {
            let k = choose|k: int| 0 <= k < marks.len() && marks[k];
            if k > 0 {
                assert(marks.drop_first()[k - 1]);
            }
        }
    }
}

/// One step of building `keep_unmarked` from the back.
proof fn lemma_keep_unmarked_step<T>(s: Seq<T>, marks: Seq<bool>, i: int)
    requires
        marks.len() == s.len(),
        0 <= i < s.len(),
    ensures
        keep_unmarked(s.skip(i), marks.skip(i)) == if marks[i] {
            keep_unmarked(s.skip(i + 1), marks.skip(i + 1))
        } else {
            seq![s[i]] + keep_unmarked(s.skip(i + 1), marks.skip(i + 1))
        },
{
    assert(s.skip(i).drop_first() =~= s.skip(i + 1));
    assert(marks.skip(i).drop_first() =~= marks.skip(i + 1));
}

/// No row of the index set `s` holds a non-obstruction column (below `ocs`) that no other
/// row of `s` holds.
pub open spec fn singleton_free(rows: Seq<MatrixRow>, s: Set<int>, ocs: nat) -> bool {
    forall|i: int, c: usize|
        #![trigger s.contains(i), rows[i].cols@.contains(c)]
        0 <= i < rows.len() && s.contains(i) && c < ocs && rows[i].cols@.contains(c) ==> exists|j: int|
            0 <= j < rows.len() && j != i && s.contains(j) && #[trigger] rows[j].cols@.contains(c)
}

/// Row `i` belongs to some singleton-free set of rows.
pub open spec fn in_core(rows: Seq<MatrixRow>, ocs: nat, i: int) -> bool {
    exists|s: Set<int>| singleton_free(rows, s, ocs) && #[trigger] s.contains(i)
}

/// The largest singleton-free set of rows: the union of all of them.
pub open spec fn singleton_core(rows: Seq<MatrixRow>, ocs: nat) -> Set<int> {
    Set::new(|i: int| 0 <= i < rows.len() && in_core(rows, ocs, i))
}

/// The rows whose index is in `keep`, in order.
pub open spec fn select_rows(rows: Seq<MatrixRow>, keep: Set<int>) -> Seq<MatrixRow>
    decreases rows.len(),
{
    if rows.len() == 0 {
        Seq::empty()
    } else {
        select_rows(rows.drop_last(), keep) + if keep.contains(rows.len() - 1) {
            seq![rows.last()]
        } else {
            Seq::<MatrixRow>::empty()
        }
    }
}

/// `select_rows` only looks at the indices in range.
pub(crate) proof fn lemma_select_rows_agree(rows: Seq<MatrixRow>, a: Set<int>, b: Set<int>)
    requires
        forall|j: int| 0 <= j < rows.len() ==> (a.contains(j) <==> b.contains(j)),
    ensures
        select_rows(rows, a) == select_rows(rows, b),
    decreases rows.len(),
{
    if rows.len() > 0 {
        lemma_select_rows_agree(rows.drop_last(), a, b);
    }
}

/// The rows at the increasing indices `idx` are the rows selected by the set of `idx`.
pub(crate) proof fn lemma_select_rows_indices(rows: Seq<MatrixRow>, idx: Seq<int>, m: Seq<MatrixRow>)
    requires
        m.len() == idx.len(),
        forall|a: int, b: int| 0 <= a < b < idx.len() ==> idx[a] < idx[b],
        forall|k: int| 0 <= k < idx.len() ==> 0 <= #[trigger] idx[k] < rows.len() && m[k] == rows[idx[k]],
    ensures
        m == select_rows(rows, Set::new(|j: int| idx.contains(j))),
    decreases rows.len(),
{
    let set = Set::new(|j: int| idx.contains(j));
    if rows.len() == 0 {
        if idx.len() > 0 {
            assert(0 <= idx[0] < rows.len());
        }
        assert(m =~= Seq::<MatrixRow>::empty());
    } else {
        let n = rows.len() as int;
        let prev = rows.drop_last();
        if idx.len() > 0 && idx.last() == n - 1 {
            let idx2 = idx.drop_last();
            let m2 = m.drop_last();
            assert forall|k: int| 0 <= k < idx2.len() implies 0 <= #[trigger] idx2[k] < prev.len() && m2[k] == prev[idx2[k]] by {
                assert(idx[k] < idx[idx.len() - 1]);
            }
            lemma_select_rows_indices(prev, idx2, m2);
            let set2 = Set::new(|j: int| idx2.contains(j));
            assert forall|j: int| 0 <= j < prev.len() implies (set2.contains(j) <==> set.contains(j)) by {
                if set.contains(j) {
                    let k = choose|k: int| 0 <= k < idx.len() && idx[k] == j;
                    assert(idx2[k] == j);
                }
                if set2.contains(j) {
                    let k = choose|k: int| 0 <= k < idx2.len() && idx2[k] == j;
                    assert(idx[k] == j);
                }
            }
            lemma_select_rows_agree(prev, set2, set);
            assert(set.contains(n - 1)) by {
                assert(idx[idx.len() - 1] == n - 1);
            }
            assert(m =~= m2.push(rows.last()));
        } else {
            assert forall|k: int| 0 <= k < idx.len() implies 0 <= #[trigger] idx[k] < prev.len() && m[k] == prev[idx[k]] by {
                if idx[k] == n - 1 {
                    if k < idx.len() - 1 {
                        assert(idx[k] < idx[idx.len() - 1]);
                    }
                }
            }
            lemma_select_rows_indices(prev, idx, m);
            assert(!set.contains(n - 1)) by {
                if set.contains(n - 1) {
                    let k = choose|k: int| 0 <= k < idx.len() && idx[k] == n - 1;
                    assert(idx[k] < prev.len());
                }
            }
            assert(select_rows(rows, set) =~= select_rows(prev, set));
        }
    }
}

/// Two distinct rows holding column `c` make its total at least two.
proof fn lemma_total_count_two(rows: Seq<MatrixRow>, k: int, k2: int, c: usize)
    requires
        0 <= k < rows.len(),
        0 <= k2 < rows.len(),
        k != k2,
        rows[k].cols@.contains(c),
        rows[k2].cols@.contains(c),
    ensures
        total_count(rows, c) >= 2,
{
    lemma_total_count_remove(rows, k, c);
    let rest = rows.remove(k);
    let j = if k2 < k { k2 } else { k2 - 1 };
    assert(rest[j] == rows[k2]);
    lemma_total_count_remove(rest, j, c);
    lemma_count_ge_one(rows[k].cols@, c);
    lemma_count_ge_one(rows[k2].cols@, c);
}

/// A held value is counted at least once.
proof fn lemma_count_ge_one(s: Seq<usize>, x: usize)
    requires
        s.contains(x),
    ensures
        count_in(s, x) >= 1,
    decreases s.len(),
{
    if s.last() != x {
        let k = choose|k: int| 0 <= k < s.len() && s[k] == x;
        assert(s.drop_last()[k] == x);
        lemma_count_ge_one(s.drop_last(), x);
    }
}

/// A row holding column `c` makes its total at least one.
proof fn lemma_total_count_held(rows: Seq<MatrixRow>, k: int, c: usize)
    requires
        0 <= k < rows.len(),
        rows[k].cols@.contains(c),
    ensures
        total_count(rows, c) >= 1,
{
    lemma_total_count_remove(rows, k, c);
    lemma_count_ge_one(rows[k].cols@, c);
}

/// With total at least two, another row besides `k` holds column `c`.
proof fn lemma_other_row(rows: Seq<MatrixRow>, k: int, c: usize) -> (k2: int)
    requires
        0 <= k < rows.len(),
        strictly_sorted(rows[k].cols@),
        total_count(rows, c) >= 2,
    ensures
        0 <= k2 < rows.len(),
        k2 != k,
        rows[k2].cols@.contains(c),
{
    lemma_total_count_remove(rows, k, c);
    lemma_count_sorted(rows[k].cols@, c);
    let rest = rows.remove(k);
    let i = lemma_total_count_pos(rest, c);
    lemma_count_pos_contains(rest[i].cols@, c);
    if i < k {
        i
    } else {
        i + 1
    }
}

/// The first row holding column `col`, if any.
fn find_row(m: &SparseMatrix, col: usize) -> (r: Option<usize>)
    requires
        m.wf(),
    ensures
        match r {
            Some(i) => i < m.rows@.len() && m.rows@[i as int].cols@.contains(col),
            None => forall|i: int| 0 <= i < m.rows@.len() ==> !#[trigger] m.rows@[i].cols@.contains(col),
        },
{
    let n = m.rows.len();
    let mut i: usize = 0;
    while i < n
        invariant
            n == m.rows@.len(),
            m.wf(),
            i <= n,
            forall|k: int| 0 <= k < i ==> !#[trigger] m.rows@[k].cols@.contains(col),
        decreases n - i,
    {
        assert(crate::filter::matrix::row_wf(m.rows@[i as int], m.num_cols as nat));
        if sorted_contains(&m.rows[i].cols, col) {
            return Some(i);
        }
        i = i + 1;
    }
    None
}

/// The indices `idx` are increasing original row indices, row `k` of `m` is
/// original row `idx[k]`, and every row of the singleton core is among them.
spec fn tracks(orig: Seq<MatrixRow>, ocs: nat, m: Seq<MatrixRow>, idx: Seq<int>) -> bool {
    &&& idx.len() == m.len()
    &&& forall|a: int, b: int| 0 <= a < b < idx.len() ==> idx[a] < idx[b]
    &&& forall|k: int| 0 <= k < idx.len() ==> 0 <= #[trigger] idx[k] < orig.len() && m[k] == orig[idx[k]]
    &&& forall|j: int| 0 <= j < orig.len() && #[trigger] in_core(orig, ocs, j) ==> idx.contains(j)
}

/// Remove singleton columns to a fixpoint. Rows are only ever dropped, never merged, so every
/// surviving row is one of the input rows; obstruction columns never count as singletons.
///
/// The rows left are exactly the singleton core of the input (the largest set of rows in
/// which no non-obstruction column is held by a single row), in their original order.
pub fn remove_singletons(matrix: SparseMatrix) -> (r: SparseMatrix)
    requires
        matrix.wf(),
    ensures
        r.wf(),
        r.num_cols == matrix.num_cols,
        r.obstruction_col_start == matrix.obstruction_col_start,
        r.obstruction_count == matrix.obstruction_count,
        r.rows@ == select_rows(matrix.rows@, singleton_core(matrix.rows@, matrix.obstruction_col_start as nat)),
        r.rows@.to_multiset().subset_of(matrix.rows@.to_multiset()),
        forall|c: int| 0 <= c < r.obstruction_col_start ==> #[trigger] r.col_weights@[c] != 1,
        forall|orig: Seq<Seq<usize>>|
            provenance_consistent(matrix.rows@, orig) ==> #[trigger] provenance_consistent(r.rows@, orig),
{
    let ghost orig = matrix.rows@;
    let ghost ocs0 = matrix.obstruction_col_start as nat;
    let ghost mut idx: Seq<int> = Seq::new(orig.len(), |k: int| k);
    let mut m = matrix;
    proof {
        assert forall|j: int| 0 <= j < orig.len() && #[trigger] in_core(orig, ocs0, j) implies idx.contains(j) by {
            assert(idx[j] == j);
        }
    }
    loop
        invariant
            m.wf(),
            m.num_cols == matrix.num_cols,
            m.obstruction_col_start == matrix.obstruction_col_start,
            m.obstruction_count == matrix.obstruction_count,
            orig == matrix.rows@,
            ocs0 == matrix.obstruction_col_start,
            tracks(orig, ocs0, m.rows@, idx),
            m.rows@.to_multiset().subset_of(matrix.rows@.to_multiset()),
            forall|o: Seq<Seq<usize>>|
                provenance_consistent(matrix.rows@, o) ==> #[trigger] provenance_consistent(m.rows@, o),
        ensures
            m.wf(),
            m.num_cols == matrix.num_cols,
            m.obstruction_col_start == matrix.obstruction_col_start,
            m.obstruction_count == matrix.obstruction_count,
            tracks(orig, ocs0, m.rows@, idx),
            m.rows@.to_multiset().subset_of(matrix.rows@.to_multiset()),
            forall|c: int| 0 <= c < m.obstruction_col_start ==> #[trigger] m.col_weights@[c] != 1,
            forall|o: Seq<Seq<usize>>|
                provenance_consistent(matrix.rows@, o) ==> #[trigger] provenance_consistent(m.rows@, o),
        decreases m.rows@.len(),
    {
        let n = m.rows.len();
        let mut marks: Vec<bool> = Vec::with_capacity(n);
        let mut k: usize = 0;
        while k < n
            invariant
                k <= n,
                marks@ == Seq::new(k as nat, |i: int| false),
            decreases n - k,
        {
            marks.push(false);
            k = k + 1;
        }
        let mut any = false;
        let ocs = m.obstruction_col_start;
        let mut col: usize = 0;
        while col < ocs
            invariant
                m.wf(),
                n == m.rows@.len(),
                ocs == m.obstruction_col_start,
                col <= ocs,
                marks@.len() == n,
                any <==> exists|i: int| 0 <= i < n && marks@[i],
                forall|c: int| 0 <= c < col ==> #[trigger] m.col_weights@[c] == 1 ==> any,
                forall|p: int|
                    0 <= p < n && #[trigger] marks@[p] ==> exists|c: usize|
                        c < ocs && m.col_weights@[c as int] == 1 && #[trigger] m.rows@[p].cols@.contains(c),
            decreases ocs - col,
        {
            if m.col_weights[col] == 1 {
                proof {
                    let i = lemma_total_count_pos(m.rows@, col);
                    lemma_count_pos_contains(m.rows@[i].cols@, col);
                }
                match find_row(&m, col) {
                    Some(i) => {
                        if !marks[i] {
                            marks.set(i, true);
                            any = true;
                        }
                        assert(marks@[i as int]);
                    },
                    None => {},
                }
            }
            col = col + 1;
        }
        if !any {
            break;
        }
        let ghost start = m.rows@;
        let ghost idx_start = idx;
        proof {
            assert forall|p: int| 0 <= p < n && #[trigger] marks@[p] implies !in_core(orig, ocs0, idx_start[p]) by {
                let c = choose|c: usize| c < ocs && m.col_weights@[c as int] == 1 && #[trigger] m.rows@[p].cols@.contains(c);
                let j = idx_start[p];
                if in_core(orig, ocs0, j) {
                    let s = choose|s: Set<int>| singleton_free(orig, s, ocs0) && #[trigger] s.contains(j);
                    assert(orig[j] == m.rows@[p]);
                    assert(orig[j].cols@.contains(c));
                    let j2 = choose|j2: int| 0 <= j2 < orig.len() && j2 != j && s.contains(j2) && #[trigger] orig[j2].cols@.contains(c);
                    assert(in_core(orig, ocs0, j2));
                    assert(idx_start.contains(j2));
                    let p2 = choose|p2: int| 0 <= p2 < idx_start.len() && idx_start[p2] == j2;
                    assert(m.rows@[p2] == orig[j2]);
                    lemma_total_count_two(m.rows@, p, p2, c);
                }
            }
        }
        let mut i: usize = n;
        proof {
            assert(start.skip(n as int) =~= Seq::<MatrixRow>::empty());
            assert(start.take(n as int) =~= start);
        }
        while i > 0
            invariant
                i <= n,
                n == start.len(),
                marks@.len() == n,
                m.wf(),
                m.num_cols == matrix.num_cols,
                m.obstruction_col_start == matrix.obstruction_col_start,
                m.obstruction_count == matrix.obstruction_count,
                m.rows@ == start.take(i as int) + keep_unmarked(
                    start.skip(i as int),
                    marks@.skip(i as int),
                ),
                m.rows@.to_multiset().subset_of(matrix.rows@.to_multiset()),
                forall|o: Seq<Seq<usize>>|
                    provenance_consistent(matrix.rows@, o) ==> #[trigger] provenance_consistent(m.rows@, o),
                idx_start.len() == n,
                idx.len() == m.rows@.len(),
                idx.len() >= i,
                forall|k: int| 0 <= k < i ==> #[trigger] idx[k] == idx_start[k],
                forall|a: int, b: int| 0 <= a < b < idx.len() ==> idx[a] < idx[b],
                forall|a: int, b: int| 0 <= a < b < idx_start.len() ==> idx_start[a] < idx_start[b],
                forall|k: int| 0 <= k < idx.len() ==> 0 <= #[trigger] idx[k] < orig.len() && m.rows@[k] == orig[idx[k]],
                forall|p: int| 0 <= p < n && !marks@[p] ==> idx.contains(#[trigger] idx_start[p]),
            decreases i,
        {
            i = i - 1;
            proof {
                lemma_keep_unmarked_step(start, marks@, i as int);
            }
            if marks[i] {
                let ghost before = m.rows@;
                let ghost idx_before = idx;
                proof {
                    crate::filter::matrix::lemma_remove_row_wf(m, i as int);
                }
                m.remove_row(i);
                proof {
                    idx = idx.remove(i as int);
                    assert(m.rows@ =~= start.take(i as int) + keep_unmarked(
                        start.skip(i as int),
                        marks@.skip(i as int),
                    ));
                    assert forall|x: MatrixRow| m.rows@.to_multiset().count(x) <= matrix.rows@.to_multiset().count(x) by {
                        assert(m.rows@.to_multiset() == before.to_multiset().remove(before[i as int]));
                    }
                    assert forall|o: Seq<Seq<usize>>|
                        provenance_consistent(matrix.rows@, o) implies #[trigger] provenance_consistent(m.rows@, o) by {
                        assert(provenance_consistent(before, o));
                        lemma_remove_consistent(before, i as int, o);
                    }
                    assert forall|k: int| 0 <= k < idx.len() implies 0 <= #[trigger] idx[k] < orig.len() && m.rows@[k] == orig[idx[k]] by {
                        if k < i {
                            assert(idx[k] == idx_before[k]);
                        } else {
                            assert(idx[k] == idx_before[k + 1]);
                        }
                    }
                    assert forall|p: int| 0 <= p < n && !marks@[p] implies idx.contains(#[trigger] idx_start[p]) by {
                        assert(idx_before.contains(idx_start[p]));
                        let q = choose|q: int| 0 <= q < idx_before.len() && idx_before[q] == idx_start[p];
                        assert(idx_before[i as int] == idx_start[i as int]);
                        assert(q != i);
                        if q < i {
                            assert(idx[q] == idx_start[p]);
                        } else {
                            assert(idx[q - 1] == idx_start[p]);
                        }
                    }
                }
            } else {
                assert(m.rows@ =~= start.take(i as int) + keep_unmarked(
                    start.skip(i as int),
                    marks@.skip(i as int),
                ));
            }
        }
        proof {
            assert(start.skip(0) =~= start);
            assert(marks@.skip(0) =~= marks@);
            assert(m.rows@ =~= keep_unmarked(start, marks@));
            lemma_keep_unmarked_len(start, marks@);
            assert forall|j: int| 0 <= j < orig.len() && #[trigger] in_core(orig, ocs0, j) implies idx.contains(j) by {
                assert(idx_start.contains(j));
                let p = choose|p: int| 0 <= p < idx_start.len() && idx_start[p] == j;
                if marks@[p] {
                    assert(!in_core(orig, ocs0, idx_start[p]));
                }
            }
        }
    }
    proof {
        let kept = Set::new(|j: int| idx.contains(j));
        let ocs = m.obstruction_col_start;
        assert forall|i: int, c: usize|
            #![trigger kept.contains(i), orig[i].cols@.contains(c)]
            0 <= i < orig.len() && kept.contains(i) && c < ocs0 && orig[i].cols@.contains(c) implies exists|j: int|
                0 <= j < orig.len() && j != i && kept.contains(j) && #[trigger] orig[j].cols@.contains(c) by {
            let k = choose|k: int| 0 <= k < idx.len() && idx[k] == i;
            assert(m.rows@[k] == orig[i]);
            assert(crate::filter::matrix::row_wf(m.rows@[k], m.num_cols as nat));
            let q = choose|q: int| 0 <= q < orig[i].cols@.len() && orig[i].cols@[q] == c;
            assert(c < m.num_cols);
            lemma_total_count_held(m.rows@, k, c);
            assert(m.col_weights@[c as int] != 1);
            let k2 = lemma_other_row(m.rows@, k, c);
            assert(idx[k2] != idx[k]) by {
                if k2 < k {
                    assert(idx[k2] < idx[k]);
                } else {
                    assert(idx[k] < idx[k2]);
                }
            }
            assert(kept.contains(idx[k2]));
            assert(orig[idx[k2]].cols@.contains(c));
        }
        assert(singleton_free(orig, kept, ocs0));
        let core = singleton_core(orig, ocs0);
        assert forall|j: int| 0 <= j < orig.len() implies (core.contains(j) <==> kept.contains(j)) by {
            if kept.contains(j) {
                assert(in_core(orig, ocs0, j));
            }
        }
        lemma_select_rows_indices(orig, idx, m.rows@);
        lemma_select_rows_agree(orig, kept, core);
    }
    m
}

} // verus!
