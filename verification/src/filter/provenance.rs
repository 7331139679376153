//! Provenance bookkeeping of the filtering pipeline: every row is the GF(2) sum of the
//! original rows its provenance records, and no original row feeds two rows.

use vstd::prelude::*;
use crate::filter::matrix::{row_wf, MatrixRow};
use crate::filter::merge::lemma_xor_row_wf;
use crate::filter::seqs::{
    count_in, lemma_contains_split, lemma_count_sorted, lemma_merge_symdiff, lemma_merge_union,
    lemma_sorted_drop_first, merge_symdiff, merge_union, strictly_sorted,
};

verus! {

/// How many indices of `prov` name an original row that holds column `c`.
pub open spec fn prov_hits(orig: Seq<Seq<usize>>, prov: Seq<usize>, c: usize) -> nat
    decreases prov.len(),
{
    if prov.len() == 0 {
        0
    } else {
        (if prov[0] < orig.len() && orig[prov[0] as int].contains(c) {
            1nat
        } else {
            0nat
        }) + prov_hits(orig, prov.drop_first(), c)
    }
}

/// Row `r` is the GF(2) sum of the original rows its provenance records: it holds column `c`
/// exactly when an odd number of them do.
pub open spec fn sums_provenance(orig: Seq<Seq<usize>>, r: MatrixRow) -> bool {
    forall|c: usize| #[trigger] r.cols@.contains(c) <==> prov_hits(orig, r.provenance@, c) % 2 == 1
}

/// How many rows record original row `x` in their provenance.
pub open spec fn prov_count(rows: Seq<MatrixRow>, x: usize) -> nat
    decreases rows.len(),
{
    if rows.len() == 0 {
        0
    } else {
        prov_count(rows.drop_last(), x) + count_in(rows.last().provenance@, x)
    }
}

/// The rows are consistent with the original rows `orig`: each is the sum of the originals
/// its provenance records, and each original feeds at most one row.
pub open spec fn provenance_consistent(rows: Seq<MatrixRow>, orig: Seq<Seq<usize>>) -> bool {
    &&& forall|i: int| 0 <= i < rows.len() ==> sums_provenance(orig, #[trigger] rows[i])
    &&& forall|x: usize| #[trigger] prov_count(rows, x) <= 1
}

/// Removing row `i` removes its provenance from the counts.
pub proof fn lemma_prov_count_remove(rows: Seq<MatrixRow>, i: int, x: usize)
    requires
        0 <= i < rows.len(),
    ensures
        prov_count(rows.remove(i), x) + count_in(rows[i].provenance@, x) == prov_count(rows, x),
    decreases rows.len(),
{
    if i == rows.len() - 1 {
        assert(rows.remove(i) =~= rows.drop_last());
    } else {
        lemma_prov_count_remove(rows.drop_last(), i, x);
        assert(rows.remove(i).drop_last() =~= rows.drop_last().remove(i));
        assert(rows.remove(i).last() == rows.last());
    }
}

/// Appending a row adds its provenance to the counts.
pub proof fn lemma_prov_count_push(rows: Seq<MatrixRow>, r: MatrixRow, x: usize)
    ensures
        prov_count(rows.push(r), x) == prov_count(rows, x) + count_in(r.provenance@, x),
{
    assert(rows.push(r).drop_last() =~= rows);
}

/// Two distinct rows recording `x` make its count at least two.
pub proof fn lemma_prov_count_two(rows: Seq<MatrixRow>, i: int, j: int, x: usize)
    requires
        0 <= i < rows.len(),
        0 <= j < rows.len(),
        i != j,
        rows[i].provenance@.contains(x),
        rows[j].provenance@.contains(x),
    ensures
        prov_count(rows, x) >= 2,
{
    lemma_prov_count_remove(rows, i, x);
    let rest = rows.remove(i);
    let j2 = if j < i { j } else { j - 1 };
    assert(rest[j2] == rows[j]);
    lemma_prov_count_remove(rest, j2, x);
    lemma_count_pos(rows[i].provenance@, x);
    lemma_count_pos(rows[j].provenance@, x);
}

/// A held value is counted.
proof fn lemma_count_pos(s: Seq<usize>, x: usize)
    requires
        s.contains(x),
    ensures
        count_in(s, x) >= 1,
    decreases s.len(),
{
    if s.last() != x {
        let k = choose|k: int| 0 <= k < s.len() && s[k] == x;
        assert(s.drop_last()[k] == x);
        lemma_count_pos(s.drop_last(), x);
    }
}

/// Dropping a row keeps the rows consistent.
pub proof fn lemma_remove_consistent(rows: Seq<MatrixRow>, i: int, orig: Seq<Seq<usize>>)
    requires
        0 <= i < rows.len(),
        provenance_consistent(rows, orig),
    ensures
        provenance_consistent(rows.remove(i), orig),
{
    let rest = rows.remove(i);
    assert forall|j: int| 0 <= j < rest.len() implies sums_provenance(orig, #[trigger] rest[j]) by {
        if j < i {
            assert(rest[j] == rows[j]);
        } else {
            assert(rest[j] == rows[j + 1]);
        }
    }
    assert forall|x: usize| #[trigger] prov_count(rest, x) <= 1 by {
        lemma_prov_count_remove(rows, i, x);
        assert(prov_count(rows, x) <= 1);
    }
}

/// Hits over the union of two disjoint sorted provenance lists add up.
pub proof fn lemma_hits_union(orig: Seq<Seq<usize>>, a: Seq<usize>, b: Seq<usize>, c: usize)
    requires
        strictly_sorted(a),
        strictly_sorted(b),
        forall|x: usize| !(a.contains(x) && b.contains(x)),
    ensures
        prov_hits(orig, merge_union(a, b), c) == prov_hits(orig, a, c) + prov_hits(orig, b, c),
    decreases a.len() + b.len(),
{
    if a.len() == 0 || b.len() == 0 {
    } else if a[0] < b[0] {
        lemma_sorted_drop_first(a);
        assert forall|x: usize| !(a.drop_first().contains(x) && b.contains(x)) by {
            lemma_contains_split(a, x);
        }
        lemma_hits_union(orig, a.drop_first(), b, c);
        assert((seq![a[0]] + merge_union(a.drop_first(), b)).drop_first() =~= merge_union(a.drop_first(), b));
    } else if a[0] > b[0] {
        lemma_sorted_drop_first(b);
        assert forall|x: usize| !(a.contains(x) && b.drop_first().contains(x)) by {
            lemma_contains_split(b, x);
        }
        lemma_hits_union(orig, a, b.drop_first(), c);
        assert((seq![b[0]] + merge_union(a, b.drop_first())).drop_first() =~= merge_union(a, b.drop_first()));
    } else {
        assert(a.contains(a[0]) && b.contains(a[0]));
    }
}

/// The XOR-merge of two rows that sum their disjoint provenances sums the union.
pub proof fn lemma_xor_sums(orig: Seq<Seq<usize>>, x: MatrixRow, y: MatrixRow, r: MatrixRow, num_cols: nat)
    requires
        row_wf(x, num_cols),
        row_wf(y, num_cols),
        sums_provenance(orig, x),
        sums_provenance(orig, y),
        forall|v: usize| !(x.provenance@.contains(v) && y.provenance@.contains(v)),
        r.cols@ == merge_symdiff(x.cols@, y.cols@),
        r.provenance@ == merge_union(x.provenance@, y.provenance@),
    ensures
        sums_provenance(orig, r),
{
    lemma_merge_symdiff(x.cols@, y.cols@);
    assert forall|c: usize| #[trigger] r.cols@.contains(c) <==> prov_hits(orig, r.provenance@, c) % 2 == 1 by {
        lemma_hits_union(orig, x.provenance@, y.provenance@, c);
        assert(x.cols@.contains(c) <==> prov_hits(orig, x.provenance@, c) % 2 == 1);
        assert(y.cols@.contains(c) <==> prov_hits(orig, y.provenance@, c) % 2 == 1);
    }
}

/// Occurrences in a union of disjoint strictly sorted lists add up.
proof fn lemma_count_union(a: Seq<usize>, b: Seq<usize>, x: usize)
    requires
        strictly_sorted(a),
        strictly_sorted(b),
        forall|v: usize| !(a.contains(v) && b.contains(v)),
    ensures
        count_in(merge_union(a, b), x) == count_in(a, x) + count_in(b, x),
{
    lemma_merge_union(a, b);
    lemma_count_sorted(a, x);
    lemma_count_sorted(b, x);
    lemma_count_sorted(merge_union(a, b), x);
}

/// Replacing rows `lo < hi` by their XOR-merge keeps the rows consistent.
pub proof fn lemma_merge_two_consistent(rows: Seq<MatrixRow>, lo: int, hi: int, r: MatrixRow, num_cols: nat, orig: Seq<Seq<usize>>)
    requires
        0 <= lo < hi < rows.len(),
        forall|i: int| 0 <= i < rows.len() ==> row_wf(#[trigger] rows[i], num_cols),
        provenance_consistent(rows, orig),
        r.cols@ == merge_symdiff(rows[lo].cols@, rows[hi].cols@),
        r.provenance@ == merge_union(rows[lo].provenance@, rows[hi].provenance@),
    ensures
        provenance_consistent(rows.remove(hi).remove(lo).push(r), orig),
{
    let (x, y) = (rows[lo], rows[hi]);
    assert(row_wf(x, num_cols) && row_wf(y, num_cols));
    assert forall|v: usize| !(x.provenance@.contains(v) && y.provenance@.contains(v)) by {
        if x.provenance@.contains(v) && y.provenance@.contains(v) {
            lemma_prov_count_two(rows, lo, hi, v);
            assert(prov_count(rows, v) <= 1);
        }
    }
    lemma_xor_sums(orig, x, y, r, num_cols);
    lemma_remove_consistent(rows, hi, orig);
    let r1 = rows.remove(hi);
    assert(r1[lo] == x);
    lemma_remove_consistent(r1, lo, orig);
    let r2 = r1.remove(lo);
    let out = r2.push(r);
    assert forall|i: int| 0 <= i < out.len() implies sums_provenance(orig, #[trigger] out[i]) by {
        if i < r2.len() {
            assert(out[i] == r2[i]);
        }
    }
    assert forall|v: usize| #[trigger] prov_count(out, v) <= 1 by {
        lemma_prov_count_push(r2, r, v);
        lemma_prov_count_remove(r1, lo, v);
        lemma_prov_count_remove(rows, hi, v);
        lemma_count_union(x.provenance@, y.provenance@, v);
        assert(prov_count(rows, v) <= 1);
    }
}

/// Replacing rows `lo < mid < hi` by `(r_lo ^ r_mid) ^ r_hi` keeps the rows consistent.
pub proof fn lemma_merge_three_consistent(
    rows: Seq<MatrixRow>,
    lo: int,
    mid: int,
    hi: int,
    tmp: MatrixRow,
    r: MatrixRow,
    num_cols: nat,
    orig: Seq<Seq<usize>>,
)
    requires
        0 <= lo < mid < hi < rows.len(),
        forall|i: int| 0 <= i < rows.len() ==> row_wf(#[trigger] rows[i], num_cols),
        provenance_consistent(rows, orig),
        tmp.cols@ == merge_symdiff(rows[lo].cols@, rows[mid].cols@),
        tmp.provenance@ == merge_union(rows[lo].provenance@, rows[mid].provenance@),
        r.cols@ == merge_symdiff(tmp.cols@, rows[hi].cols@),
        r.provenance@ == merge_union(tmp.provenance@, rows[hi].provenance@),
    ensures
        provenance_consistent(rows.remove(hi).remove(mid).remove(lo).push(r), orig),
{
    let (x, y, z) = (rows[lo], rows[mid], rows[hi]);
    assert(row_wf(x, num_cols) && row_wf(y, num_cols) && row_wf(z, num_cols));
    assert forall|v: usize| !(x.provenance@.contains(v) && y.provenance@.contains(v)) by {
        if x.provenance@.contains(v) && y.provenance@.contains(v) {
            lemma_prov_count_two(rows, lo, mid, v);
            assert(prov_count(rows, v) <= 1);
        }
    }
    lemma_xor_sums(orig, x, y, tmp, num_cols);
    lemma_xor_row_wf(x, y, tmp, num_cols);
    lemma_merge_union(x.provenance@, y.provenance@);
    assert forall|v: usize| !(tmp.provenance@.contains(v) && z.provenance@.contains(v)) by {
        if tmp.provenance@.contains(v) && z.provenance@.contains(v) {
            if x.provenance@.contains(v) {
                lemma_prov_count_two(rows, lo, hi, v);
            } else {
                lemma_prov_count_two(rows, mid, hi, v);
            }
            assert(prov_count(rows, v) <= 1);
        }
    }
    lemma_xor_sums(orig, tmp, z, r, num_cols);
    lemma_remove_consistent(rows, hi, orig);
    let r1 = rows.remove(hi);
    assert(r1[mid] == y && r1[lo] == x);
    lemma_remove_consistent(r1, mid, orig);
    let r2 = r1.remove(mid);
    assert(r2[lo] == x);
    lemma_remove_consistent(r2, lo, orig);
    let r3 = r2.remove(lo);
    let out = r3.push(r);
    assert forall|i: int| 0 <= i < out.len() implies sums_provenance(orig, #[trigger] out[i]) by {
        if i < r3.len() {
            assert(out[i] == r3[i]);
        }
    }
    assert forall|v: usize| #[trigger] prov_count(out, v) <= 1 by {
        lemma_prov_count_push(r3, r, v);
        lemma_prov_count_remove(r2, lo, v);
        lemma_prov_count_remove(r1, mid, v);
        lemma_prov_count_remove(rows, hi, v);
        lemma_count_union(x.provenance@, y.provenance@, v);
        lemma_count_union(tmp.provenance@, z.provenance@, v);
        assert(prov_count(rows, v) <= 1);
    }
}

} // verus!
