//! Filtering of the sparse GF(2) relation matrix: building it from relations, singleton
//! removal, clique pruning and column merging.

pub mod matrix;
pub mod merge;
pub mod partition;
pub mod provenance;
pub mod seqs;
pub mod singleton;

pub use matrix::{MatrixRow, SparseMatrix, EXCESS_FLOOR};
pub use merge::{merge_columns, prune_cliques};
pub use singleton::remove_singletons;

use vstd::prelude::*;
use crate::filter::matrix::{lemma_total_count_push, row_wf, total_count};
use crate::filter::provenance::{lemma_prov_count_push, prov_count, prov_hits, provenance_consistent, sums_provenance};
use crate::filter::seqs::{count_in, lemma_count_sorted, lemma_count_take_step, strictly_sorted};
use crate::sieve::factor_base::FactorBase;
use crate::sieve::{parity_at, Relation};

verus! {

/// The columns `offset + k`, `k < n`, whose exponent in `entries` is odd, ascending.
pub open spec fn parity_cols(entries: Seq<(usize, u32)>, n: nat, offset: nat) -> Seq<usize>
    decreases n,
{
    if n == 0 {
        Seq::empty()
    } else {
        let prev = parity_cols(entries, (n - 1) as nat, offset);
        if parity_at(entries, (n - 1) as usize) {
            prev.push((offset + n - 1) as usize)
        } else {
            prev
        }
    }
}

/// The columns of the row of a relation in a matrix with `rat` rational and `alg` algebraic
/// columns: odd rational exponents, odd algebraic exponents shifted by `rat`, then the sign
/// column `rat + alg` when the rational norm is negative.
pub open spec fn relation_cols(rel: Relation, rat: nat, alg: nat) -> Seq<usize> {
    parity_cols(rel.rational_exponents.entries@, rat, 0) + parity_cols(rel.algebraic_exponents.entries@, alg, rat)
        + if rel.rational_sign {
        seq![(rat + alg) as usize]
    } else {
        Seq::<usize>::empty()
    }
}

/// The rows of a relation corpus, as column lists (see `relation_cols`).
pub open spec fn relation_rows(relations: Seq<Relation>, rat: nat, alg: nat) -> Seq<Seq<usize>> {
    Seq::new(relations.len(), |i: int| relation_cols(relations[i], rat, alg))
}

/// `parity_cols` is strictly increasing inside `[offset, offset + n)`.
pub proof fn lemma_parity_cols_range(entries: Seq<(usize, u32)>, n: nat, offset: nat)
    requires
        offset + n <= usize::MAX,
    ensures
        strictly_sorted(parity_cols(entries, n, offset)),
        forall|k: int|
            0 <= k < parity_cols(entries, n, offset).len() ==> offset <= #[trigger] parity_cols(entries, n, offset)[k]
                < offset + n,
    decreases n,
{
    if n > 0 {
        lemma_parity_cols_range(entries, (n - 1) as nat, offset);
    }
}

/// With strictly sorted rows, a column occurs at most once per row.
pub(crate) proof fn lemma_total_count_bound(rows: Seq<MatrixRow>, c: usize)
    requires
        forall|i: int| 0 <= i < rows.len() ==> strictly_sorted(#[trigger] rows[i].cols@),
    ensures
        total_count(rows, c) <= rows.len(),
    decreases rows.len(),
{
    if rows.len() > 0 {
        lemma_total_count_bound(rows.drop_last(), c);
        lemma_count_sorted(rows.last().cols@, c);
        assert(rows.drop_last().len() == rows.len() - 1);
    }
}

/// The filtering matrix of a relation corpus: row `i` holds the odd rational exponents, the
/// odd algebraic exponents (shifted past the rational columns) and the sign column of
/// relation `i`, with provenance `[i]`; the column weights count the rows.
pub fn build_matrix(relations: &[Relation], fb: &FactorBase) -> (m: SparseMatrix)
    requires
        fb.rational_primes@.len() + fb.algebraic_ideals@.len() + fb.obstruction_count < usize::MAX,
        relations@.len() < u32::MAX,
        fb.obstruction_count >= 1 || forall|i: int| 0 <= i < relations@.len() ==> !(#[trigger] relations@[i]).rational_sign,
        forall|i: int, k: int|
            0 <= i < relations@.len() && 0 <= k < relations@[i].rational_exponents.entries@.len() ==> (
            #[trigger] relations@[i].rational_exponents.entries@[k]).0 < fb.rational_primes@.len(),
    ensures
        m.wf(),
        m.num_cols == fb.rational_primes@.len() + fb.algebraic_ideals@.len() + fb.obstruction_count,
        m.obstruction_col_start == fb.rational_primes@.len() + fb.algebraic_ideals@.len(),
        m.obstruction_count == fb.obstruction_count,
        m.rows@.len() == relations@.len(),
        forall|i: int|
            0 <= i < relations@.len() ==> {
                &&& (#[trigger] m.rows@[i]).cols@ == relation_cols(
                    relations@[i],
                    fb.rational_primes@.len(),
                    fb.algebraic_ideals@.len(),
                )
                &&& m.rows@[i].provenance@ == seq![i as usize]
            },
        provenance_consistent(
            m.rows@,
            relation_rows(relations@, fb.rational_primes@.len(), fb.algebraic_ideals@.len()),
        ),
{
    let num_cols = fb.matrix_width();
    let rat_size = fb.rational_size();
    let alg_size = fb.algebraic_size();
    let obstruction_col_start = rat_size + alg_size;
    let obstruction_count = fb.obstruction_count;
    let mut col_weights: Vec<u32> = Vec::with_capacity(num_cols);
    let mut w: usize = 0;
    while w < num_cols
        invariant
            w <= num_cols,
            col_weights@ == Seq::new(w as nat, |k: int| 0u32),
        decreases num_cols - w,
    {
        col_weights.push(0u32);
        w = w + 1;
    }
    let mut rows: Vec<MatrixRow> = Vec::with_capacity(relations.len());
    let ghost rat = rat_size as nat;
    let ghost alg = alg_size as nat;
    proof {
        assert forall|c: usize| c < num_cols implies #[trigger] col_weights@[c as int] == total_count(rows@, c) by {}
    }
    let mut i: usize = 0;
    while i < relations.len()
        invariant
            i <= relations@.len(),
            relations@.len() < u32::MAX,
            rat == fb.rational_primes@.len(),
            alg == fb.algebraic_ideals@.len(),
            rat_size == rat,
            alg_size == alg,
            obstruction_col_start == rat + alg,
            num_cols == rat + alg + fb.obstruction_count,
            num_cols < usize::MAX,
            fb.obstruction_count >= 1 || forall|j: int| 0 <= j < relations@.len() ==> !(#[trigger] relations@[j]).rational_sign,
            forall|j: int, k: int|
                0 <= j < relations@.len() && 0 <= k < relations@[j].rational_exponents.entries@.len() ==> (
                #[trigger] relations@[j].rational_exponents.entries@[k]).0 < rat,
            rows@.len() == i,
            col_weights@.len() == num_cols,
            forall|c: usize| c < num_cols ==> #[trigger] col_weights@[c as int] == total_count(rows@, c),
            forall|j: int|
                0 <= j < i ==> {
                    &&& (#[trigger] rows@[j]).cols@ == relation_cols(relations@[j], rat, alg)
                    &&& rows@[j].provenance@ == seq![j as usize]
                    &&& row_wf(rows@[j], num_cols as nat)
                },
            forall|x: usize| #[trigger] prov_count(rows@, x) == if x < i { 1nat } else { 0nat },
        decreases relations@.len() - i,
    {
        let relation = &relations[i];
        let rat_row = relation.rational_row_gf2(fb);
        let alg_row = relation.algebraic_row_gf2(fb);
        let ghost re = relation.rational_exponents.entries@;
        let ghost ae = relation.algebraic_exponents.entries@;
        let mut cols: Vec<usize> = Vec::new();
        let mut k: usize = 0;
        while k < rat_size
            invariant
                k <= rat_size,
                rat_size == rat,
                rat_row@.len() == rat + 1,
                forall|c: int| 0 <= c < rat ==> #[trigger] rat_row@[c + 1] == parity_at(re, c as usize),
                cols@ == parity_cols(re, k as nat, 0),
            decreases rat_size - k,
        {
            if rat_row[1 + k] {
                cols.push(k);
            }
            k = k + 1;
        }
        let ghost rat_part = cols@;
        let mut k: usize = 0;
        while k < alg_size
            invariant
                k <= alg_size,
                alg_size == alg,
                rat_size == rat,
                rat + alg < usize::MAX,
                alg_row@.len() == alg + fb.obstruction_count,
                forall|c: int| 0 <= c < alg_row@.len() ==> #[trigger] alg_row@[c] == (c < alg && parity_at(ae, c as usize)),
                cols@ == rat_part + parity_cols(ae, k as nat, rat),
            decreases alg_size - k,
        {
            if alg_row[k] {
                cols.push(rat_size + k);
                assert(cols@ =~= rat_part + parity_cols(ae, (k + 1) as nat, rat));
            } else {
                assert(cols@ =~= rat_part + parity_cols(ae, (k + 1) as nat, rat));
            }
            k = k + 1;
        }
        if rat_row[0] {
            cols.push(obstruction_col_start);
        }
        proof {
            assert(cols@ =~= relation_cols(relations@[i as int], rat, alg));
            lemma_parity_cols_range(re, rat, 0);
            lemma_parity_cols_range(ae, alg, rat);
            let s = cols@;
            let r1 = parity_cols(re, rat, 0);
            let r2 = parity_cols(ae, alg, rat);
            assert forall|a: int, b: int| 0 <= a < b < s.len() implies s[a] < s[b] by {
                if b < r1.len() {
                } else if a < r1.len() {
                    assert(s[a] == r1[a]);
                    if b < r1.len() + r2.len() {
                        assert(s[b] == r2[b - r1.len()]);
                    }
                } else if b < r1.len() + r2.len() {
                    assert(s[a] == r2[a - r1.len()]);
                    assert(s[b] == r2[b - r1.len()]);
                } else {
                    if a >= r1.len() {
                        assert(s[a] == r2[a - r1.len()]);
                    }
                }
            }
            assert forall|q: int| 0 <= q < s.len() implies #[trigger] s[q] < num_cols by {
                if q < r1.len() {
                    assert(s[q] == r1[q]);
                } else if q < r1.len() + r2.len() {
                    assert(s[q] == r2[q - r1.len()]);
                } else {
                    assert(relations@[i as int].rational_sign);
                }
            }
            assert forall|j: int| 0 <= j < rows@.len() implies strictly_sorted(#[trigger] rows@[j].cols@) by {
                assert(row_wf(rows@[j], num_cols as nat));
            }
        }
        let m = cols.len();
        let mut t: usize = 0;
        while t < m
            invariant
                m == cols@.len(),
                t <= m,
                strictly_sorted(cols@),
                forall|q: int| 0 <= q < cols@.len() ==> #[trigger] cols@[q] < num_cols,
                i < relations@.len(),
                relations@.len() < u32::MAX,
                rows@.len() == i,
                forall|j: int| 0 <= j < rows@.len() ==> strictly_sorted(#[trigger] rows@[j].cols@),
                col_weights@.len() == num_cols,
                forall|c: usize| c < num_cols ==> #[trigger] col_weights@[c as int] == total_count(rows@, c) + count_in(cols@.take(t as int), c),
            decreases m - t,
        {
            let c = cols[t];
            proof {
                lemma_total_count_bound(rows@, c);
                lemma_count_sorted(cols@.take(t as int), c);
                assert(!cols@.take(t as int).contains(c)) by {
                    if cols@.take(t as int).contains(c) {
                        let q = choose|q: int| 0 <= q < t && cols@.take(t as int)[q] == c;
                        assert(cols@[q] < cols@[t as int]);
                    }
                }
                assert forall|c2: usize| c2 < num_cols implies #[trigger] col_weights@.update(c as int, (col_weights@[c as int] + 1) as u32)[c2 as int] == total_count(rows@, c2) + count_in(cols@.take(t + 1), c2) by {
                    lemma_count_take_step(cols@, t as int, c2);
                }
            }
            let nw = col_weights[c] + 1;
            col_weights.set(c, nw);
            t = t + 1;
        }
        proof {
            assert(cols@.take(m as int) =~= cols@);
        }
        let row = MatrixRow { cols, provenance: vec![i] };
        let ghost before = rows@;
        rows.push(row);
        proof {
            assert forall|x: usize| #[trigger] prov_count(rows@, x) == if x < i + 1 { 1nat } else { 0nat } by {
                lemma_prov_count_push(before, row, x);
                assert(row.provenance@ =~= seq![i]);
                assert(row.provenance@.drop_last() =~= Seq::<usize>::empty());
                assert(count_in(row.provenance@.drop_last(), x) == 0);
                assert(count_in(row.provenance@, x) == if x == i { 1nat } else { 0nat });
            }
            assert forall|c: usize| c < num_cols implies #[trigger] col_weights@[c as int] == total_count(rows@, c) by {
                lemma_total_count_push(before, row, c);
            }
            assert forall|j: int|
                0 <= j < i + 1 implies {
                    &&& (#[trigger] rows@[j]).cols@ == relation_cols(relations@[j], rat, alg)
                    &&& rows@[j].provenance@ == seq![j as usize]
                    &&& row_wf(rows@[j], num_cols as nat)
                } by {
                if j < i {
                    assert(rows@[j] == before[j]);
                }
            }
        }
        i = i + 1;
    }
    proof {
        let orig = relation_rows(relations@, rat, alg);
        assert forall|j: int| 0 <= j < rows@.len() implies sums_provenance(orig, #[trigger] rows@[j]) by {
            let p = rows@[j].provenance@;
            assert(p.drop_first() =~= Seq::<usize>::empty());
            assert forall|c: usize| #[trigger] rows@[j].cols@.contains(c) <==> prov_hits(orig, p, c) % 2 == 1 by {
                assert(prov_hits(orig, p, c) == (if p[0] < orig.len() && orig[p[0] as int].contains(c) { 1nat } else { 0nat }) + prov_hits(orig, p.drop_first(), c));
            }
        }
        assert forall|x: usize| #[trigger] prov_count(rows@, x) <= 1 by {}
    }
    SparseMatrix { rows, num_cols, obstruction_col_start, obstruction_count, col_weights }
}

} // verus!
