//! `f(B) y` as a polynomial in `B`: the Horner evaluation that Wiedemann uses equals the sum
//! `sum_k f_k B^k y` of the Krylov vectors, because `B = A A^T` is linear over GF(2).

use vstd::prelude::*;
use crate::filter::matrix::MatrixRow;
use crate::linalg::operator::{apply_words, cols_in_range, gram_words, occ_xor, scatter, transpose_words, xor_gather};
use crate::linalg::wiedemann::{horner, krylov, words_xor};

verus! {

/// The all-zero block of `n` words.
pub open spec fn zero_block(n: nat) -> Seq<u64> {
    Seq::new(n, |i: int| 0u64)
}

/// Term `k` of the sum from `j`: `f_k B^(k - j) y`, or zero.
pub open spec fn krylov_term(rows: Seq<MatrixRow>, ncols: nat, y: Seq<u64>, f: Seq<bool>, j: int, k: int) -> Seq<u64> {
    if f[k] {
        krylov(rows, ncols, y, (k - j) as nat)
    } else {
        zero_block(y.len())
    }
}

/// `sum_{j <= k < m} f_k B^(k - j) y` over GF(2).
pub open spec fn krylov_sum(rows: Seq<MatrixRow>, ncols: nat, y: Seq<u64>, f: Seq<bool>, j: int, m: int) -> Seq<u64>
    decreases m - j,
{
    if m <= j {
        zero_block(y.len())
    } else {
        words_xor(krylov_sum(rows, ncols, y, f, j, m - 1), krylov_term(rows, ncols, y, f, j, m - 1))
    }
}

/// Four words regrouped: `(a ^ b) ^ (c ^ d) == (a ^ c) ^ (b ^ d)`.
proof fn lemma_xor4(a: u64, b: u64, c: u64, d: u64)
    ensures
        (a ^ b) ^ (c ^ d) == (a ^ c) ^ (b ^ d),
{
    assert((a ^ b) ^ (c ^ d) == (a ^ c) ^ (b ^ d)) by (bit_vector);
}

/// Word-level facts: zero is neutral, XOR commutes and associates.
proof fn lemma_xor_basics(a: u64, b: u64, c: u64)
    ensures
        a ^ 0u64 == a,
        0u64 ^ a == a,
        0u64 ^ 0u64 == 0u64,
        a ^ b == b ^ a,
        (a ^ b) ^ c == a ^ (b ^ c),
{
    assert(a ^ 0u64 == a && 0u64 ^ a == a && 0u64 ^ 0u64 == 0u64 && a ^ b == b ^ a && (a ^ b) ^ c == a ^ (b ^ c))
        by (bit_vector);
}

/// Gathering is additive.
proof fn lemma_gather_xor(u: Seq<u64>, v: Seq<u64>, cols: Seq<usize>)
    requires
        u.len() == v.len(),
        forall|k: int| 0 <= k < cols.len() ==> #[trigger] cols[k] < u.len(),
    ensures
        xor_gather(words_xor(u, v), cols) == xor_gather(u, cols) ^ xor_gather(v, cols),
    decreases cols.len(),
{
    if cols.len() == 0 {
        lemma_xor_basics(0, 0, 0);
    } else {
        let c = cols.last();
        assert(cols[cols.len() - 1] == c);
        lemma_gather_xor(u, v, cols.drop_last());
        lemma_xor4(xor_gather(u, cols.drop_last()), xor_gather(v, cols.drop_last()), u[c as int], v[c as int]);
    }
}

/// Gathering from the zero block gives zero.
proof fn lemma_gather_zero(n: nat, cols: Seq<usize>)
    requires
        forall|k: int| 0 <= k < cols.len() ==> #[trigger] cols[k] < n,
    ensures
        xor_gather(zero_block(n), cols) == 0u64,
    decreases cols.len(),
{
    if cols.len() > 0 {
        assert(cols[cols.len() - 1] == cols.last());
        lemma_gather_zero(n, cols.drop_last());
        lemma_xor_basics(0, 0, 0);
    }
}

/// Occurrence sums are additive in the word.
proof fn lemma_occ_xor_additive(cols: Seq<usize>, c: usize, w1: u64, w2: u64)
    ensures
        occ_xor(cols, c, w1 ^ w2) == occ_xor(cols, c, w1) ^ occ_xor(cols, c, w2),
    decreases cols.len(),
{
    if cols.len() == 0 {
        lemma_xor_basics(0, 0, 0);
    } else {
        lemma_occ_xor_additive(cols.drop_last(), c, w1, w2);
        lemma_xor4(occ_xor(cols.drop_last(), c, w1), occ_xor(cols.drop_last(), c, w2), w1, w2);
    }
}

/// The occurrence sum of the zero word is zero.
proof fn lemma_occ_xor_zero_word(cols: Seq<usize>, c: usize)
    ensures
        occ_xor(cols, c, 0u64) == 0u64,
    decreases cols.len(),
{
    if cols.len() > 0 {
        lemma_occ_xor_zero_word(cols.drop_last(), c);
        lemma_xor_basics(0, 0, 0);
    }
}

/// Scattering is additive.
proof fn lemma_scatter_xor(rows: Seq<MatrixRow>, u: Seq<u64>, v: Seq<u64>, c: usize, n: int)
    requires
        u.len() == v.len(),
        n <= u.len(),
    ensures
        scatter(rows, words_xor(u, v), c, n) == scatter(rows, u, c, n) ^ scatter(rows, v, c, n),
    decreases n,
{
    if n <= 0 {
        lemma_xor_basics(0, 0, 0);
    } else {
        lemma_scatter_xor(rows, u, v, c, n - 1);
        lemma_occ_xor_additive(rows[n - 1].cols@, c, u[n - 1], v[n - 1]);
        lemma_xor4(
            scatter(rows, u, c, n - 1),
            scatter(rows, v, c, n - 1),
            occ_xor(rows[n - 1].cols@, c, u[n - 1]),
            occ_xor(rows[n - 1].cols@, c, v[n - 1]),
        );
    }
}

/// Scattering the zero block gives zero.
proof fn lemma_scatter_zero(rows: Seq<MatrixRow>, len: nat, c: usize, n: int)
    requires
        n <= len,
    ensures
        scatter(rows, zero_block(len), c, n) == 0u64,
    decreases n,
{
    if n > 0 {
        lemma_scatter_zero(rows, len, c, n - 1);
        lemma_occ_xor_zero_word(rows[n - 1].cols@, c);
        lemma_xor_basics(0, 0, 0);
    }
}

/// `B` is additive: `B (u + v) = B u + B v`.
pub proof fn lemma_gram_additive(rows: Seq<MatrixRow>, ncols: nat, u: Seq<u64>, v: Seq<u64>)
    requires
        u.len() == rows.len(),
        v.len() == rows.len(),
        cols_in_range(rows, ncols),
    ensures
        gram_words(rows, ncols, words_xor(u, v)) == words_xor(gram_words(rows, ncols, u), gram_words(rows, ncols, v)),
{
    let tu = transpose_words(rows, ncols, u);
    let tv = transpose_words(rows, ncols, v);
    assert(transpose_words(rows, ncols, words_xor(u, v)) =~= words_xor(tu, tv)) by {
        assert forall|c: int| 0 <= c < ncols implies #[trigger] transpose_words(rows, ncols, words_xor(u, v))[c] == words_xor(tu, tv)[c] by {
            lemma_scatter_xor(rows, u, v, c as usize, rows.len() as int);
        }
    }
    assert forall|i: int| 0 <= i < rows.len() implies #[trigger] apply_words(rows, words_xor(tu, tv))[i]
        == words_xor(apply_words(rows, tu), apply_words(rows, tv))[i] by {
        assert forall|k: int| 0 <= k < rows[i].cols@.len() implies #[trigger] rows[i].cols@[k] < tu.len() by {}
        lemma_gather_xor(tu, tv, rows[i].cols@);
    }
    assert(apply_words(rows, words_xor(tu, tv)) =~= words_xor(apply_words(rows, tu), apply_words(rows, tv)));
}

/// `B 0 = 0`.
pub proof fn lemma_gram_zero(rows: Seq<MatrixRow>, ncols: nat)
    requires
        cols_in_range(rows, ncols),
    ensures
        gram_words(rows, ncols, zero_block(rows.len())) == zero_block(rows.len()),
{
    assert(transpose_words(rows, ncols, zero_block(rows.len())) =~= zero_block(ncols)) by {
        assert forall|c: int| 0 <= c < ncols implies #[trigger] transpose_words(rows, ncols, zero_block(rows.len()))[c] == 0u64 by {
            lemma_scatter_zero(rows, rows.len(), c as usize, rows.len() as int);
        }
    }
    assert forall|i: int| 0 <= i < rows.len() implies #[trigger] apply_words(rows, zero_block(ncols))[i] == 0u64 by {
        assert forall|k: int| 0 <= k < rows[i].cols@.len() implies #[trigger] rows[i].cols@[k] < ncols by {}
        lemma_gather_zero(ncols, rows[i].cols@);
    }
    assert(apply_words(rows, zero_block(ncols)) =~= zero_block(rows.len()));
}

/// Krylov vectors keep the block length.
proof fn lemma_krylov_len(rows: Seq<MatrixRow>, ncols: nat, y: Seq<u64>, k: nat)
    requires
        y.len() == rows.len(),
    ensures
        krylov(rows, ncols, y, k).len() == rows.len(),
    decreases k,
{
    if k > 0 {
        lemma_krylov_len(rows, ncols, y, (k - 1) as nat);
    }
}

/// Partial sums keep the block length.
proof fn lemma_krylov_sum_len(rows: Seq<MatrixRow>, ncols: nat, y: Seq<u64>, f: Seq<bool>, j: int, m: int)
    requires
        y.len() == rows.len(),
    ensures
        krylov_sum(rows, ncols, y, f, j, m).len() == rows.len(),
    decreases m - j,
{
    if m > j {
        lemma_krylov_sum_len(rows, ncols, y, f, j, m - 1);
    }
}

/// Peeling the lowest term: `sum_{j <= k < m} = f_j y + B sum_{j + 1 <= k < m}`.
proof fn lemma_krylov_sum_peel(rows: Seq<MatrixRow>, ncols: nat, y: Seq<u64>, f: Seq<bool>, j: int, m: int)
    requires
        y.len() == rows.len(),
        cols_in_range(rows, ncols),
        0 <= j < m <= f.len(),
    ensures
        krylov_sum(rows, ncols, y, f, j, m) == words_xor(
            krylov_term(rows, ncols, y, f, j, j),
            gram_words(rows, ncols, krylov_sum(rows, ncols, y, f, j + 1, m)),
        ),
    decreases m - j,
{
    let n = rows.len();
    lemma_gram_zero(rows, ncols);
    if m == j + 1 {
        assert(krylov_sum(rows, ncols, y, f, j, j) == zero_block(y.len()));
        assert(krylov_sum(rows, ncols, y, f, j + 1, m) == zero_block(y.len()));
        assert(krylov_term(rows, ncols, y, f, j, j).len() == n);
        assert forall|i: int| 0 <= i < n implies #[trigger] krylov_sum(rows, ncols, y, f, j, m)[i] == words_xor(
            krylov_term(rows, ncols, y, f, j, j),
            gram_words(rows, ncols, krylov_sum(rows, ncols, y, f, j + 1, m)),
        )[i] by {
            lemma_krylov_len(rows, ncols, y, 0);
            lemma_xor_basics(krylov_term(rows, ncols, y, f, j, j)[i], 0, 0);
        }
        lemma_krylov_len(rows, ncols, y, 0);
        assert(krylov_sum(rows, ncols, y, f, j, m) =~= words_xor(
            krylov_term(rows, ncols, y, f, j, j),
            gram_words(rows, ncols, krylov_sum(rows, ncols, y, f, j + 1, m)),
        ));
    } else {
        lemma_krylov_sum_peel(rows, ncols, y, f, j, m - 1);
        let a = krylov_term(rows, ncols, y, f, j, j);
        let p = krylov_sum(rows, ncols, y, f, j + 1, m - 1);
        let t1 = krylov_term(rows, ncols, y, f, j + 1, m - 1);
        let t0 = krylov_term(rows, ncols, y, f, j, m - 1);
        lemma_krylov_sum_len(rows, ncols, y, f, j + 1, m - 1);
        lemma_krylov_len(rows, ncols, y, (m - 1 - j - 1) as nat);
        lemma_krylov_len(rows, ncols, y, 0);
        assert(t0 == gram_words(rows, ncols, t1)) by {
            if f[m - 1] {
                assert((m - 1 - j) as nat == ((m - 1 - (j + 1)) as nat + 1) as nat);
            }
        }
        lemma_gram_additive(rows, ncols, p, t1);
        let gp = gram_words(rows, ncols, p);
        let gt = gram_words(rows, ncols, t1);
        assert forall|i: int| 0 <= i < n implies #[trigger] krylov_sum(rows, ncols, y, f, j, m)[i]
            == words_xor(a, gram_words(rows, ncols, krylov_sum(rows, ncols, y, f, j + 1, m)))[i] by {
            lemma_xor_basics(a[i], gp[i], gt[i]);
        }
        lemma_krylov_sum_len(rows, ncols, y, f, j, m);
        assert(krylov_sum(rows, ncols, y, f, j, m) =~= words_xor(a, gram_words(rows, ncols, krylov_sum(rows, ncols, y, f, j + 1, m))));
    }
}

/// Horner from coefficient `j` is the sum `sum_{j <= k < len} f_k B^(k - j) y`.
proof fn lemma_horner_from(rows: Seq<MatrixRow>, ncols: nat, y: Seq<u64>, f: Seq<bool>, j: int)
    requires
        y.len() == rows.len(),
        cols_in_range(rows, ncols),
        0 <= j < f.len(),
    ensures
        horner(rows, ncols, y, f, j) == krylov_sum(rows, ncols, y, f, j, f.len() as int),
    decreases f.len() - j,
{
    let n = rows.len();
    let d = f.len() - 1;
    lemma_krylov_len(rows, ncols, y, 0);
    if j == d {
        lemma_gram_zero(rows, ncols);
        assert(krylov_sum(rows, ncols, y, f, j, j) == zero_block(y.len()));
        assert(krylov_term(rows, ncols, y, f, j, j).len() == n);
        assert(krylov_sum(rows, ncols, y, f, j, f.len() as int) == words_xor(zero_block(y.len()), krylov_term(rows, ncols, y, f, j, j)));
        assert forall|i: int| 0 <= i < n implies #[trigger] horner(rows, ncols, y, f, j)[i]
            == krylov_sum(rows, ncols, y, f, j, f.len() as int)[i] by {
            lemma_xor_basics(krylov_term(rows, ncols, y, f, j, j)[i], 0, 0);
        }
        assert(horner(rows, ncols, y, f, j) =~= krylov_sum(rows, ncols, y, f, j, f.len() as int));
    } else {
        lemma_horner_from(rows, ncols, y, f, j + 1);
        lemma_krylov_sum_peel(rows, ncols, y, f, j, f.len() as int);
        let g = gram_words(rows, ncols, krylov_sum(rows, ncols, y, f, j + 1, f.len() as int));
        let a = krylov_term(rows, ncols, y, f, j, j);
        assert forall|i: int| 0 <= i < n implies #[trigger] horner(rows, ncols, y, f, j)[i]
            == krylov_sum(rows, ncols, y, f, j, f.len() as int)[i] by {
            lemma_xor_basics(g[i], a[i], 0);
        }
        lemma_krylov_sum_len(rows, ncols, y, f, j, f.len() as int);
        assert(horner(rows, ncols, y, f, j) =~= krylov_sum(rows, ncols, y, f, j, f.len() as int));
    }
}

/// The Horner evaluation of Wiedemann is `f(B) y = sum_k f_k B^k y`, with `B = A A^T` and
/// `B^k y` the Krylov vectors.
pub proof fn lemma_horner_is_polynomial(rows: Seq<MatrixRow>, ncols: nat, y: Seq<u64>, f: Seq<bool>)
    requires
        y.len() == rows.len(),
        cols_in_range(rows, ncols),
        f.len() >= 1,
    ensures
        horner(rows, ncols, y, f, 0) == krylov_sum(rows, ncols, y, f, 0, f.len() as int),
{
    lemma_horner_from(rows, ncols, y, f, 0);
}

} // verus!
