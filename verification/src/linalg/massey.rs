//! Massey's lower bound on the length of a linear feedback shift register: a register that
//! generates a prefix of a sequence but fails on the next term forces every register that
//! generates one term more to be long.

use vstd::prelude::*;
use crate::linalg::wiedemann::{coef, lfsr_sum};

verus! {

/// `c` generates `s` at every position `k` with `c.len() - 1 <= k < n`.
pub open spec fn generates_prefix(c: Seq<bool>, s: Seq<bool>, n: int) -> bool {
    forall|k: int| c.len() - 1 <= k < n ==> !#[trigger] lfsr_sum(c, s, k, c.len() as int)
}

/// `f_i g_j s_{n-i-j}`: one term of the double feedback sum of `f` and `g` at `n`.
spec fn term(f: Seq<bool>, g: Seq<bool>, s: Seq<bool>, n: int, i: int, j: int) -> bool {
    coef(f, i) && coef(g, j) && s[n - i - j]
}

/// Row `i` of the double sum: `sum_{j < b} term(i, j)`.
spec fn row_xor(f: Seq<bool>, g: Seq<bool>, s: Seq<bool>, n: int, i: int, b: int) -> bool
    decreases b,
{
    if b <= 0 {
        false
    } else {
        row_xor(f, g, s, n, i, b - 1) != term(f, g, s, n, i, b - 1)
    }
}

/// Column `j` of the double sum: `sum_{i < a} term(i, j)`.
spec fn col_xor(f: Seq<bool>, g: Seq<bool>, s: Seq<bool>, n: int, j: int, a: int) -> bool
    decreases a,
{
    if a <= 0 {
        false
    } else {
        col_xor(f, g, s, n, j, a - 1) != term(f, g, s, n, a - 1, j)
    }
}

/// The double sum taken row by row: `sum_{i < a} row_xor(i, b)`.
spec fn rows_total(f: Seq<bool>, g: Seq<bool>, s: Seq<bool>, n: int, a: int, b: int) -> bool
    decreases a,
{
    if a <= 0 {
        false
    } else {
        rows_total(f, g, s, n, a - 1, b) != row_xor(f, g, s, n, a - 1, b)
    }
}

/// The double sum taken column by column: `sum_{j < b} col_xor(j, a)`.
spec fn cols_total(f: Seq<bool>, g: Seq<bool>, s: Seq<bool>, n: int, a: int, b: int) -> bool
    decreases b,
{
    if b <= 0 {
        false
    } else {
        cols_total(f, g, s, n, a, b - 1) != col_xor(f, g, s, n, b - 1, a)
    }
}

/// With no rows, every column sum vanishes.
proof fn lemma_cols_total_empty(f: Seq<bool>, g: Seq<bool>, s: Seq<bool>, n: int, b: int)
    ensures
        !cols_total(f, g, s, n, 0, b),
    decreases b,
{
    if b > 0 {
        lemma_cols_total_empty(f, g, s, n, b - 1);
    }
}

/// Adding row `a - 1` to every column adds that row's sum to the column-wise total.
proof fn lemma_cols_total_step(f: Seq<bool>, g: Seq<bool>, s: Seq<bool>, n: int, a: int, b: int)
    requires
        a >= 1,
    ensures
        cols_total(f, g, s, n, a, b) == (cols_total(f, g, s, n, a - 1, b) != row_xor(f, g, s, n, a - 1, b)),
    decreases b,
{
    if b > 0 {
        lemma_cols_total_step(f, g, s, n, a, b - 1);
    }
}

/// The double sum is the same taken by rows or by columns.
proof fn lemma_exchange(f: Seq<bool>, g: Seq<bool>, s: Seq<bool>, n: int, a: int, b: int)
    ensures
        rows_total(f, g, s, n, a, b) == cols_total(f, g, s, n, a, b),
    decreases a,
{
    if a <= 0 {
        lemma_cols_total_empty(f, g, s, n, b);
        assert(cols_total(f, g, s, n, a, b) == cols_total(f, g, s, n, 0, b)) by {
            lemma_cols_total_agree(f, g, s, n, a, b);
        }
    } else {
        lemma_exchange(f, g, s, n, a - 1, b);
        lemma_cols_total_step(f, g, s, n, a, b);
    }
}

/// For `a <= 0` no row contributes to a column.
proof fn lemma_cols_total_agree(f: Seq<bool>, g: Seq<bool>, s: Seq<bool>, n: int, a: int, b: int)
    requires
        a <= 0,
    ensures
        cols_total(f, g, s, n, a, b) == cols_total(f, g, s, n, 0, b),
    decreases b,
{
    if b > 0 {
        lemma_cols_total_agree(f, g, s, n, a, b - 1);
    }
}

/// Row `i` is `f_i` times the feedback sum of `g` at `n - i`.
proof fn lemma_row_is_feedback(f: Seq<bool>, g: Seq<bool>, s: Seq<bool>, n: int, i: int, b: int)
    ensures
        row_xor(f, g, s, n, i, b) == (coef(f, i) && lfsr_sum(g, s, n - i, b)),
    decreases b,
{
    if b > 0 {
        lemma_row_is_feedback(f, g, s, n, i, b - 1);
        assert(n - i - (b - 1) == (n - i) - (b - 1));
    }
}

/// Column `j` is `g_j` times the feedback sum of `f` at `n - j`.
proof fn lemma_col_is_feedback(f: Seq<bool>, g: Seq<bool>, s: Seq<bool>, n: int, j: int, a: int)
    ensures
        col_xor(f, g, s, n, j, a) == (coef(g, j) && lfsr_sum(f, s, n - j, a)),
    decreases a,
{
    if a > 0 {
        lemma_col_is_feedback(f, g, s, n, j, a - 1);
        assert(n - (a - 1) - j == (n - j) - (a - 1));
    }
}

/// Rows that all vanish sum to zero.
proof fn lemma_rows_vanish(f: Seq<bool>, g: Seq<bool>, s: Seq<bool>, n: int, a: int, b: int)
    requires
        forall|i: int| 0 <= i < a ==> !#[trigger] row_xor(f, g, s, n, i, b),
    ensures
        !rows_total(f, g, s, n, a, b),
    decreases a,
{
    if a > 0 {
        lemma_rows_vanish(f, g, s, n, a - 1, b);
    }
}

/// Columns of which only column 0 is set sum to one.
proof fn lemma_cols_first_only(f: Seq<bool>, g: Seq<bool>, s: Seq<bool>, n: int, a: int, b: int)
    requires
        b >= 1,
        col_xor(f, g, s, n, 0, a),
        forall|j: int| 1 <= j < b ==> !#[trigger] col_xor(f, g, s, n, j, a),
    ensures
        cols_total(f, g, s, n, a, b),
    decreases b,
{
    if b > 1 {
        lemma_cols_first_only(f, g, s, n, a, b - 1);
    } else {
        assert(!cols_total(f, g, s, n, a, 0));
    }
}

/// Massey's lemma. If `f` (with `f_0 = 1`) generates `s` up to position `n` but not at `n`,
/// then every `g` (with `g_0 = 1`) that generates `s` up to and including position `n` has
/// length `g.len() - 1 >= n + 1 - (f.len() - 1)`.
pub proof fn lemma_massey(f: Seq<bool>, g: Seq<bool>, s: Seq<bool>, n: int)
    requires
        f.len() >= 1,
        f[0],
        g.len() >= 1,
        g[0],
        f.len() - 1 <= n,
        generates_prefix(f, s, n),
        lfsr_sum(f, s, n, f.len() as int),
        generates_prefix(g, s, n + 1),
    ensures
        g.len() - 1 >= n + 1 - (f.len() - 1),
{
    let a = f.len() as int;
    let b = g.len() as int;
    if (a - 1) + (b - 1) <= n {
        assert forall|i: int| 0 <= i < a implies !#[trigger] row_xor(f, g, s, n, i, b) by {
            lemma_row_is_feedback(f, g, s, n, i, b);
            assert(!lfsr_sum(g, s, n - i, b));
        }
        lemma_rows_vanish(f, g, s, n, a, b);
        lemma_col_is_feedback(f, g, s, n, 0, a);
        assert(coef(g, 0));
        assert forall|j: int| 1 <= j < b implies !#[trigger] col_xor(f, g, s, n, j, a) by {
            lemma_col_is_feedback(f, g, s, n, j, a);
            assert(!lfsr_sum(f, s, n - j, a));
        }
        lemma_cols_first_only(f, g, s, n, a, b);
        lemma_exchange(f, g, s, n, a, b);
    }
}

} // verus!
