//! Quadratic-character columns: products, sums and powers modulo a word-sized `q`,
//! trial-division primality, polynomial values and algebraic norms modulo `q`, complete
//! splitting, the Legendre-symbol parity by Euler's criterion, and setting the character
//! columns of the matrix from the relations' parities.

use vstd::prelude::*;
use vstd::arithmetic::div_mod::{lemma_add_mod_noop, lemma_mod_mod, lemma_mod_twice, lemma_mul_mod_noop_left, lemma_mul_mod_noop_right, lemma_small_mod};
use vstd::arithmetic::power::{lemma_pow0, lemma_pow1, lemma_pow_adds, lemma_pow_mod_noop, lemma_pow_multiplies, lemma_square_is_pow2, pow};

use crate::filter::matrix::{lemma_total_count_update, total_count, SparseMatrix};
use crate::filter::seqs::{count_in, lemma_count_sorted, sorted_contains, strictly_sorted};

verus! {

/// Number of quadratic-character columns used by default.
pub const DEFAULT_NUM_QC: usize = 10;

/// `n` is prime: at least 2 and divisible by no `d` with `2 <= d < n`.
pub open spec fn is_prime_spec(n: nat) -> bool {
    n >= 2 && forall|d: nat| 2 <= d < n ==> #[trigger] (n % d) != 0
}

/// The Legendre-symbol parity of `norm` at `q`: set exactly when `norm` is nonzero and Euler's
/// criterion `norm^((q-1)/2) mod q` gives `q - 1`.
pub open spec fn legendre_parity_spec(norm: u64, q: u64) -> bool {
    norm != 0 && pow(norm as int, ((q - 1) / 2) as nat) % (q as int) == q - 1
}

/// `a * b mod q`, through a 128-bit product.
pub fn mul_mod(a: u64, b: u64, q: u64) -> (r: u64)
    requires
        q > 0,
    ensures
        r == (a as int * b as int) % (q as int),
{
    assert((a as u128) * (b as u128) <= u128::MAX) by (nonlinear_arith);
    let p: u128 = (a as u128) * (b as u128);
    assert(p == a as int * b as int) by (nonlinear_arith)
        requires
            p == (a as u128) * (b as u128),
    ;
    ((p % (q as u128)) as u64)
}

/// `a + b`, less `q` when the sum reaches `q`: the sum modulo `q` for `a, b < q`.
pub fn add_mod(a: u64, b: u64, q: u64) -> (r: u64)
    requires
        a + b <= u64::MAX,
    ensures
        r == if a + b >= q { a + b - q } else { a + b },
        a < q && b < q ==> r == (a + b) % (q as int),
{
    let s = a + b;
    if a < q && b < q {
        if s >= q {
            assert((s as int) % (q as int) == s - q) by (nonlinear_arith)
                requires
                    q <= s < 2 * q,
            ;
        } else {
            proof {
                lemma_small_mod(s as nat, q as nat);
            }
        }
    }
    if s >= q {
        s - q
    } else {
        s
    }
}

/// `b^e` splits into the odd factor and the square raised to `e / 2`.
proof fn lemma_pow_halve(b: int, e: nat)
    ensures
        pow(b, e) == (if e % 2 == 1 { b } else { 1 }) * pow(b * b, e / 2),
{
    let h: nat = e / 2;
    let r: nat = e % 2;
    let h2: nat = 2 * h;
    assert(e == h2 + r);
    lemma_pow_adds(b, h2, r);
    lemma_pow_multiplies(b, 2, h);
    lemma_square_is_pow2(b);
    assert(pow(b, h2) == pow(b * b, h));
    lemma_pow1(b);
    lemma_pow0(b);
    let f: int = if r == 1 { b } else { 1 };
    assert(pow(b, r) == f);
    assert(pow(b, e) == pow(b, h2) * f);
    assert(pow(b, h2) * f == f * pow(b, h2)) by (nonlinear_arith);
}

/// `base^exp mod q` by square-and-multiply.
pub fn pow_mod(base: u64, exp: u64, q: u64) -> (r: u64)
    requires
        q > 0,
    ensures
        r == pow(base as int, exp as nat) % (q as int),
{
    if q == 1 {
        return 0;
    }
    let ghost target = pow(base as int, exp as nat) % (q as int);
    let mut result: u64 = 1;
    let mut b = base % q;
    let mut e = exp;
    proof {
        lemma_pow_mod_noop(base as int, exp as nat, q as int);
    }
    while e > 0
        invariant
            q > 1,
            result < q,
            b < q,
            (result as int * pow(b as int, e as nat)) % (q as int) == target,
        decreases e,
    {
        let ghost r0 = result as int;
        let ghost b0 = b as int;
        let ghost e0 = e as nat;
        let ghost qi = q as int;
        let odd = (e & 1u64) == 1u64;
        assert(odd == (e % 2 == 1)) by (bit_vector)
            requires
                odd == ((e & 1u64) == 1u64),
        ;
        if odd {
            result = mul_mod(result, b, q);
        }
        b = mul_mod(b, b, q);
        let e2 = e >> 1u64;
        assert(e2 == e / 2) by (bit_vector)
            requires
                e2 == e >> 1u64,
        ;
        e = e2;
        proof {
            let f: int = if e0 % 2 == 1 { b0 } else { 1 };
            let h = (e0 / 2) as nat;
            lemma_pow_halve(b0, e0);
            if e0 % 2 != 1 {
                lemma_small_mod(r0 as nat, qi as nat);
            }
            assert(result as int == (r0 * f) % qi);
            lemma_pow_mod_noop(b0 * b0, h, qi);
            let p2 = pow(b0 * b0, h);
            let pb = pow(b as int, h);
            assert(pb % qi == p2 % qi);
            lemma_mul_mod_noop_left(r0 * f, pb, qi);
            lemma_mul_mod_noop_right(r0 * f, pb, qi);
            lemma_mul_mod_noop_right(r0 * f, p2, qi);
            assert((r0 * f) * p2 == r0 * (f * p2)) by (nonlinear_arith);
        }
    }
    proof {
        lemma_pow0(b as int);
        lemma_small_mod(result as nat, q as nat);
    }
    result
}

/// Whether `q` is prime, by trial division with odd divisors up to `sqrt(q)`.
pub fn is_prime(q: u64) -> (r: bool)
    requires
        q < 0xFFFF_FFFE_0000_0001,
    ensures
        r == is_prime_spec(q as nat),
{
    if q < 2 {
        return false;
    }
    if q == 2 {
        return true;
    }
    if q % 2 == 0 {
        assert(q % 2 == 0 && 2 < q);
        return false;
    }
    let mut i: u64 = 3;
    while i * i <= q
        invariant
            3 <= i <= 0xFFFF_FFFF,
            i * i <= 0xFFFF_FFFE_0000_0001,
            i % 2 == 1,
            q % 2 == 1,
            q < 0xFFFF_FFFE_0000_0001,
            forall|d: nat| 2 <= d < i ==> #[trigger] ((q as nat) % d) != 0,
        decreases 0xFFFF_FFFFu64 - i,
    {
        if q % i == 0 {
            assert(i < q) by (nonlinear_arith)
                requires
                    i * i <= q,
                    i >= 3,
            ;
            return false;
        }
        assert forall|d: nat| 2 <= d < i + 2 implies #[trigger] ((q as nat) % d) != 0 by {
            if d == i + 1 {
                assert(d % 2 == 0);
                let h: int = d as int / 2;
                assert(d as int == 2 * h);
                lemma_mod_mod(q as int, 2, h);
            }
        }
        assert(i + 2 <= 0xFFFF_FFFF && (i + 2) * (i + 2) <= 0xFFFF_FFFE_0000_0001) by (nonlinear_arith)
            requires
                i * i <= q,
                q < 0xFFFF_FFFE_0000_0001,
                i % 2 == 1,
                i >= 3,
        ;
        i = i + 2;
    }
    assert forall|d: nat| 2 <= d < q implies #[trigger] ((q as nat) % d) != 0 by {
        if d >= i && (q as nat) % d == 0 {
            let k = (q as nat) / d;
            assert(q as nat == d * k) by (nonlinear_arith)
                requires
                    (q as nat) % d == 0,
                    k == (q as nat) / d,
                    d > 0,
            ;
            assert(k < i && k >= 2 && (q as nat) % k == 0) by (nonlinear_arith)
                requires
                    q as nat == d * k,
                    d >= i,
                    d < q,
                    i * i > q,
                    i >= 3,
            ;
        }
    }
    true
}

/// The Legendre-symbol parity of `norm` at `q` by Euler's criterion: set when
/// `norm^((q-1)/2) mod q` is `q - 1`, clear when `norm` is zero.
pub fn legendre_parity(norm: u64, q: u64) -> (r: bool)
    requires
        q > 0,
    ensures
        r == legendre_parity_spec(norm, q),
{
    if norm == 0 {
        return false;
    }
    let exp = (q - 1) / 2;
    let result = pow_mod(norm, exp, q);
    result == q - 1
}


/// The quadratic-character parity of a row at character `k`: the GF(2) sum of the parities
/// of the relations its provenance names (`parities[x][k]` for relation `x`).
pub open spec fn qc_parity(parities: Seq<Seq<bool>>, prov: Seq<usize>, k: int) -> bool
    decreases prov.len(),
{
    if prov.len() == 0 {
        false
    } else {
        qc_parity(parities, prov.drop_last(), k) != parities[prov.last() as int][k]
    }
}

/// Column `c` is the column of a quadratic character (`ocs + 1 + k`, `k < num_qc`) whose
/// parity for the row with provenance `prov` is set.
pub open spec fn qc_set(parities: Seq<Seq<bool>>, prov: Seq<usize>, ocs: nat, num_qc: nat, c: usize) -> bool {
    ocs + 1 <= c < ocs + 1 + num_qc && qc_parity(parities, prov, c - ocs - 1)
}

/// The parity of the row with provenance `prov` at character `k`.
fn row_parity(parities: &[Vec<bool>], prov: &Vec<usize>, k: usize) -> (b: bool)
    requires
        forall|j: int| 0 <= j < prov@.len() ==> #[trigger] prov@[j] < parities@.len() && k < parities@[prov@[j] as int]@.len(),
    ensures
        b == qc_parity(Seq::new(parities@.len(), |x: int| parities@[x]@), prov@, k as int),
{
    let ghost ps = Seq::new(parities@.len(), |x: int| parities@[x]@);
    let mut b = false;
    let mut j: usize = 0;
    while j < prov.len()
        invariant
            j <= prov@.len(),
            ps == Seq::new(parities@.len(), |x: int| parities@[x]@),
            forall|t: int| 0 <= t < prov@.len() ==> #[trigger] prov@[t] < parities@.len() && k < parities@[prov@[t] as int]@.len(),
            b == qc_parity(ps, prov@.take(j as int), k as int),
        decreases prov@.len() - j,
    {
        assert(prov@.take(j as int + 1).drop_last() =~= prov@.take(j as int));
        let x = prov[j];
        b = b != parities[x][k];
        j = j + 1;
    }
    assert(prov@.take(prov@.len() as int) =~= prov@);
    b
}

/// Insert `x` into the strictly increasing `v`, which lacks it.
fn insert_sorted(v: &mut Vec<usize>, x: usize)
    requires
        strictly_sorted(old(v)@),
        !old(v)@.contains(x),
    ensures
        strictly_sorted(final(v)@),
        forall|y: usize| #[trigger] final(v)@.contains(y) <==> (old(v)@.contains(y) || y == x),
{
    let mut pos: usize = 0;
    while pos < v.len() && v[pos] < x
        invariant
            pos <= v@.len(),
            forall|t: int| 0 <= t < pos ==> #[trigger] v@[t] < x,
        decreases v@.len() - pos,
    {
        pos = pos + 1;
    }
    let ghost before = v@;
    proof {
        assert forall|t: int| pos <= t < before.len() implies #[trigger] before[t] > x by {
            assert(before[pos as int] >= x);
            if before[pos as int] == x {
                assert(before.contains(x));
            }
        }
    }
    v.insert(pos, x);
    proof {
        assert forall|y: usize| #[trigger] v@.contains(y) <==> (before.contains(y) || y == x) by {
            if v@.contains(y) {
                let t = choose|t: int| 0 <= t < v@.len() && v@[t] == y;
                if t < pos {
                    assert(before[t] == y);
                } else if t > pos {
                    assert(before[t - 1] == y);
                }
            }
            if before.contains(y) {
                let t = choose|t: int| 0 <= t < before.len() && before[t] == y;
                if t < pos {
                    assert(v@[t] == y);
                } else {
                    assert(v@[t + 1] == y);
                }
            }
            if y == x {
                assert(v@[pos as int] == x);
            }
        }
    }
}

/// Set the quadratic-character columns from the relations' parities: row `i` gains column
/// `ocs + 1 + k` (`ocs` the first obstruction column) when the GF(2) sum of `parities[x][k]`
/// over the relations `x` of its provenance is one, and the column weights follow.
pub fn set_qc_columns(matrix: &mut SparseMatrix, parities: &[Vec<bool>], num_qc: usize)
    requires
        old(matrix).wf(),
        old(matrix).obstruction_count == 1 + num_qc,
        old(matrix).obstruction_col_start + old(matrix).obstruction_count <= old(matrix).num_cols,
        old(matrix).rows@.len() < u32::MAX,
        forall|i: int, j: int|
            0 <= i < old(matrix).rows@.len() && 0 <= j < old(matrix).rows@[i].provenance@.len() ==> {
                let x = #[trigger] old(matrix).rows@[i].provenance@[j];
                &&& x < parities@.len()
                &&& num_qc <= parities@[x as int]@.len()
            },
    ensures
        final(matrix).wf(),
        final(matrix).num_cols == old(matrix).num_cols,
        final(matrix).obstruction_col_start == old(matrix).obstruction_col_start,
        final(matrix).obstruction_count == old(matrix).obstruction_count,
        final(matrix).rows@.len() == old(matrix).rows@.len(),
        forall|i: int|
            0 <= i < final(matrix).rows@.len() ==> {
                &&& (#[trigger] final(matrix).rows@[i]).provenance@ == old(matrix).rows@[i].provenance@
                &&& forall|c: usize|
                    #[trigger] final(matrix).rows@[i].cols@.contains(c) <==> (old(matrix).rows@[i].cols@.contains(c)
                        || qc_set(
                        Seq::new(parities@.len(), |x: int| parities@[x]@),
                        old(matrix).rows@[i].provenance@,
                        old(matrix).obstruction_col_start as nat,
                        num_qc as nat,
                        c,
                    ))
            },
{
    let ghost ps = Seq::new(parities@.len(), |x: int| parities@[x]@);
    let ghost start = matrix.rows@;
    let ocs = matrix.obstruction_col_start;
    let n = matrix.rows.len();
    let mut i: usize = 0;
    while i < n
        invariant
            n == start.len(),
            i <= n,
            matrix.wf(),
            matrix.rows@.len() == n,
            matrix.num_cols == old(matrix).num_cols,
            matrix.obstruction_col_start == ocs,
            ocs == old(matrix).obstruction_col_start,
            matrix.obstruction_count == old(matrix).obstruction_count,
            matrix.obstruction_count == 1 + num_qc,
            ocs + matrix.obstruction_count <= matrix.num_cols,
            start == old(matrix).rows@,
            n < u32::MAX,
            ps == Seq::new(parities@.len(), |x: int| parities@[x]@),
            forall|t: int, j: int|
                0 <= t < n && 0 <= j < start[t].provenance@.len() ==> {
                    let x = #[trigger] start[t].provenance@[j];
                    &&& x < parities@.len()
                    &&& num_qc <= parities@[x as int]@.len()
                },
            forall|t: int| i <= t < n ==> #[trigger] matrix.rows@[t] == start[t],
            forall|t: int|
                0 <= t < i ==> {
                    &&& (#[trigger] matrix.rows@[t]).provenance@ == start[t].provenance@
                    &&& forall|c: usize|
                        #[trigger] matrix.rows@[t].cols@.contains(c) <==> (start[t].cols@.contains(c) || qc_set(
                            ps,
                            start[t].provenance@,
                            ocs as nat,
                            num_qc as nat,
                            c,
                        ))
                },
        decreases n - i,
    {
        let mut row = matrix.rows[i].duplicate();
        let ghost old_row = matrix.rows@[i as int];
        let ghost rows_now = matrix.rows@;
        proof {
            assert(old_row == start[i as int]);
            assert(crate::filter::matrix::row_wf(old_row, matrix.num_cols as nat));
        }
        let mut k: usize = 0;
        while k < num_qc
            invariant
                k <= num_qc,
                i < n,
                n == start.len(),
                matrix.rows@ == rows_now,
                rows_now[i as int] == old_row,
                old_row == start[i as int],
                matrix.rows@.len() == n,
                n < u32::MAX,
                matrix.num_cols == old(matrix).num_cols,
                matrix.obstruction_col_start == ocs,
                matrix.obstruction_count == 1 + num_qc,
                ocs + matrix.obstruction_count <= matrix.num_cols,
                matrix.col_weights@.len() == matrix.num_cols,
                forall|t: int| 0 <= t < n ==> crate::filter::matrix::row_wf(#[trigger] rows_now[t], matrix.num_cols as nat),
                ps == Seq::new(parities@.len(), |x: int| parities@[x]@),
                row.provenance@ == old_row.provenance@,
                forall|j: int|
                    0 <= j < row.provenance@.len() ==> #[trigger] row.provenance@[j] < parities@.len()
                        && num_qc <= parities@[row.provenance@[j] as int]@.len(),
                crate::filter::matrix::row_wf(row, matrix.num_cols as nat),
                forall|c: usize|
                    #[trigger] row.cols@.contains(c) <==> (old_row.cols@.contains(c) || (qc_set(
                        ps,
                        old_row.provenance@,
                        ocs as nat,
                        k as nat,
                        c,
                    ))),
                forall|c: usize|
                    c < matrix.num_cols ==> #[trigger] matrix.col_weights@[c as int] + count_in(old_row.cols@, c)
                        == total_count(rows_now, c) + count_in(row.cols@, c),
            decreases num_qc - k,
        {
            let p = row_parity(parities, &row.provenance, k);
            let col = ocs + 1 + k;
            if p && !sorted_contains(&row.cols, col) {
                let ghost before = row.cols@;
                insert_sorted(&mut row.cols, col);
                proof {
                    lemma_count_sorted(before, col);
                    crate::filter::lemma_total_count_bound(rows_now, col);
                    lemma_count_sorted(old_row.cols@, col);
                    assert(matrix.col_weights@[col as int] <= n);
                }
                let w = matrix.col_weights[col];
                matrix.col_weights.set(col, w + 1);
                proof {
                    assert forall|c: usize| c < matrix.num_cols implies #[trigger] matrix.col_weights@[c as int] + count_in(old_row.cols@, c)
                        == total_count(rows_now, c) + count_in(row.cols@, c) by {
                        lemma_count_sorted(before, c);
                        lemma_count_sorted(row.cols@, c);
                    }
                    assert forall|t: int| 0 <= t < row.cols@.len() implies #[trigger] row.cols@[t] < matrix.num_cols by {
                        assert(row.cols@.contains(row.cols@[t]));
                        if before.contains(row.cols@[t]) {
                            let q = choose|q: int| 0 <= q < before.len() && before[q] == row.cols@[t];
                        }
                    }
                }
            }
            proof {
                assert forall|c: usize| #[trigger] row.cols@.contains(c) <==> (old_row.cols@.contains(c) || qc_set(
                    ps,
                    old_row.provenance@,
                    ocs as nat,
                    (k + 1) as nat,
                    c,
                )) by {
                    if c == col {
                        assert(c - ocs - 1 == k);
                    }
                }
            }
            k = k + 1;
        }
        let ghost new_row = row;
        matrix.rows.set(i, row);
        proof {
            assert(matrix.rows@ == rows_now.update(i as int, new_row));
            assert forall|c: usize| c < matrix.num_cols implies #[trigger] matrix.col_weights@[c as int] == total_count(matrix.rows@, c) by {
                lemma_total_count_update(rows_now, i as int, new_row, c);
            }
            assert forall|t: int| 0 <= t < matrix.rows@.len() implies crate::filter::matrix::row_wf(#[trigger] matrix.rows@[t], matrix.num_cols as nat) by {
                if t != i {
                    assert(matrix.rows@[t] == rows_now[t]);
                }
            }
            assert forall|t: int| 0 <= t < i + 1 implies {
                &&& (#[trigger] matrix.rows@[t]).provenance@ == start[t].provenance@
                &&& forall|c: usize|
                    #[trigger] matrix.rows@[t].cols@.contains(c) <==> (start[t].cols@.contains(c) || qc_set(
                        ps,
                        start[t].provenance@,
                        ocs as nat,
                        num_qc as nat,
                        c,
                    ))
            } by {
                if t < i {
                    assert(matrix.rows@[t] == rows_now[t]);
                }
            }
        }
        i = i + 1;
    }
}


/// The value of the polynomial with coefficients `c` (lowest first, from position `j` on) at
/// `r`: `c[j] + r (c[j + 1] + r (...))`.
pub open spec fn poly_value(c: Seq<u64>, r: int, j: int) -> int
    decreases c.len() - j,
{
    if j >= c.len() {
        0
    } else {
        c[j] + r * poly_value(c, r, j + 1)
    }
}

/// `f(r) mod q` by Horner's rule, for coefficients already reduced modulo `q`.
pub fn eval_poly_mod(coeffs: &[u64], r: u64, q: u64) -> (v: u64)
    requires
        0 < q <= 0x8000_0000_0000_0000,
        forall|i: int| 0 <= i < coeffs@.len() ==> #[trigger] coeffs@[i] < q,
    ensures
        v == poly_value(coeffs@, r as int, 0) % (q as int),
        v < q,
{
    let mut result: u64 = 0;
    let mut j: usize = coeffs.len();
    proof {
        lemma_small_mod(0, q as nat);
    }
    while j > 0
        invariant
            j <= coeffs@.len(),
            0 < q <= 0x8000_0000_0000_0000,
            forall|i: int| 0 <= i < coeffs@.len() ==> #[trigger] coeffs@[i] < q,
            result < q,
            result == poly_value(coeffs@, r as int, j as int) % (q as int),
        decreases j,
    {
        j = j - 1;
        let ghost h = poly_value(coeffs@, r as int, j as int + 1);
        let ghost qi = q as int;
        let t = mul_mod(result, r, q);
        proof {
            lemma_mul_mod_noop_left(h, r as int, qi);
            assert(t == (h % qi) * (r as int) % qi);
        }
        let c = coeffs[j];
        let nr = add_mod(t, c, q);
        proof {
            lemma_add_mod_noop(h * (r as int), c as int, qi);
            lemma_small_mod(c as nat, q as nat);
            lemma_mod_twice(h * (r as int), qi);
            assert(nr == (t + c) % qi);
            assert((c as int + (r as int) * h) == h * (r as int) + c) by (nonlinear_arith);
        }
        result = nr;
    }
    result
}

/// The number of roots of `f` modulo `q` among `0, ..., n - 1`.
pub open spec fn root_count(c: Seq<u64>, q: int, n: int) -> nat
    decreases n,
{
    if n <= 0 {
        0
    } else {
        root_count(c, q, n - 1) + if poly_value(c, n - 1, 0) % q == 0 {
            1nat
        } else {
            0nat
        }
    }
}

/// Whether `f` splits completely modulo `q`: it has exactly `deg` roots in `[0, q)`.
pub fn splits_completely(coeffs: &[u64], q: u64, deg: usize) -> (b: bool)
    requires
        0 < q <= 0x8000_0000_0000_0000,
        forall|i: int| 0 <= i < coeffs@.len() ==> #[trigger] coeffs@[i] < q,
    ensures
        b == (root_count(coeffs@, q as int, q as int) == deg),
{
    let mut count: usize = 0;
    let mut r: u64 = 0;
    let mut exceeded = false;
    while r < q
        invariant
            r <= q,
            0 < q <= 0x8000_0000_0000_0000,
            forall|i: int| 0 <= i < coeffs@.len() ==> #[trigger] coeffs@[i] < q,
            !exceeded ==> count == root_count(coeffs@, q as int, r as int),
            exceeded ==> root_count(coeffs@, q as int, r as int) > deg,
            count <= deg,
        decreases q - r,
    {
        let v = eval_poly_mod(coeffs, r, q);
        if v == 0 && !exceeded {
            if count == deg {
                exceeded = true;
            } else {
                count = count + 1;
            }
        }
        proof {
            lemma_root_count_mono(coeffs@, q as int, r as int);
        }
        r = r + 1;
    }
    !exceeded && count == deg
}

/// Root counts only grow.
proof fn lemma_root_count_mono(c: Seq<u64>, q: int, n: int)
    ensures
        root_count(c, q, n + 1) >= root_count(c, q, n),
{
}

/// `sum_{i < n} c[i] a^i b^(d - i)`: the first `n` terms of the homogenised norm of degree `d`.
pub open spec fn norm_terms(c: Seq<u64>, a: int, b: int, d: nat, n: int) -> int
    decreases n,
{
    if n <= 0 {
        0
    } else {
        norm_terms(c, a, b, d, n - 1) + c[n - 1] * pow(a, (n - 1) as nat) * pow(b, (d - (n - 1)) as nat)
    }
}

/// The algebraic norm `sum_{i <= d} f_i a^i b^(d - i)` modulo `q`, from `a`, `b` and the
/// coefficients `f_0, ..., f_d` of `f` reduced modulo `q`.
pub fn algebraic_norm_mod_q(a_mod: u64, b_mod: u64, coeffs: &[u64], q: u64) -> (v: u64)
    requires
        0 < q <= 0x8000_0000_0000_0000,
        coeffs@.len() >= 1,
        forall|i: int| 0 <= i < coeffs@.len() ==> #[trigger] coeffs@[i] < q,
    ensures
        v == norm_terms(coeffs@, a_mod as int, b_mod as int, (coeffs@.len() - 1) as nat, coeffs@.len() as int) % (q as int),
{
    let d = coeffs.len() - 1;
    let ghost qi = q as int;
    let mut b_pows: Vec<u64> = Vec::with_capacity(d + 1);
    b_pows.push(1 % q);
    proof {
        lemma_pow0(b_mod as int);
    }
    let mut j: usize = 1;
    while j <= d
        invariant
            1 <= j <= d + 1,
            d + 1 == coeffs@.len(),
            d < usize::MAX,
            0 < q,
            b_pows@.len() == j,
            forall|t: int| 0 <= t < j ==> #[trigger] b_pows@[t] == pow(b_mod as int, t as nat) % qi,
            qi == q,
        decreases d + 1 - j,
    {
        let prev = b_pows[j - 1];
        let nb = mul_mod(prev, b_mod, q);
        proof {
            lemma_mul_mod_noop_left(pow(b_mod as int, (j - 1) as nat), b_mod as int, qi);
            lemma_pow_adds(b_mod as int, (j - 1) as nat, 1);
            lemma_pow1(b_mod as int);
        }
        b_pows.push(nb);
        j = j + 1;
    }
    let mut result: u64 = 0;
    let mut a_pow: u64 = 1 % q;
    proof {
        lemma_pow0(a_mod as int);
        lemma_small_mod(0, q as nat);
    }
    let mut i: usize = 0;
    while i <= d
        invariant
            i <= d + 1,
            d + 1 == coeffs@.len(),
            0 < q <= 0x8000_0000_0000_0000,
            qi == q,
            forall|t: int| 0 <= t < coeffs@.len() ==> #[trigger] coeffs@[t] < q,
            b_pows@.len() == d + 1,
            forall|t: int| 0 <= t <= d ==> #[trigger] b_pows@[t] == pow(b_mod as int, t as nat) % qi,
            result < q,
            result == norm_terms(coeffs@, a_mod as int, b_mod as int, d as nat, i as int) % qi,
            i <= d ==> a_pow == pow(a_mod as int, i as nat) % qi,
        decreases d + 1 - i,
    {
        let ci = coeffs[i];
        let bp = b_pows[d - i];
        let ghost ap = pow(a_mod as int, i as nat);
        let ghost bpw = pow(b_mod as int, (d - i) as nat);
        let ghost prev = norm_terms(coeffs@, a_mod as int, b_mod as int, d as nat, i as int);
        if ci != 0 {
            let t1 = mul_mod(ci, a_pow, q);
            let term = mul_mod(t1, bp, q);
            proof {
                lemma_mul_mod_noop_right(ci as int, ap, qi);
                lemma_mul_mod_noop_left((ci as int) * ap, bpw, qi);
                lemma_mul_mod_noop_right((ci as int) * ap % qi, bpw, qi);
                assert(term == ((ci as int) * ap) * bpw % qi);
                lemma_add_mod_noop(prev, ((ci as int) * ap) * bpw, qi);
                lemma_mod_twice(prev, qi);
                lemma_mod_twice(((ci as int) * ap) * bpw, qi);
                assert(((ci as int) * ap) * bpw == (ci as int) * ap * bpw);
            }
            result = add_mod(result, term, q);
        } else {
            proof {
                assert((ci as int) * ap * bpw == 0) by (nonlinear_arith)
                    requires
                        ci == 0,
                ;
            }
        }
        if i < d {
            let na = mul_mod(a_pow, a_mod, q);
            proof {
                lemma_mul_mod_noop_left(ap, a_mod as int, qi);
                lemma_pow_adds(a_mod as int, i as nat, 1);
                lemma_pow1(a_mod as int);
            }
            a_pow = na;
        }
        i = i + 1;
    }
    result
}

} // verus!
