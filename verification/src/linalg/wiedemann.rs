//! Scalar Wiedemann iteration for the left nullspace of a sparse GF(2) matrix.
//!
//! For a pair of vectors `(x, y)`, the scalar sequence `s_i = x^T B^i y` with `B = A * A^T`
//! is fed to Berlekamp-Massey; its connection polynomial `f` is evaluated at `B` on `y`, and
//! `f(B) y` is reported when it is nonzero and `A^T` sends it to zero.

use vstd::prelude::*;
use crate::filter::matrix::MatrixRow;
use crate::linalg::bits::{bit, lemma_bit_zero};
use crate::linalg::blockvec::BlockVec;
use crate::linalg::kernel::KernelVector;
use crate::linalg::lanczos::{all_kernel_vectors, all_words_zero, found_rows, is_kernel_vector, same_indices};
use crate::linalg::krylov::{krylov_sum, lemma_horner_is_polynomial};
use crate::linalg::massey::{generates_prefix, lemma_massey};
use crate::linalg::lcg::{lcg_iter, lcg_next, lcg_step, seed_mix, GOLDEN};
use crate::linalg::kernel::{mask_indices, sel_count};
use crate::linalg::lanczos::lemma_scatter_parity;
use crate::linalg::operator::{apply_words, cols_in_range, scatter, gram_words, transpose_words, MatrixOperator};

verus! {

/// A dense GF(2) vector packed into column 0 of a block: word `i` is 1 when entry `i` is set.
pub open spec fn pack_bits(y: Seq<bool>) -> Seq<u64> {
    Seq::new(y.len(), |i: int| if y[i] { 1u64 } else { 0u64 })
}

/// GF(2) inner product of `x` with column 0 of `words` over the first `n` rows.
pub open spec fn parity_dot(x: Seq<bool>, words: Seq<u64>, n: int) -> bool
    decreases n,
{
    if n <= 0 {
        false
    } else {
        parity_dot(x, words, n - 1) != (x[n - 1] && bit(words[n - 1], 0))
    }
}

/// `B^k * y`, with `B = A * A^T`.
pub open spec fn krylov(rows: Seq<MatrixRow>, ncols: nat, y: Seq<u64>, k: nat) -> Seq<u64>
    decreases k,
{
    if k == 0 {
        y
    } else {
        gram_words(rows, ncols, krylov(rows, ncols, y, (k - 1) as nat))
    }
}

/// Word-wise sum of two blocks.
pub open spec fn words_xor(a: Seq<u64>, b: Seq<u64>) -> Seq<u64> {
    Seq::new(a.len(), |i: int| a[i] ^ b[i])
}

/// Horner evaluation of `f(B) * y` from the top coefficient down to coefficient `j`:
/// `f_d y` at `j = d`, then `B * (previous) + f_j y`.
pub open spec fn horner(rows: Seq<MatrixRow>, ncols: nat, y: Seq<u64>, f: Seq<bool>, j: int) -> Seq<u64>
    decreases f.len() - j,
{
    if j >= f.len() - 1 {
        if f[f.len() - 1] {
            y
        } else {
            Seq::new(y.len(), |i: int| 0u64)
        }
    } else {
        let w = gram_words(rows, ncols, horner(rows, ncols, y, f, j + 1));
        if f[j] {
            words_xor(w, y)
        } else {
            w
        }
    }
}

/// Coefficient `i` of the polynomial `c`, zero outside its range.
pub open spec fn coef(c: Seq<bool>, i: int) -> bool {
    0 <= i < c.len() && c[i]
}

/// `sum_{i < t} c_i s_{k - i}` over GF(2): the feedback sum of `c` at position `k`.
pub open spec fn lfsr_sum(c: Seq<bool>, s: Seq<bool>, k: int, t: int) -> bool
    decreases t,
{
    if t <= 0 {
        false
    } else {
        lfsr_sum(c, s, k, t - 1) != (coef(c, t - 1) && s[k - (t - 1)])
    }
}

/// `c` generates `s`: its feedback sum vanishes at every position from its degree bound on.
pub open spec fn generates(c: Seq<bool>, s: Seq<bool>) -> bool {
    forall|k: int| c.len() - 1 <= k < s.len() ==> !#[trigger] lfsr_sum(c, s, k, c.len() as int)
}

/// Terms past the end of `c` add nothing.
pub proof fn lemma_lfsr_sum_pad(c: Seq<bool>, s: Seq<bool>, k: int, t: int)
    requires
        t >= c.len(),
    ensures
        lfsr_sum(c, s, k, t) == lfsr_sum(c, s, k, c.len() as int),
    decreases t,
{
    if t > c.len() {
        lemma_lfsr_sum_pad(c, s, k, t - 1);
    }
}

/// The feedback sum of `c + z^m b` is that of `c` plus that of `b` at `k - m`.
pub proof fn lemma_lfsr_sum_shifted(r: Seq<bool>, c: Seq<bool>, b: Seq<bool>, m: int, s: Seq<bool>, k: int, t: int)
    requires
        m >= 0,
        forall|i: int| 0 <= i < t ==> #[trigger] coef(r, i) == (coef(c, i) != coef(b, i - m)),
    ensures
        lfsr_sum(r, s, k, t) == (lfsr_sum(c, s, k, t) != lfsr_sum(b, s, k - m, t - m)),
    decreases t,
{
    if t > 0 {
        lemma_lfsr_sum_shifted(r, c, b, m, s, k, t - 1);
        assert(coef(r, t - 1) == (coef(c, t - 1) != coef(b, t - 1 - m)));
        assert(k - m - (t - m - 1) == k - (t - 1));
    }
}

/// `dst += z^shift * src` over GF(2), growing `dst` with zeros to `src.len() + shift` first.
pub fn xor_shifted(dst: &mut Vec<bool>, src: &[bool], shift: usize)
    requires
        src@.len() + shift <= usize::MAX,
    ensures
        final(dst)@.len() == if old(dst)@.len() < src@.len() + shift {
            (src@.len() + shift) as nat
        } else {
            old(dst)@.len()
        },
        forall|k: int|
            0 <= k < final(dst)@.len() ==> #[trigger] final(dst)@[k] == (coef(old(dst)@, k) != coef(
                src@,
                k - shift,
            )),
{
    let needed = src.len() + shift;
    if dst.len() < needed {
        dst.resize(needed, false);
    }
    let ghost grown = dst@;
    proof {
        assert forall|k: int| 0 <= k < grown.len() implies #[trigger] grown[k] == coef(old(dst)@, k) by {
            if k < old(dst)@.len() {
                assert(grown.subrange(0, old(dst)@.len() as int)[k] == grown[k]);
            }
        }
    }
    let mut i: usize = 0;
    while i < src.len()
        invariant
            needed == src@.len() + shift,
            dst@.len() == grown.len(),
            grown.len() >= needed,
            i <= src@.len(),
            forall|k: int| 0 <= k < grown.len() ==> #[trigger] grown[k] == coef(old(dst)@, k),
            forall|k: int|
                0 <= k < dst@.len() ==> #[trigger] dst@[k] == (grown[k] != (shift <= k < shift + i
                    && src@[k - shift])),
        decreases src@.len() - i,
    {
        if src[i] {
            let nb = !dst[i + shift];
            dst.set(i + shift, nb);
        }
        i = i + 1;
    }
}

/// GF(2) inner product of `x` with column 0 of `v`.
pub fn inner_product_scalar(x: &[bool], v: &BlockVec) -> (r: bool)
    requires
        v.wf(),
        x@.len() == v.num_rows,
    ensures
        r == parity_dot(x@, v.data@, x@.len() as int),
{
    let mut result = false;
    let mut j: usize = 0;
    while j < x.len()
        invariant
            v.wf(),
            x@.len() == v.num_rows,
            j <= x@.len(),
            result == parity_dot(x@, v.data@, j as int),
        decreases x@.len() - j,
    {
        if x[j] {
            let w = v.data[j];
            assert((w & 1u64) == 1u64 <==> (w >> 0u64) & 1u64 == 1u64) by (bit_vector);
            result = result != ((w & 1u64) == 1u64);
        }
        j = j + 1;
    }
    result
}

/// Pack a dense GF(2) vector of length `m` into column 0 of a block.
pub fn bool_vec_to_blockvec(v: &[bool], m: usize) -> (r: BlockVec)
    requires
        v@.len() == m,
    ensures
        r.wf(),
        r.num_rows == m,
        r.data@ == pack_bits(v@),
{
    let mut bv = BlockVec::zeros(m);
    let mut i: usize = 0;
    while i < v.len()
        invariant
            v@.len() == m,
            bv.wf(),
            bv.num_rows == m,
            i <= m,
            forall|k: int| 0 <= k < i ==> #[trigger] bv.data@[k] == pack_bits(v@)[k],
            forall|k: int| i <= k < m ==> #[trigger] bv.data@[k] == 0u64,
        decreases m - i,
    {
        if v[i] {
            bv.data.set(i, 1u64);
        }
        i = i + 1;
    }
    assert(bv.data@ =~= pack_bits(v@));
    bv
}

/// A pseudo-random GF(2) vector of length `m`: entry `i` is bit `i % 64` of the generator
/// state after `i / 64 + 1` steps from the mixed seed.
pub fn random_gf2_vec(m: usize, seed: u64) -> (r: Vec<bool>)
    ensures
        r@.len() == m,
        forall|i: int| 0 <= i < m ==> #[trigger] r@[i] == bit(lcg_iter(seed_mix(seed), (i / 64 + 1) as nat), (i % 64) as u64),
{
    let mut state = seed.wrapping_add(GOLDEN);
    let mut result: Vec<bool> = Vec::with_capacity(m);
    let mut word: u64 = 0;
    let mut bits_left: usize = 0;
    let mut i: usize = 0;
    while i < m
        invariant
            i <= m,
            result@.len() == i,
            bits_left == if i % 64 == 0 { 0 } else { 64 - i % 64 },
            state == lcg_iter(seed_mix(seed), ((i + 63) / 64) as nat),
            bits_left > 0 ==> word == state >> ((i % 64) as u64),
            forall|k: int| 0 <= k < i ==> #[trigger] result@[k] == bit(lcg_iter(seed_mix(seed), (k / 64 + 1) as nat), (k % 64) as u64),
        decreases m - i,
    {
        if bits_left == 0 {
            state = lcg_next(state);
            word = state;
            bits_left = 64;
            assert(word >> 0u64 == word) by (bit_vector);
        }
        let ghost pos: u64 = (i % 64) as u64;
        let ghost st = state;
        proof {
            assert(st == lcg_iter(seed_mix(seed), (i / 64 + 1) as nat));
        }
        let b = (word & 1u64) == 1u64;
        assert(b == bit(st, pos)) by (bit_vector)
            requires
                pos < 64,
                word == st >> pos,
                b == ((word & 1u64) == 1u64),
        ;
        result.push(b);
        word = word >> 1u64;
        bits_left = bits_left - 1;
        proof {
            if bits_left > 0 {
                let p1: u64 = (pos + 1) as u64;
                assert((st >> pos) >> 1u64 == st >> p1) by (bit_vector)
                    requires
                        p1 < 64,
                        p1 == pos + 1,
                ;
            }
        }
        i = i + 1;
    }
    result
}

/// `c + z^m * b` over GF(2), as long as the longer of the two.
pub open spec fn shifted_xor(c: Seq<bool>, b: Seq<bool>, m: int) -> Seq<bool> {
    let len = if c.len() < b.len() + m {
        b.len() + m
    } else {
        c.len() as int
    };
    Seq::new(len as nat, |k: int| coef(c, k) != coef(b, k - m))
}

/// The Berlekamp-Massey registers `(c, b, l, m)` after the first `n` terms of `s`: `c` the
/// current connection polynomial, `b` the one before the last length change, `l` the
/// register length and `m` the steps since that change. At term `n` with discrepancy `d`
/// (the feedback sum of `c` there), nothing changes but `m` when `d` is zero; otherwise
/// `c` gains `z^m b`, and when `2l <= n` the length becomes `n + 1 - l`, `b` the old `c`
/// and `m` one.
pub open spec fn bm_state(s: Seq<bool>, n: nat) -> (Seq<bool>, Seq<bool>, nat, nat)
    decreases n,
{
    if n == 0 {
        (seq![true], seq![true], 0nat, 1nat)
    } else {
        let st = bm_state(s, (n - 1) as nat);
        let k = n - 1;
        if !lfsr_sum(st.0, s, k, st.0.len() as int) {
            (st.0, st.1, st.2, st.3 + 1)
        } else if st.2 <= k - st.2 {
            (shifted_xor(st.0, st.1, st.3 as int), st.0, (k + 1 - st.2) as nat, 1nat)
        } else {
            (shifted_xor(st.0, st.1, st.3 as int), st.1, st.2, st.3 + 1)
        }
    }
}

/// The connection polynomial that Berlekamp-Massey returns for `s`.
pub open spec fn massey_poly(s: Seq<bool>) -> Seq<bool> {
    bm_state(s, s.len()).0
}

/// Berlekamp-Massey over GF(2): a connection polynomial `f` (`f[k]` the coefficient of
/// `z^k`, `f[0] = 1`) of an LFSR generating `s`, whose length is `f.len() - 1`.
///
/// Every step keeps the register length `L` equal to `f.len() - 1`; the all-zero sequence
/// gives `[1]`.
pub fn berlekamp_massey(s: &[bool]) -> (f: Vec<bool>)
    requires
        s@.len() < usize::MAX,
    ensures
        f@.len() >= 1,
        f@[0],
        f@.len() <= s@.len() + 1,
        generates(f@, s@),
        forall|g: Seq<bool>| g.len() >= 1 && g[0] && #[trigger] generates(g, s@) ==> f@.len() <= g.len(),
        f@ == massey_poly(s@),
{
    let n = s.len();
    if n == 0 {
        let f = vec![true];
        return f;
    }
    let mut c: Vec<bool> = vec![true];
    let mut b: Vec<bool> = vec![true];
    let mut l: usize = 0;
    let mut m: usize = 1;
    let mut n_idx: usize = 0;
    while n_idx < n
        invariant
            n == s@.len(),
            n < usize::MAX,
            n_idx <= n,
            c@.len() == l + 1,
            c@[0],
            b@.len() >= 1,
            1 <= m <= n_idx + 1,
            l <= n_idx,
            b@.len() - 1 + m == n_idx + 1 - l,
            forall|k: int| l <= k < n_idx ==> !#[trigger] lfsr_sum(c@, s@, k, c@.len() as int),
            forall|k: int|
                b@.len() - 1 <= k < n_idx - m ==> !#[trigger] lfsr_sum(b@, s@, k, b@.len() as int),
            n_idx - m >= 0 ==> lfsr_sum(b@, s@, n_idx - m, b@.len() as int),
            n_idx - m < 0 ==> l == 0,
            forall|g: Seq<bool>|
                g.len() >= 1 && g[0] && #[trigger] generates_prefix(g, s@, n_idx as int) ==> l + 1 <= g.len(),
            (c@, b@, l as nat, m as nat) == bm_state(s@, n_idx as nat),
        decreases n - n_idx,
    {
        let mut d = s[n_idx];
        proof {
            assert(coef(c@, 0));
            assert(lfsr_sum(c@, s@, n_idx as int, 1) == (lfsr_sum(c@, s@, n_idx as int, 0) != (coef(c@, 0) && s@[n_idx as int - 0])));
        }
        let mut i: usize = 1;
        while i <= l
            invariant
                n == s@.len(),
                n_idx < n,
                c@.len() == l + 1,
                c@[0],
                l <= n_idx,
                1 <= i <= l + 1,
                d == lfsr_sum(c@, s@, n_idx as int, i as int),
            decreases l + 1 - i,
        {
            if n_idx >= i && c.len() > i && c[i] {
                d = d != s[n_idx - i];
            }
            i = i + 1;
        }
        let ghost c0 = c@;
        let ghost b0 = b@;
        let ghost n0 = n_idx as int;
        let ghost l0 = l as int;
        let ghost m0 = m as int;
        if !d {
            m = m + 1;
        } else if l <= n_idx - l {
            let mut t: Vec<bool> = c.clone();
            assert(t@ =~= c0);
            xor_shifted(&mut c, b.as_slice(), m);
            l = n_idx + 1 - l;
            b = t;
            m = 1;
            proof {
                assert(c@ =~= shifted_xor(c0, b0, m0));
                assert forall|i: int| 0 <= i < c@.len() implies #[trigger] coef(c@, i) == (coef(c0, i) != coef(b0, i - m0)) by {}
                assert forall|k: int| l <= k < n0 + 1 implies !#[trigger] lfsr_sum(c@, s@, k, c@.len() as int) by {
                    lemma_lfsr_sum_shifted(c@, c0, b0, m0, s@, k, c@.len() as int);
                    lemma_lfsr_sum_pad(c0, s@, k, c@.len() as int);
                    lemma_lfsr_sum_pad(b0, s@, k - m0, c@.len() - m0);
                }
            }
        } else {
            xor_shifted(&mut c, b.as_slice(), m);
            m = m + 1;
            proof {
                assert(c@ =~= shifted_xor(c0, b0, m0));
                assert forall|i: int| 0 <= i < c@.len() implies #[trigger] coef(c@, i) == (coef(c0, i) != coef(b0, i - m0)) by {}
                assert forall|k: int| l <= k < n0 + 1 implies !#[trigger] lfsr_sum(c@, s@, k, c@.len() as int) by {
                    lemma_lfsr_sum_shifted(c@, c0, b0, m0, s@, k, c@.len() as int);
                    lemma_lfsr_sum_pad(c0, s@, k, c@.len() as int);
                    lemma_lfsr_sum_pad(b0, s@, k - m0, c@.len() - m0);
                }
            }
        }
        proof {
            assert forall|g: Seq<bool>|
                g.len() >= 1 && g[0] && #[trigger] generates_prefix(g, s@, n0 + 1) implies l + 1 <= g.len() by {
                assert(generates_prefix(g, s@, n0));
                if d {
                    lemma_massey(c0, g, s@, n0);
                }
            }
        }
        proof {
            assert(d == lfsr_sum(c0, s@, n0, c0.len() as int));
        }
        n_idx = n_idx + 1;
    }
    proof {
        assert forall|g: Seq<bool>| g.len() >= 1 && g[0] && #[trigger] generates(g, s@) implies c@.len() <= g.len() by {
            assert(generates_prefix(g, s@, n as int));
        }
    }
    c
}

/// `B * v` through the operator: `A * (A^T * v)`.
fn gram_step(op: &MatrixOperator<'_>, v: &BlockVec) -> (r: BlockVec)
    requires
        v.wf(),
        v.num_rows == op.rows().len(),
        cols_in_range(op.rows(), op.ncols()),
    ensures
        r.wf(),
        r.num_rows == op.rows().len(),
        r.data@ == gram_words(op.rows(), op.ncols(), v.data@),
{
    let at_v = op.apply_transpose(v);
    assert(at_v.data@ =~= transpose_words(op.rows(), op.ncols(), v.data@));
    let w = op.apply(&at_v);
    assert(w.data@ =~= apply_words(op.rows(), at_v.data@));
    w
}

/// The scalar sequence `s_i = x^T * B^i * y`, `i < seq_len`.
pub fn krylov_sequence(op: &MatrixOperator<'_>, m: usize, x: &[bool], y: &[bool], seq_len: usize) -> (r: Vec<bool>)
    requires
        m == op.rows().len(),
        x@.len() == m,
        y@.len() == m,
        cols_in_range(op.rows(), op.ncols()),
    ensures
        r@.len() == seq_len,
        forall|i: int|
            0 <= i < seq_len ==> #[trigger] r@[i] == parity_dot(
                x@,
                krylov(op.rows(), op.ncols(), pack_bits(y@), i as nat),
                m as int,
            ),
{
    let y_bv = bool_vec_to_blockvec(y, m);
    let mut v = y_bv;
    let mut sequence: Vec<bool> = Vec::with_capacity(seq_len);
    let mut i: usize = 0;
    while i < seq_len
        invariant
            m == op.rows().len(),
            x@.len() == m,
            y@.len() == m,
            cols_in_range(op.rows(), op.ncols()),
            i <= seq_len,
            sequence@.len() == i,
            v.wf(),
            v.num_rows == m,
            v.data@ == krylov(op.rows(), op.ncols(), pack_bits(y@), i as nat),
            forall|k: int|
                0 <= k < i ==> #[trigger] sequence@[k] == parity_dot(
                    x@,
                    krylov(op.rows(), op.ncols(), pack_bits(y@), k as nat),
                    m as int,
                ),
        decreases seq_len - i,
    {
        let s = inner_product_scalar(x, &v);
        sequence.push(s);
        v = gram_step(op, &v);
        i = i + 1;
    }
    sequence
}

/// `f(B) * y` by Horner's rule over GF(2), in column 0 of the block returned.
pub fn eval_poly_on_krylov(op: &MatrixOperator<'_>, m: usize, y: &[bool], f: &[bool]) -> (r: BlockVec)
    requires
        m == op.rows().len(),
        y@.len() == m,
        f@.len() >= 1,
        cols_in_range(op.rows(), op.ncols()),
    ensures
        r.wf(),
        r.num_rows == m,
        r.data@ == horner(op.rows(), op.ncols(), pack_bits(y@), f@, 0),
        r.data@ == krylov_sum(op.rows(), op.ncols(), pack_bits(y@), f@, 0, f@.len() as int),
{
    proof {
        lemma_horner_is_polynomial(op.rows(), op.ncols(), pack_bits(y@), f@);
    }
    let d = f.len() - 1;
    let y_bv = bool_vec_to_blockvec(y, m);
    let mut w = if f[d] {
        y_bv.duplicate()
    } else {
        BlockVec::zeros(m)
    };
    let mut k: usize = d;
    while k > 0
        invariant
            m == op.rows().len(),
            y@.len() == m,
            d == f@.len() - 1,
            k <= d,
            cols_in_range(op.rows(), op.ncols()),
            y_bv.wf(),
            y_bv.num_rows == m,
            y_bv.data@ == pack_bits(y@),
            w.wf(),
            w.num_rows == m,
            w.data@ == horner(op.rows(), op.ncols(), pack_bits(y@), f@, k as int),
        decreases k,
    {
        k = k - 1;
        w = gram_step(op, &w);
        if f[k] {
            w.xor_assign(&y_bv);
            assert(w.data@ =~= words_xor(
                gram_words(op.rows(), op.ncols(), horner(op.rows(), op.ncols(), pack_bits(y@), f@, k as int + 1)),
                pack_bits(y@),
            ));
        }
    }
    w
}

/// The scalar sequence `x^T B^i y`, `i < len`, of the pair `(x, y)`.
pub open spec fn krylov_scalars(rows: Seq<MatrixRow>, ncols: nat, x: Seq<bool>, y: Seq<bool>, len: nat) -> Seq<bool> {
    Seq::new(len, |i: int| parity_dot(x, krylov(rows, ncols, pack_bits(y), i as nat), x.len() as int))
}

/// Every word of `w` is zero.
pub open spec fn zero_words(w: Seq<u64>) -> bool {
    forall|k: int| 0 <= k < w.len() ==> #[trigger] w[k] == 0u64
}

/// The outcome of a Wiedemann attempt with polynomial `f`: with `w = f(B) y`, the rows whose
/// bit is set in `w`, when `f` has degree at least one, `w` is nonzero, `A^T w` is zero and
/// some row is set; nothing otherwise.
pub open spec fn attempt_outcome(rows: Seq<MatrixRow>, ncols: nat, y: Seq<bool>, f: Seq<bool>) -> Option<Seq<usize>> {
    if f.len() <= 1 {
        None
    } else {
        let w = horner(rows, ncols, pack_bits(y), f, 0);
        let at = Seq::new(ncols, |c: int| scatter(rows, w, c as usize, rows.len() as int));
        let idx = mask_indices(Seq::new(y.len(), |i: int| bit(w[i], 0)));
        if zero_words(w) || !zero_words(at) || idx.len() == 0 {
            None
        } else {
            Some(idx)
        }
    }
}

/// One Wiedemann attempt with the pair `(x, y)`: `f(B) y` for the Berlekamp-Massey
/// polynomial `f` of `x^T B^i y`, `i < 2m + 10`, as a kernel vector when `f` has degree at
/// least one, `f(B) y` is nonzero and `A^T` sends it to zero.
pub fn wiedemann_attempt(op: &MatrixOperator<'_>, m: usize, x: &[bool], y: &[bool]) -> (r: Option<KernelVector>)
    requires
        m == op.rows().len(),
        x@.len() == m,
        y@.len() == m,
        2 * m + 10 < usize::MAX,
        cols_in_range(op.rows(), op.ncols()),
    ensures
        r matches Some(kv) ==> is_kernel_vector(op.rows(), op.ncols(), kv),
        ({
            let f = massey_poly(krylov_scalars(op.rows(), op.ncols(), x@, y@, (2 * m + 10) as nat));
            match r {
                Some(kv) => attempt_outcome(op.rows(), op.ncols(), y@, f) == Some(kv.row_indices@),
                None => attempt_outcome(op.rows(), op.ncols(), y@, f) is None,
            }
        }),
{
    let seq_len = 2 * m + 10;
    let sequence = krylov_sequence(op, m, x, y, seq_len);
    let f = berlekamp_massey(sequence.as_slice());
    let ghost s = krylov_scalars(op.rows(), op.ncols(), x@, y@, (2 * m + 10) as nat);
    proof {
        assert(sequence@ =~= s);
    }
    if f.len() <= 1 {
        return None;
    }
    let w_bv = eval_poly_on_krylov(op, m, y, f.as_slice());
    let ghost w = w_bv.data@;
    let ghost at = Seq::new(op.ncols() as nat, |c: int| scatter(op.rows(), w, c as usize, op.rows().len() as int));
    let ghost idx = mask_indices(Seq::new(y@.len(), |i: int| bit(w[i], 0)));
    if all_words_zero(&w_bv.data) {
        proof {
            assert(zero_words(w));
        }
        return None;
    }
    let at_w = op.apply_transpose(&w_bv);
    proof {
        assert(at_w.data@ =~= at);
    }
    if !all_words_zero(&at_w.data) {
        return None;
    }
    let col = w_bv.column(0);
    let kv = KernelVector::from_mask(col.as_slice());
    proof {
        assert(col@ =~= Seq::new(y@.len(), |i: int| bit(w[i], 0)));
    }
    if kv.is_empty() {
        return None;
    }
    proof {
        let rows = op.rows();
        let mi = m as int;
        let mask = col@;
        assert forall|i: int| 0 <= i < mi implies #[trigger] bit(w_bv.data@[i], 0) == mask[i] by {
            assert(mask[i] == w_bv.entry(i, 0));
        }
        assert(mask.take(mi) =~= mask);
        assert forall|c: usize| c < op.ncols() implies #[trigger] sel_count(rows, kv.row_indices@, c) % 2 == 0 by {
            lemma_scatter_parity(rows, w_bv.data@, mask, c, mi, 0);
            assert(at_w.data@[c as int] == 0u64);
            lemma_bit_zero(0);
        }
        assert forall|k: int| 0 <= k < kv.row_indices@.len() implies #[trigger] kv.row_indices@[k] < rows.len() by {
            assert(kv.row_indices@.contains(kv.row_indices@[k]));
        }
    }
    Some(kv)
}

/// The pseudo-random GF(2) vector of length `m` drawn from `seed`: entry `i` is bit `i % 64`
/// of the generator state after `i / 64 + 1` steps from the mixed seed.
pub open spec fn random_bits(m: nat, seed: u64) -> Seq<bool> {
    Seq::new(m, |i: int| bit(lcg_iter(seed_mix(seed), (i / 64 + 1) as nat), (i % 64) as u64))
}

/// The seed of vector `x` in attempt `a` of a run whose generator stands at `state` when the
/// attempt starts: one step from `state + a * GOLDEN`.
pub open spec fn attempt_x_seed(state: u64, a: nat) -> u64 {
    lcg_step(
        vstd::wrapping::u64_specs::wrapping_add(state, vstd::wrapping::u64_specs::wrapping_mul(a as u64, GOLDEN)),
    )
}

/// The generator state at the start of attempt `a` of a run seeded with `seed`: each attempt
/// takes three steps, for `x`, for `y` and one more.
pub open spec fn attempt_state(seed: u64, a: nat) -> u64
    decreases a,
{
    if a == 0 {
        seed
    } else {
        lcg_step(lcg_step(attempt_x_seed(attempt_state(seed, (a - 1) as nat), (a - 1) as nat)))
    }
}

/// The outcome of attempt `a` of a run seeded with `seed`: with the pair `(x, y)` that the
/// attempt draws, the outcome for the Berlekamp-Massey polynomial of its scalar sequence.
#[verifier::opaque]
pub open spec fn attempt_out(rows: Seq<MatrixRow>, ncols: nat, seed: u64, a: nat) -> Option<Seq<usize>> {
    let m = rows.len();
    let xs = attempt_x_seed(attempt_state(seed, a), a);
    let x = random_bits(m, xs);
    let y = random_bits(m, lcg_step(xs));
    attempt_outcome(rows, ncols, y, massey_poly(krylov_scalars(rows, ncols, x, y, (2 * m + 10) as nat)))
}

/// The row sets found in `outs`, each kept at its first appearance.
pub open spec fn distinct_found(outs: Seq<Option<Seq<usize>>>) -> Seq<Seq<usize>>
    decreases outs.len(),
{
    if outs.len() == 0 {
        Seq::empty()
    } else {
        let prev = distinct_found(outs.drop_last());
        match outs.last() {
            Some(idx) => if prev.contains(idx) {
                prev
            } else {
                prev.push(idx)
            },
            None => prev,
        }
    }
}

/// Four scalar Wiedemann attempts on pseudo-random pairs drawn from `rng_seed`: the distinct
/// kernel vectors found, in the order found.
///
/// Every vector returned is a nonempty sorted set of rows of `A` summing to zero over GF(2).
/// On a nonempty matrix, the row sets returned are those of the four attempts' outcomes,
/// each kept at its first appearance.
pub fn block_wiedemann(op: &MatrixOperator<'_>, rng_seed: u64) -> (r: Vec<KernelVector>)
    requires
        2 * op.rows().len() + 10 < usize::MAX,
        cols_in_range(op.rows(), op.ncols()),
    ensures
        all_kernel_vectors(op.rows(), op.ncols(), r@),
        r@.len() <= 4,
        forall|i: int, j: int| 0 <= i < j < r@.len() ==> r@[i].row_indices@ != r@[j].row_indices@,
        (op.rows().len() == 0 || op.ncols() == 0) ==> r@.len() == 0,
        (op.rows().len() > 0 && op.ncols() > 0) ==> found_rows(r@) == distinct_found(
            Seq::new(4, |a: int| attempt_out(op.rows(), op.ncols(), rng_seed, a as nat)),
        ),
{
    let m = op.num_rows();
    if m == 0 || op.num_cols() == 0 {
        return Vec::new();
    }
    let num_attempts: u64 = 4;
    let mut results: Vec<KernelVector> = Vec::new();
    let mut rng_state = rng_seed;
    let mut attempt: u64 = 0;
    let ghost mut outs: Seq<Option<Seq<usize>>> = Seq::empty();
    proof {
        assert(found_rows(results@) =~= distinct_found(outs));
    }
    while attempt < num_attempts
        invariant
            m == op.rows().len(),
            2 * m + 10 < usize::MAX,
            cols_in_range(op.rows(), op.ncols()),
            attempt <= num_attempts,
            num_attempts == 4,
            results@.len() <= attempt,
            all_kernel_vectors(op.rows(), op.ncols(), results@),
            forall|i: int, j: int| 0 <= i < j < results@.len() ==> results@[i].row_indices@ != results@[j].row_indices@,
            rng_state == attempt_state(rng_seed, attempt as nat),
            outs.len() == attempt,
            outs == Seq::new(attempt as nat, |a: int| attempt_out(op.rows(), op.ncols(), rng_seed, a as nat)),
            found_rows(results@) == distinct_found(outs),
        decreases num_attempts - attempt,
    {
        let ghost start = rng_state;
        rng_state = lcg_next(rng_state.wrapping_add(attempt.wrapping_mul(GOLDEN)));
        let ghost xs = rng_state;
        let x = random_gf2_vec(m, rng_state);
        rng_state = lcg_next(rng_state);
        let y = random_gf2_vec(m, rng_state);
        rng_state = lcg_next(rng_state);
        let found = wiedemann_attempt(op, m, x.as_slice(), y.as_slice());
        let ghost out: Option<Seq<usize>> = match &found {
            Some(kv) => Some(kv.row_indices@),
            None => None,
        };
        proof {
            let rows = op.rows();
            let ncols = op.ncols();
            assert(xs == attempt_x_seed(attempt_state(rng_seed, attempt as nat), attempt as nat));
            assert(rng_state == attempt_state(rng_seed, (attempt + 1) as nat));
            assert(x@ =~= random_bits(m as nat, xs));
            assert(y@ =~= random_bits(m as nat, lcg_step(xs)));
            reveal(attempt_out);
            assert(out == attempt_out(rows, ncols, rng_seed, attempt as nat));
        }
        let ghost prev_outs = outs;
        proof {
            outs = outs.push(out);
            assert(outs.drop_last() =~= prev_outs);
            assert(outs =~= Seq::new((attempt + 1) as nat, |a: int| attempt_out(op.rows(), op.ncols(), rng_seed, a as nat)));
        }
        if let Some(kv) = found {
            let mut seen = false;
            let mut t: usize = 0;
            while t < results.len() && !seen
                invariant
                    t <= results@.len(),
                    !seen ==> forall|q: int| 0 <= q < t ==> results@[q].row_indices@ != kv.row_indices@,
                    seen ==> exists|q: int| 0 <= q < t && results@[q].row_indices@ == kv.row_indices@,
                decreases results@.len() - t,
            {
                if same_indices(&results[t].row_indices, &kv.row_indices) {
                    seen = true;
                }
                t = t + 1;
            }
            let ghost before = results@;
            proof {
                if seen {
                    let q = choose|q: int| 0 <= q < t && results@[q].row_indices@ == kv.row_indices@;
                    assert(found_rows(before)[q] == kv.row_indices@);
                    assert(found_rows(before).contains(kv.row_indices@));
                } else {
                    assert(!found_rows(before).contains(kv.row_indices@));
                }
            }
            if !seen {
                results.push(kv);
                proof {
                    assert(found_rows(results@) =~= found_rows(before).push(kv.row_indices@));
                    assert forall|q: int| 0 <= q < results@.len() implies #[trigger] is_kernel_vector(op.rows(), op.ncols(), results@[q]) by {
                        if q < before.len() {
                            assert(results@[q] == before[q]);
                        }
                    }
                    assert forall|i: int, j: int| 0 <= i < j < results@.len() implies results@[i].row_indices@ != results@[j].row_indices@ by {
                        assert(results@[i] == before[i]);
                        if j < before.len() {
                            assert(results@[j] == before[j]);
                        } else {
                            assert(found_rows(before)[i] == before[i].row_indices@);
                        }
                    }
                }
            }
        }
        attempt = attempt + 1;
    }
    proof {
        assert(outs.len() == 4);
    }
    results
}

} // verus!
