use gnfs::filter::matrix::{MatrixRow, SparseMatrix};
use gnfs::linalg::blockvec::{BlockVec, BLOCK_WIDTH};
use gnfs::linalg::kernel::KernelVector;
use gnfs::linalg::lanczos::{block_lanczos, block_vec_sub_matmul, gf2_block_pivot, gf2_matmul_block, random_block_vec, zero_inactive_columns};
use gnfs::linalg::lcg::{lcg_next, GOLDEN, LCG_INC};
use gnfs::linalg::operator::MatrixOperator;
use gnfs::linalg::qc::{
    add_mod, algebraic_norm_mod_q, eval_poly_mod, is_prime, legendre_parity, mul_mod, pow_mod, set_qc_columns, splits_completely,
    DEFAULT_NUM_QC,
};
use gnfs::linalg::wiedemann::{
    berlekamp_massey, block_wiedemann, bool_vec_to_blockvec, eval_poly_on_krylov, inner_product_scalar, krylov_sequence, random_gf2_vec,
    wiedemann_attempt, xor_shifted,
};

fn make_matrix(rows: Vec<(Vec<usize>, Vec<usize>)>, num_cols: usize) -> SparseMatrix {
    let col_weights = vec![0u32; num_cols];
    SparseMatrix {
        rows: rows.into_iter().map(|(cols, prov)| MatrixRow { cols, provenance: prov }).collect(),
        num_cols,
        obstruction_col_start: num_cols,
        obstruction_count: 0,
        col_weights,
    }
}

fn small_matrix() -> SparseMatrix {
    SparseMatrix {
        rows: vec![
            MatrixRow { cols: vec![0, 2], provenance: vec![0] },
            MatrixRow { cols: vec![1, 3], provenance: vec![1] },
            MatrixRow { cols: vec![0, 1], provenance: vec![2] },
        ],
        num_cols: 4,
        obstruction_col_start: 4,
        obstruction_count: 0,
        col_weights: vec![2, 2, 1, 1],
    }
}

// ── blockvec ────────────────────────────────────────────────────────────────

#[test]
fn blockvec_zeros_is_all_zero() {
    let v = BlockVec::zeros(5);
    assert_eq!(v.num_rows, 5);
    assert!(v.data.iter().all(|&w| w == 0));
}

#[test]
fn blockvec_set_and_get_roundtrip() {
    let mut v = BlockVec::zeros(4);
    v.set(0, 0, true);
    v.set(1, 3, true);
    v.set(3, 63, true);
    assert!(v.get(0, 0));
    assert!(!v.get(0, 1));
    assert!(v.get(1, 3));
    assert!(v.get(3, 63));
    assert!(!v.get(2, 0));
}

#[test]
fn blockvec_from_columns_roundtrip() {
    let col0 = vec![true, false, true];
    let col1 = vec![false, true, true];
    let v = BlockVec::from_columns(&[col0.clone(), col1.clone()]);
    assert_eq!(v.column(0), col0);
    assert_eq!(v.column(1), col1);
    assert!(v.column(2).iter().all(|&b| !b));
}

#[test]
fn xor_assign_correctness() {
    let col0 = vec![true, false, true];
    let col1 = vec![false, true, true];
    let mut a = BlockVec::from_columns(&[col0]);
    let b = BlockVec::from_columns(&[col1]);
    a.xor_assign(&b);
    assert_eq!(a.column(0), vec![true, true, false]);
}

#[test]
fn inner_product_matrix_identity() {
    let col0 = vec![true, true, false];
    let col1 = vec![true, false, true];
    let v = BlockVec::from_columns(&[col0, col1]);
    let ip = v.inner_product_matrix(&v);
    assert_eq!(ip[0] & 1, 0, "result[0] bit 0 should be 0");
    assert_eq!((ip[0] >> 1) & 1, 1, "result[0] bit 1 should be 1");
    assert_eq!(ip[1] & 1, 1, "result[1] bit 0 should be 1");
    assert_eq!((ip[1] >> 1) & 1, 0, "result[1] bit 1 should be 0");
}

#[test]
fn set_clears_a_bit() {
    let mut v = BlockVec::zeros(2);
    v.set(1, 5, true);
    v.set(1, 5, false);
    assert_eq!(v.data, vec![0, 0]);
}

// ── kernel ──────────────────────────────────────────────────────────────────

#[test]
fn from_mask_roundtrip() {
    let mask = vec![true, false, true, false, true];
    let kv = KernelVector::from_mask(&mask);
    assert_eq!(kv.row_indices, vec![0, 2, 4]);
}

#[test]
fn verify_valid_nullspace() {
    let m = make_matrix(vec![(vec![0, 1], vec![0]), (vec![1, 2], vec![1]), (vec![0, 2], vec![2])], 3);
    let kv = KernelVector::new(vec![0, 1, 2]);
    assert!(kv.verify(&m), "XOR of all three rows should be zero");
}

#[test]
fn verify_invalid_nullspace() {
    let m = make_matrix(vec![(vec![0, 1], vec![0]), (vec![1, 2], vec![1])], 3);
    let kv = KernelVector::new(vec![0, 1]);
    assert!(!kv.verify(&m), "XOR of rows 0 and 1 should not be zero");
}

#[test]
fn verify_rejects_out_of_range_row() {
    let m = make_matrix(vec![(vec![0], vec![0])], 1);
    let kv = KernelVector::new(vec![0, 5]);
    assert!(!kv.verify(&m));
}

#[test]
fn expand_provenance_simple() {
    let m = make_matrix(vec![(vec![0, 1], vec![0]), (vec![1, 2], vec![1])], 3);
    let kv = KernelVector::new(vec![0, 1]);
    let expanded = kv.expand_provenance(&m);
    assert_eq!(expanded, vec![0, 1]);
}

#[test]
fn expand_provenance_cancellation() {
    let m = make_matrix(vec![(vec![0], vec![0, 1]), (vec![0], vec![1, 2])], 1);
    let kv = KernelVector::new(vec![0, 1]);
    let expanded = kv.expand_provenance(&m);
    assert_eq!(expanded, vec![0, 2]);
}

#[test]
fn kernel_vector_len_and_empty() {
    let kv = KernelVector::from_mask(&[false, false]);
    assert!(kv.is_empty());
    assert_eq!(kv.len(), 0);
    let kv = KernelVector::new(vec![1, 4]);
    assert_eq!(kv.len(), 2);
}

// ── operator ────────────────────────────────────────────────────────────────

#[test]
fn apply_zero_vector() {
    let m = small_matrix();
    let op = MatrixOperator::new(&m);
    let v = BlockVec::zeros(4);
    let result = op.apply(&v);
    assert_eq!(result, BlockVec::zeros(3));
}

#[test]
fn apply_transpose_zero_vector() {
    let m = small_matrix();
    let op = MatrixOperator::new(&m);
    let v = BlockVec::zeros(3);
    let result = op.apply_transpose(&v);
    assert_eq!(result, BlockVec::zeros(4));
}

#[test]
fn apply_single_column_vector() {
    let m = small_matrix();
    let op = MatrixOperator::new(&m);
    let mut v = BlockVec::zeros(4);
    v.set(0, 0, true);
    let result = op.apply(&v);
    assert!(result.get(0, 0), "row 0 should be 1 (col 0 is in row 0)");
    assert!(!result.get(1, 0), "row 1 should be 0 (col 0 not in row 1)");
    assert!(result.get(2, 0), "row 2 should be 1 (col 0 is in row 2)");
}

#[test]
fn apply_transpose_single_column_vector() {
    let m = small_matrix();
    let op = MatrixOperator::new(&m);
    let mut v = BlockVec::zeros(3);
    v.set(0, 0, true);
    let result = op.apply_transpose(&v);
    assert!(result.get(0, 0), "col 0 should be 1");
    assert!(!result.get(1, 0), "col 1 should be 0");
    assert!(result.get(2, 0), "col 2 should be 1");
    assert!(!result.get(3, 0), "col 3 should be 0");
}

#[test]
fn operator_dimensions() {
    let m = small_matrix();
    let op = MatrixOperator::new(&m);
    assert_eq!(op.num_rows(), 3);
    assert_eq!(op.num_cols(), 4);
}

#[test]
fn apply_is_linear_on_words() {
    let m = small_matrix();
    let op = MatrixOperator::new(&m);
    let u = BlockVec { data: vec![0b1010, 0b0110, 0b1111, 0b0001], num_rows: 4 };
    let w = BlockVec { data: vec![0b0011, 0b1000, 0b0101, 0b1110], num_rows: 4 };
    let mut s = u.clone();
    s.xor_assign(&w);
    let mut lhs = op.apply(&u);
    lhs.xor_assign(&op.apply(&w));
    assert_eq!(op.apply(&s), lhs);
}

// ── lanczos ─────────────────────────────────────────────────────────────────

#[test]
fn gf2_block_pivot_identity() {
    let mut s = [0u64; BLOCK_WIDTH];
    for i in 0..BLOCK_WIDTH {
        s[i] = 1u64 << i;
    }
    let (mask, inv) = gf2_block_pivot(s);
    assert_eq!(mask, u64::MAX, "all columns should be pivots for the identity");
    for i in 0..BLOCK_WIDTH {
        let mut row = 0u64;
        let mut bits = inv[i];
        while bits != 0 {
            let j = bits.trailing_zeros() as usize;
            bits &= bits - 1;
            row ^= s[j];
        }
        assert_eq!(row, 1u64 << i, "inv * I should be I at row {i}");
    }
}

#[test]
fn gf2_block_pivot_zero_matrix() {
    let s = [0u64; BLOCK_WIDTH];
    let (mask, _inv) = gf2_block_pivot(s);
    assert_eq!(mask, 0, "zero matrix should have no pivots");
}

#[test]
fn gf2_block_pivot_rank_one() {
    let mut s = [0u64; BLOCK_WIDTH];
    s[0] = 1u64;
    let (mask, _inv) = gf2_block_pivot(s);
    assert_eq!(mask, 1u64, "rank-1 matrix should have exactly 1 pivot (col 0)");
}

#[test]
fn gf2_block_pivot_swap_inverse() {
    // s = [[0,1],[1,0]] on the first two rows: its own inverse; the pivot rows of s_inv * s
    // are the identity on the pivot columns.
    let mut s = [0u64; BLOCK_WIDTH];
    s[0] = 0b10;
    s[1] = 0b01;
    let (mask, inv) = gf2_block_pivot(s);
    assert_eq!(mask, 0b11);
    for i in 0..2 {
        let mut row = 0u64;
        for j in 0..BLOCK_WIDTH {
            if (inv[i] >> j) & 1 == 1 {
                row ^= s[j];
            }
        }
        assert_eq!(row & mask, 1u64 << i);
    }
    assert!(inv[2..].iter().all(|&w| w == 0));
}

#[test]
fn gf2_matmul_block_selects_rows() {
    let mut a = [0u64; BLOCK_WIDTH];
    let mut b = [0u64; BLOCK_WIDTH];
    a[0] = 0b101;
    a[1] = 0b010;
    b[0] = 7;
    b[1] = 9;
    b[2] = 12;
    let c = gf2_matmul_block(a, b, 0b1);
    assert_eq!(c[0], 7 ^ 12);
    assert_eq!(c[1], 0, "row 1 is outside the active mask");
}

#[test]
fn random_block_vec_deterministic() {
    let v1 = random_block_vec(10, 42);
    let v2 = random_block_vec(10, 42);
    assert_eq!(v1.data, v2.data, "random_block_vec should be deterministic");
}

#[test]
fn random_block_vec_different_seeds() {
    let v1 = random_block_vec(10, 42);
    let v2 = random_block_vec(10, 43);
    assert_ne!(v1.data, v2.data, "different seeds should produce different vectors");
}

#[test]
fn random_block_vec_follows_the_generator() {
    let v = random_block_vec(3, 42);
    let s1 = lcg_next(42u64.wrapping_add(GOLDEN));
    let s2 = lcg_next(s1);
    assert_eq!(v.data, vec![s1, s2, lcg_next(s2)]);
}

#[test]
fn lcg_next_of_zero_is_the_increment() {
    assert_eq!(lcg_next(0), LCG_INC);
}

#[test]
fn block_vec_sub_matmul_zero_mat() {
    let src = random_block_vec(5, 1);
    let mut dst = random_block_vec(5, 2);
    let dst_orig = dst.clone();
    block_vec_sub_matmul(&mut dst, &src, [0u64; BLOCK_WIDTH]);
    assert_eq!(dst, dst_orig, "subtracting zero matrix should leave dst unchanged");
}

#[test]
fn block_vec_sub_matmul_adds_selected_rows() {
    let src = BlockVec { data: vec![0b11, 0b10], num_rows: 2 };
    let mut dst = BlockVec { data: vec![1, 1], num_rows: 2 };
    let mut mat = [0u64; BLOCK_WIDTH];
    mat[0] = 4;
    mat[1] = 8;
    block_vec_sub_matmul(&mut dst, &src, mat);
    assert_eq!(dst.data, vec![1 ^ 4 ^ 8, 1 ^ 8]);
}

#[test]
fn zero_inactive_columns_all_active() {
    let mut v = random_block_vec(5, 7);
    let orig = v.clone();
    zero_inactive_columns(&mut v, u64::MAX);
    assert_eq!(v, orig, "all-active mask should leave v unchanged");
}

#[test]
fn zero_inactive_columns_none_active() {
    let mut v = random_block_vec(5, 7);
    zero_inactive_columns(&mut v, 0);
    assert!(v.data.iter().all(|&w| w == 0), "no-active mask should zero all columns");
}

#[test]
fn block_lanczos_returns_only_left_null_vectors() {
    // Rows 0, 1, 2 sum to zero; row 3 is independent.
    let m = make_matrix(
        vec![(vec![0, 1], vec![0]), (vec![1, 2], vec![1]), (vec![0, 2], vec![2]), (vec![3], vec![3])],
        4,
    );
    let op = MatrixOperator::new(&m);
    for seed in 0..8u64 {
        let found = block_lanczos(&op, seed);
        for kv in &found {
            assert!(!kv.is_empty());
            assert!(kv.verify(&m));
        }
        for w in found.windows(2) {
            assert_ne!(w[0].row_indices, w[1].row_indices);
        }
    }
}

#[test]
fn block_lanczos_empty_matrix() {
    let m = make_matrix(vec![], 3);
    let op = MatrixOperator::new(&m);
    assert!(block_lanczos(&op, 1).is_empty());
}

// ── wiedemann ───────────────────────────────────────────────────────────────

/// The feedback sum of `f` at position `k`.
fn feedback(f: &[bool], s: &[bool], k: usize) -> bool {
    let mut acc = false;
    for i in 0..f.len() {
        if f[i] && s[k - i] {
            acc = !acc;
        }
    }
    acc
}

#[test]
fn bm_all_zero_sequence() {
    let s = vec![false; 10];
    let f = berlekamp_massey(&s);
    assert_eq!(f, vec![true], "all-zero sequence should give trivial polynomial");
}

#[test]
fn bm_fibonacci_mod2() {
    let s: Vec<bool> = vec![false, true, true, false, true, true, false, true, true, false];
    let f = berlekamp_massey(&s);
    assert_eq!(f.len(), 3, "Fibonacci mod 2 should have degree-2 minimal polynomial");
    assert!(f[0], "f[0] (constant term) must be 1");
    assert!(f[1], "f[1] must be 1 for Fibonacci mod 2");
    assert!(f[2], "f[2] must be 1 for Fibonacci mod 2");
}

#[test]
fn bm_all_ones_sequence() {
    let s = vec![true; 8];
    let f = berlekamp_massey(&s);
    assert_eq!(f.len(), 2, "all-ones sequence should have degree-1 minimal polynomial");
    assert!(f[0], "f[0] must be 1");
    assert!(f[1], "f[1] must be 1");
}

#[test]
fn bm_single_one() {
    let s = vec![true];
    let f = berlekamp_massey(&s);
    assert_eq!(f.len(), 2, "single [1] should give degree-1 polynomial");
    assert!(f[0]);
    assert!(f[1]);
}

#[test]
fn bm_single_zero() {
    let s = vec![false];
    let f = berlekamp_massey(&s);
    assert_eq!(f, vec![true], "single [0] should give trivial polynomial");
}

#[test]
fn bm_empty_sequence() {
    assert_eq!(berlekamp_massey(&[]), vec![true]);
}

#[test]
fn bm_result_generates_the_sequence() {
    let s = vec![false, false, true, false, true, true, true, false, false, true, false, true];
    let f = berlekamp_massey(&s);
    assert!(f[0]);
    assert!(f.len() <= s.len() + 1);
    for k in (f.len() - 1)..s.len() {
        assert!(!feedback(&f, &s, k), "the connection polynomial must vanish at {k}");
    }
}

#[test]
fn xor_shifted_zero_shift() {
    let mut dst = vec![true, false, true];
    let src = vec![true, true, false];
    xor_shifted(&mut dst, &src, 0);
    assert_eq!(dst, vec![false, true, true]);
}

#[test]
fn xor_shifted_nonzero_shift() {
    let mut dst = vec![true, false, true, false, false];
    let src = vec![true, true];
    xor_shifted(&mut dst, &src, 2);
    assert_eq!(dst, vec![true, false, false, true, false]);
}

#[test]
fn xor_shifted_grows_destination() {
    let mut dst = vec![true];
    xor_shifted(&mut dst, &[true, true], 3);
    assert_eq!(dst, vec![true, false, false, true, true]);
}

#[test]
fn random_gf2_vec_deterministic() {
    let v1 = random_gf2_vec(20, 42);
    let v2 = random_gf2_vec(20, 42);
    assert_eq!(v1, v2, "random_gf2_vec should be deterministic");
}

#[test]
fn random_gf2_vec_different_seeds() {
    let v1 = random_gf2_vec(20, 42);
    let v2 = random_gf2_vec(20, 43);
    assert_ne!(v1, v2, "different seeds should give different vectors");
}

#[test]
fn random_gf2_vec_reads_generator_bits() {
    let v = random_gf2_vec(70, 5);
    let s1 = lcg_next(5u64.wrapping_add(GOLDEN));
    let s2 = lcg_next(s1);
    for i in 0..64 {
        assert_eq!(v[i], (s1 >> i) & 1 == 1);
    }
    for i in 64..70 {
        assert_eq!(v[i], (s2 >> (i - 64)) & 1 == 1);
    }
}

#[test]
fn inner_product_scalar_parity() {
    let v = bool_vec_to_blockvec(&[true, true, false, true], 4);
    assert_eq!(v.data, vec![1, 1, 0, 1]);
    assert!(!inner_product_scalar(&[true, true, true, false], &v));
    assert!(inner_product_scalar(&[true, false, false, false], &v));
}

#[test]
fn krylov_sequence_first_terms() {
    let m = small_matrix();
    let op = MatrixOperator::new(&m);
    let x = vec![true, false, false];
    let y = vec![true, false, false];
    let s = krylov_sequence(&op, 3, &x, &y, 3);
    // s_0 = x^T y = 1; B = A A^T: B e_0 = (|row0|, row1.row0, row2.row0) = (2, 0, 1) mod 2 = (0, 0, 1).
    assert_eq!(s.len(), 3);
    assert!(s[0]);
    assert!(!s[1]);
}

#[test]
fn eval_poly_constant_polynomial_is_y() {
    let m = small_matrix();
    let op = MatrixOperator::new(&m);
    let y = vec![true, false, true];
    let w = eval_poly_on_krylov(&op, 3, &y, &[true]);
    assert_eq!(w.data, vec![1, 0, 1]);
}

#[test]
fn wiedemann_attempt_results_are_kernel_vectors() {
    let m = make_matrix(vec![(vec![0, 1], vec![0]), (vec![1, 2], vec![1]), (vec![0, 2], vec![2])], 3);
    let op = MatrixOperator::new(&m);
    for seed in 0..16u64 {
        let x = random_gf2_vec(3, seed);
        let y = random_gf2_vec(3, seed + 100);
        if let Some(kv) = wiedemann_attempt(&op, 3, &x, &y) {
            assert!(kv.verify(&m));
        }
    }
}

#[test]
fn block_wiedemann_returns_distinct_left_null_vectors() {
    let m = make_matrix(
        vec![(vec![0, 1], vec![0]), (vec![1, 2], vec![1]), (vec![0, 2], vec![2]), (vec![3], vec![3])],
        4,
    );
    let op = MatrixOperator::new(&m);
    for seed in 0..8u64 {
        let found = block_wiedemann(&op, seed);
        assert!(found.len() <= 4);
        for (i, kv) in found.iter().enumerate() {
            assert!(kv.verify(&m));
            for other in &found[i + 1..] {
                assert_ne!(kv.row_indices, other.row_indices);
            }
        }
    }
}

// ── qc ──────────────────────────────────────────────────────────────────────

#[test]
fn legendre_parity_known_values() {
    assert!(!legendre_parity(2, 7));
    assert!(legendre_parity(3, 7));
    assert!(!legendre_parity(0, 7));
}

#[test]
fn pow_mod_correctness() {
    assert_eq!(pow_mod(2, 10, 1000), 24);
    assert_eq!(pow_mod(3, 0, 7), 1);
    assert_eq!(pow_mod(0, 5, 7), 0);
}

#[test]
fn pow_mod_modulus_one_and_large_base() {
    assert_eq!(pow_mod(5, 3, 1), 0);
    assert_eq!(pow_mod(u64::MAX, 2, 1_000_000_007), ((u64::MAX as u128 % 1_000_000_007).pow(2) % 1_000_000_007) as u64);
}

#[test]
fn is_prime_small() {
    assert!(!is_prime(0));
    assert!(!is_prime(1));
    assert!(is_prime(2));
    assert!(is_prime(3));
    assert!(!is_prime(4));
    assert!(is_prime(5));
    assert!(!is_prime(9));
    assert!(is_prime(97));
}

#[test]
fn is_prime_squares_and_large() {
    assert!(!is_prime(49));
    assert!(!is_prime(121));
    assert!(is_prime(1_000_000_007));
    assert!(!is_prime(1_000_000_007 * 3));
}

#[test]
fn mul_and_add_mod() {
    assert_eq!(mul_mod(u64::MAX, u64::MAX, 10), ((u64::MAX as u128 * u64::MAX as u128) % 10) as u64);
    assert_eq!(add_mod(5, 4, 7), 2);
    assert_eq!(add_mod(2, 3, 7), 5);
    assert_eq!(DEFAULT_NUM_QC, 10);
}

/// Every polynomial `g` with `g[0] = 1` that generates `s` is at least as long as the one
/// Berlekamp-Massey returns (checked by enumerating all shorter candidates).
#[test]
fn bm_result_is_shortest() {
    let seqs: Vec<Vec<bool>> = vec![
        vec![true, false, false, false, false, false, true, false],
        vec![false, false, true, false, true, true, true, false, false, true, false, true],
        vec![true, true, false, true, false, false, false, true, true, true],
        vec![false, false, false, true],
    ];
    for s in seqs {
        let f = berlekamp_massey(&s);
        for len in 1..f.len() {
            for mask in 0u32..(1u32 << (len - 1)) {
                let mut g = vec![true];
                for i in 0..len - 1 {
                    g.push(mask >> i & 1 == 1);
                }
                let generates = ((g.len() - 1)..s.len()).all(|k| !feedback(&g, &s, k));
                assert!(!generates, "{g:?} is shorter than {f:?} and generates {s:?}");
            }
        }
    }
}

#[test]
fn bm_jump_after_late_one() {
    // Six zeros then a one: no register shorter than seven can produce it.
    let s = vec![false, false, false, false, false, false, true];
    let f = berlekamp_massey(&s);
    assert_eq!(f.len(), 8);
    assert!(f[0]);
}

/// The coefficients of x^3 - x - 1, reduced modulo `q`.
fn cubic_mod(q: u64) -> Vec<u64> {
    vec![q - 1, q - 1, 0, 1]
}

#[test]
fn eval_poly_mod_horner() {
    // f(2) = 8 - 2 - 1 = 5; f(5) = 125 - 5 - 1 = 119 = 5 * 23 + 4.
    assert_eq!(eval_poly_mod(&cubic_mod(23), 2, 23), 5);
    assert_eq!(eval_poly_mod(&cubic_mod(23), 5, 23), 4);
    assert_eq!(eval_poly_mod(&[], 7, 11), 0);
}

#[test]
fn splits_completely_cubic() {
    let f = cubic_mod(23);
    let roots_23: Vec<u64> = (0..23).filter(|&r| eval_poly_mod(&f, r, 23) == 0).collect();
    let sc_23 = splits_completely(&f, 23, 3);
    assert_eq!(sc_23, roots_23.len() == 3);
    // x^3 - x - 1 has a double root and a simple root modulo 23: two roots, no split.
    assert_eq!(roots_23.len(), 2);
    assert!(!sc_23);
    // Modulo 59 it splits into three distinct linear factors.
    let f59 = cubic_mod(59);
    let roots_59 = (0..59).filter(|&r| eval_poly_mod(&f59, r, 59) == 0).count();
    assert_eq!(splits_completely(&f59, 59, 3), roots_59 == 3);
}

#[test]
fn algebraic_norm_mod_q_matches_direct() {
    // N_alg(2, 1) for f(x) = x^3 - x - 1 = 8 - 2 - 1 = 5.
    let norm = algebraic_norm_mod_q(2, 1, &cubic_mod(7), 7);
    assert_eq!(norm, 5 % 7, "N_alg(2,1) mod 7 should be 5");
    // N_alg(1, 2) = 1 - 1*4 - 8 = -11, which is 3 modulo 7.
    assert_eq!(algebraic_norm_mod_q(1, 2, &cubic_mod(7), 7), 3);
}

#[test]
fn set_qc_columns_sums_parities_over_provenance() {
    // Two characters: columns 3 and 4 after the sign column 2.
    let mut m = SparseMatrix {
        rows: vec![
            MatrixRow { cols: vec![0, 2], provenance: vec![0] },
            MatrixRow { cols: vec![1], provenance: vec![1, 2] },
            MatrixRow { cols: vec![], provenance: vec![3] },
        ],
        num_cols: 5,
        obstruction_col_start: 2,
        obstruction_count: 3,
        col_weights: vec![1, 1, 1, 0, 0],
    };
    let parities = vec![vec![true, false], vec![true, true], vec![true, false], vec![false, false]];
    set_qc_columns(&mut m, &parities, 2);
    assert_eq!(m.rows[0].cols, vec![0, 2, 3]);
    assert_eq!(m.rows[1].cols, vec![1, 4]);
    assert_eq!(m.rows[2].cols, Vec::<usize>::new());
    assert_eq!(m.col_weights, vec![1, 1, 1, 1, 1]);
}

#[test]
fn eval_poly_on_krylov_is_sum_of_krylov_vectors() {
    let m = small_matrix();
    let op = MatrixOperator::new(&m);
    let y = vec![true, true, false];
    let f = [true, true, false, true];
    let w = eval_poly_on_krylov(&op, 3, &y, &f);
    // sum_k f_k B^k y, with B v = A (A^T v).
    let mut power = bool_vec_to_blockvec(&y, 3);
    let mut expected = vec![0u64; 3];
    for &fk in f.iter() {
        if fk {
            for i in 0..3 {
                expected[i] ^= power.data[i];
            }
        }
        power = op.apply(&op.apply_transpose(&power));
    }
    assert_eq!(w.data, expected);
}

#[test]
fn gf2_block_pivot_searches_from_the_diagonal_down() {
    // Row 0 holds only bit 1: column 0 has no row with its bit, and for column 1 the search
    // starts at row 1, so row 0 is never used and no column becomes a pivot.
    let mut s = [0u64; BLOCK_WIDTH];
    s[0] = 0b10;
    let (mask, inv) = gf2_block_pivot(s);
    assert_eq!(mask, 0);
    assert!(inv.iter().all(|&w| w == 0));
}

#[test]
fn gf2_block_pivot_swaps_the_first_row_found() {
    // Column 0 is found at row 1, swapped into position 0; the row operation of pivot row 0
    // is "take original row 1".
    let mut s = [0u64; BLOCK_WIDTH];
    s[1] = 0b01;
    let (mask, inv) = gf2_block_pivot(s);
    assert_eq!(mask, 1);
    assert_eq!(inv[0], 0b10);
    assert!(inv[1..].iter().all(|&w| w == 0));
}

/// The generator states after 1, 2, ... steps from `seed + GOLDEN`.
fn lcg_states(seed: u64, count: usize) -> Vec<u64> {
    let mut state = seed.wrapping_add(GOLDEN);
    let mut out = Vec::new();
    for _ in 0..count {
        state = lcg_next(state);
        out.push(state);
    }
    out
}

#[test]
fn block_lanczos_on_empty_rows_reports_start_block_columns() {
    // With every row empty, `B = 0`: the first step has no pivot, every vector of the start
    // block is scanned, and each nonempty one is a kernel vector.
    let m = make_matrix(vec![(vec![], vec![0]), (vec![], vec![1]), (vec![], vec![2])], 2);
    let op = MatrixOperator::new(&m);
    for seed in [0u64, 1, 7, 12345] {
        let states = lcg_states(seed, 3);
        let mut expected: Vec<Vec<usize>> = Vec::new();
        for j in 0..BLOCK_WIDTH {
            let idx: Vec<usize> = (0..3).filter(|&i| (states[i] >> j) & 1 == 1).collect();
            if idx.is_empty() || expected.last() == Some(&idx) {
                continue;
            }
            expected.push(idx);
        }
        let found: Vec<Vec<usize>> = block_lanczos(&op, seed).into_iter().map(|kv| kv.row_indices).collect();
        assert_eq!(found, expected, "seed {seed}");
    }
}

#[test]
fn block_wiedemann_on_empty_rows_reports_support_of_y() {
    // With every row empty, `B = 0`: the scalar sequence is `x.y, 0, 0, ...`. When `x.y = 1`
    // Berlekamp-Massey gives `1 + 0 z`, so `f(B) y = y`, reported when nonzero; otherwise
    // the polynomial is `1` and the attempt finds nothing.
    let m = make_matrix(vec![(vec![], vec![0]), (vec![], vec![1]), (vec![], vec![2])], 2);
    let op = MatrixOperator::new(&m);
    for seed in [0u64, 3, 99, 4242] {
        let mut expected: Vec<Vec<usize>> = Vec::new();
        let mut state = seed;
        for a in 0..4u64 {
            state = lcg_next(state.wrapping_add(a.wrapping_mul(GOLDEN)));
            let x = random_gf2_vec(3, state);
            state = lcg_next(state);
            let y = random_gf2_vec(3, state);
            state = lcg_next(state);
            let dot = (0..3).filter(|&i| x[i] && y[i]).count() % 2 == 1;
            let idx: Vec<usize> = (0..3).filter(|&i| y[i]).collect();
            if dot && !idx.is_empty() && !expected.contains(&idx) {
                expected.push(idx);
            }
        }
        let found: Vec<Vec<usize>> = block_wiedemann(&op, seed).into_iter().map(|kv| kv.row_indices).collect();
        assert_eq!(found, expected, "seed {seed}");
    }
}

#[test]
fn berlekamp_massey_single_leading_one() {
    // 1, 0, 0, 0: the register of length one with `c_1 = 0`.
    assert_eq!(berlekamp_massey(&[true, false, false, false]), vec![true, false]);
}

#[test]
fn apply_and_apply_transpose_are_adjoint() {
    // u^T (A w) == (A^T u)^T w over GF(2), on pseudo-random blocks.
    let m = make_matrix(
        vec![(vec![0, 1], vec![0]), (vec![1, 2], vec![1]), (vec![0, 2, 3], vec![2]), (vec![3], vec![3]), (vec![], vec![4])],
        4,
    );
    let op = MatrixOperator::new(&m);
    for seed in 0..5u64 {
        let u = random_block_vec(5, seed);
        let w = random_block_vec(4, seed + 100);
        let left = u.inner_product_matrix(&op.apply(&w));
        let right = op.apply_transpose(&u).inner_product_matrix(&w);
        assert_eq!(left, right, "seed {seed}");
    }
}
