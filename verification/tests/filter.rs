use gnfs::filter::matrix::{symdiff_vec, MatrixRow, SparseMatrix, EXCESS_FLOOR};
use gnfs::filter::merge::{merge_columns, prune_cliques};
use gnfs::filter::singleton::remove_singletons;
use gnfs::filter::build_matrix;
use gnfs::linalg::kernel::KernelVector;
use gnfs::sieve::factor_base::{AlgebraicPrime, FactorBase};
use gnfs::sieve::{ExponentVector, Relation};
use num_bigint::BigInt;

/// A well-formed matrix with weights computed from the rows.
fn matrix(rows: Vec<Vec<usize>>, num_cols: usize, obstruction_count: usize) -> SparseMatrix {
    let mut col_weights = vec![0u32; num_cols];
    for r in &rows {
        for &c in r {
            col_weights[c] += 1;
        }
    }
    SparseMatrix {
        rows: rows.into_iter().enumerate().map(|(i, cols)| MatrixRow { cols, provenance: vec![i] }).collect(),
        num_cols,
        obstruction_col_start: num_cols - obstruction_count,
        obstruction_count,
        col_weights,
    }
}

fn weights_match(m: &SparseMatrix) -> bool {
    let mut w = vec![0u32; m.num_cols];
    for r in &m.rows {
        for &c in &r.cols {
            w[c] += 1;
        }
    }
    w == m.col_weights
}

#[test]
fn xor_merge_symmetric_difference_and_union() {
    let a = MatrixRow { cols: vec![0, 2, 5], provenance: vec![1, 4] };
    let b = MatrixRow { cols: vec![2, 3], provenance: vec![4, 7] };
    let c = a.xor_merge(&b);
    assert_eq!(c.cols, vec![0, 3, 5]);
    assert_eq!(c.provenance, vec![1, 4, 7]);
}

#[test]
fn symdiff_vec_cancels_common() {
    assert_eq!(symdiff_vec(&vec![1, 2, 3], &vec![2, 4]), vec![1, 3, 4]);
    assert_eq!(symdiff_vec(&vec![], &vec![5]), vec![5]);
}

#[test]
fn excess_and_remove_row() {
    let mut m = matrix(vec![vec![0, 1], vec![1, 2], vec![2]], 3, 1);
    assert_eq!(m.excess(), 3 - 2);
    m.remove_row(1);
    assert_eq!(m.rows.len(), 2);
    assert_eq!(m.col_weights, vec![1, 1, 1]);
    assert!(weights_match(&m));
    assert_eq!(EXCESS_FLOOR, 20);
}

#[test]
fn remove_singletons_reaches_fixpoint() {
    // Column 3 is a singleton in row 2; removing row 2 makes column 2 a singleton of row 1, and so on.
    let m = matrix(vec![vec![0, 1], vec![0, 1, 2], vec![2, 3], vec![0, 1]], 4, 0);
    let r = remove_singletons(m);
    assert!(weights_match(&r));
    for c in 0..r.obstruction_col_start {
        assert_ne!(r.col_weights[c], 1, "column {c} is still a singleton");
    }
    let prov: Vec<Vec<usize>> = r.rows.iter().map(|row| row.provenance.clone()).collect();
    assert_eq!(prov, vec![vec![0], vec![3]]);
}

/// The largest set of rows in which no column below `ocs` is held by exactly one row,
/// found by enumerating all subsets.
fn brute_force_core(rows: &[Vec<usize>], ocs: usize) -> Vec<usize> {
    let n = rows.len();
    let mut union = vec![false; n];
    for mask in 0u32..(1u32 << n) {
        let free = (0..ocs).all(|c| (0..n).filter(|&i| mask >> i & 1 == 1 && rows[i].contains(&c)).count() != 1);
        if free {
            for i in 0..n {
                if mask >> i & 1 == 1 {
                    union[i] = true;
                }
            }
        }
    }
    (0..n).filter(|&i| union[i]).collect()
}

#[test]
fn remove_singletons_keeps_exactly_the_core() {
    let cases: Vec<(Vec<Vec<usize>>, usize, usize)> = vec![
        (vec![vec![0, 1], vec![0, 1, 2], vec![2, 3], vec![0, 1]], 4, 0),
        (vec![vec![0, 1], vec![1, 2], vec![2, 0], vec![2, 3], vec![3, 4], vec![5]], 6, 1),
        (vec![vec![0], vec![0, 1], vec![1, 2], vec![2, 3], vec![3]], 4, 0),
        (vec![vec![0, 1], vec![1, 2], vec![2, 3], vec![3, 4], vec![4, 0], vec![1, 5]], 6, 0),
    ];
    for (rows, num_cols, obstruction_count) in cases {
        let core = brute_force_core(&rows, num_cols - obstruction_count);
        let r = remove_singletons(matrix(rows.clone(), num_cols, obstruction_count));
        let kept: Vec<usize> = r.rows.iter().map(|row| row.provenance[0]).collect();
        assert_eq!(kept, core, "rows {rows:?}");
        assert!(weights_match(&r));
    }
}

#[test]
fn remove_singletons_skips_obstruction_columns() {
    // Column 2 is an obstruction column: a weight of 1 there is kept.
    let m = matrix(vec![vec![0, 2], vec![0, 1], vec![1]], 3, 1);
    let r = remove_singletons(m);
    assert_eq!(r.rows.len(), 3);
}

#[test]
fn prune_cliques_stops_at_the_floor() {
    // 30 rows over 2 columns: excess 28 > 20, so the heaviest rows go until the excess is 20.
    let mut rows = Vec::new();
    for i in 0..30 {
        if i % 3 == 0 {
            rows.push(vec![0, 1]);
        } else {
            rows.push(vec![i % 2]);
        }
    }
    let m = matrix(rows, 2, 0);
    let r = prune_cliques(m);
    assert_eq!(r.excess(), EXCESS_FLOOR as isize);
    assert!(weights_match(&r));
}

#[test]
fn prune_cliques_drops_the_heaviest_rows_first() {
    // 26 rows over 3 columns: excess 23, so three rows go: the weight-3 rows first (earliest
    // first), then the earliest weight-2 row.
    let mut rows = Vec::new();
    for i in 0..26 {
        rows.push(match i {
            4 | 9 => vec![0, 1, 2],
            2 | 7 | 11 => vec![0, 2],
            _ => vec![i % 3],
        });
    }
    let m = matrix(rows, 3, 0);
    let r = prune_cliques(m);
    assert_eq!(r.excess(), EXCESS_FLOOR as isize);
    let kept: Vec<usize> = r.rows.iter().map(|row| row.provenance[0]).collect();
    let expected: Vec<usize> = (0..26).filter(|&i| i != 4 && i != 9 && i != 2).collect();
    assert_eq!(kept, expected);
    assert!(weights_match(&r));
}

#[test]
fn prune_cliques_never_drops_empty_rows() {
    // Excess 24 but only two nonempty rows: both go, the empty rows stay.
    let mut rows = vec![vec![0], vec![0, 1]];
    for _ in 0..24 {
        rows.push(vec![]);
    }
    let r = prune_cliques(matrix(rows, 2, 0));
    assert_eq!(r.rows.len(), 24);
    assert!(r.rows.iter().all(|row| row.cols.is_empty()));
}

#[test]
fn prune_cliques_leaves_small_excess_alone() {
    let m = matrix(vec![vec![0], vec![1]], 2, 0);
    let r = prune_cliques(m);
    assert_eq!(r.rows.len(), 2);
}

#[test]
fn merge_columns_exact_result() {
    // Weight-2 pass over columns 1, 2, 3: rows 0 and 2 merge on column 1, then row 1 and that
    // merge on column 2 (cancelling every column), then rows 3 and 4 on column 3.
    let m = matrix(vec![vec![0, 1], vec![0, 2], vec![1, 2], vec![0, 3], vec![3]], 4, 0);
    let r = merge_columns(m);
    let got: Vec<(Vec<usize>, Vec<usize>)> = r.rows.iter().map(|row| (row.cols.clone(), row.provenance.clone())).collect();
    assert_eq!(got, vec![(vec![], vec![0, 1, 2]), (vec![0], vec![3, 4])]);
    assert_eq!(r.col_weights, vec![1, 0, 0, 0]);
}

#[test]
fn merge_columns_weight_three_pass() {
    // Column 0 has weight 3 and no column has weight 2: the three rows merge into one.
    let m = matrix(vec![vec![0, 1], vec![0, 2], vec![0, 3], vec![1, 2, 3], vec![1, 2, 3]], 4, 0);
    let r = merge_columns(m);
    let got: Vec<(Vec<usize>, Vec<usize>)> = r.rows.iter().map(|row| (row.cols.clone(), row.provenance.clone())).collect();
    // Weight-3 columns at the start of that pass: 0, 1, 2, 3. Column 0 merges rows 0, 1, 2
    // into ({0, 1, 2, 3}, [0, 1, 2]); column 1 then has holders 3, 4 and that row (weight 3):
    // they merge into ({0, 1, 2, 3}, [0, 1, 2, 3, 4]); columns 2 and 3 are left with weight 1.
    assert_eq!(got, vec![(vec![0, 1, 2, 3], vec![0, 1, 2, 3, 4])]);
    assert!(weights_match(&r));
}

#[test]
fn merge_columns_keeps_weights_consistent() {
    let m = matrix(vec![vec![0, 1], vec![0, 2], vec![1, 2], vec![0, 3], vec![3]], 4, 0);
    let r = merge_columns(m);
    assert!(weights_match(&r));
    assert!(r.rows.len() <= 5);
    for row in &r.rows {
        assert!(row.cols.windows(2).all(|w| w[0] < w[1]));
    }
}

fn fb() -> FactorBase {
    FactorBase {
        rational_primes: vec![2, 3, 5],
        algebraic_ideals: vec![AlgebraicPrime { p: 5, r: 2, index: 0, is_bad_prime: false }],
        b_rat: 5,
        b_alg: 5,
        obstruction_count: 1,
    }
}

fn rel(rat: Vec<(usize, u32)>, alg: Vec<(usize, u32)>, sign: bool) -> Relation {
    Relation {
        a: BigInt::from(3),
        b: BigInt::from(1),
        rational_exponents: ExponentVector { entries: rat },
        algebraic_exponents: ExponentVector { entries: alg },
        rational_sign: sign,
    }
}

#[test]
fn rational_and_algebraic_rows() {
    let f = fb();
    let r = rel(vec![(0, 3), (2, 2)], vec![(0, 1), (4, 1)], true);
    assert_eq!(r.rational_row_gf2(&f), vec![true, true, false, false]);
    assert_eq!(r.algebraic_row_gf2(&f), vec![true, false]);
}

#[test]
fn build_matrix_layout() {
    let f = fb();
    let rels = vec![rel(vec![(0, 1), (1, 2)], vec![(0, 1)], true), rel(vec![(2, 1)], vec![], false)];
    let m = build_matrix(&rels, &f);
    assert_eq!(m.num_cols, 5);
    assert_eq!(m.obstruction_col_start, 4);
    assert_eq!(m.obstruction_count, 1);
    assert_eq!(m.rows[0].cols, vec![0, 3, 4]);
    assert_eq!(m.rows[1].cols, vec![2]);
    assert_eq!(m.rows[1].provenance, vec![1]);
    assert_eq!(m.col_weights, vec![1, 0, 1, 1, 1]);
}

/// Columns hit an odd number of times by the given original rows.
fn odd_columns(orig: &[Vec<usize>], picks: &[usize], num_cols: usize) -> Vec<usize> {
    let mut count = vec![0usize; num_cols];
    for &i in picks {
        for &c in &orig[i] {
            count[c] += 1;
        }
    }
    (0..num_cols).filter(|&c| count[c] % 2 == 1).collect()
}

/// Checks every kernel vector of `m` (by enumerating row subsets): each expands to a set of
/// original rows summing to zero. Returns how many kernel vectors there are.
fn check_kernels(m: &SparseMatrix, orig: &[Vec<usize>]) -> usize {
    let n = m.rows.len();
    let mut found = 0;
    for mask in 1u32..(1u32 << n) {
        let bits: Vec<bool> = (0..n).map(|i| mask >> i & 1 == 1).collect();
        let kv = KernelVector::from_mask(&bits);
        if kv.verify(m) {
            found += 1;
            let picks = kv.expand_provenance(m);
            assert!(!picks.is_empty());
            assert!(odd_columns(orig, &picks, m.num_cols).is_empty(), "original rows {picks:?} must sum to zero");
        }
    }
    found
}

#[test]
fn filtered_kernel_expands_to_even_relation_set() {
    let f = fb();
    let rels = vec![
        rel(vec![(0, 1), (1, 1)], vec![], false),
        rel(vec![(1, 1), (2, 1)], vec![], false),
        rel(vec![(0, 1), (2, 1)], vec![], false),
        rel(vec![(2, 3)], vec![(0, 1)], false),
        rel(vec![], vec![(0, 1)], true),
        rel(vec![(1, 1)], vec![], true),
    ];
    let m0 = build_matrix(&rels, &f);
    let orig: Vec<Vec<usize>> = m0.rows.iter().map(|r| r.cols.clone()).collect();
    assert!(check_kernels(&m0, &orig) >= 1);
    let m = merge_columns(m0.clone());
    assert!(weights_match(&m));
    check_kernels(&m, &orig);
    let pruned = remove_singletons(m0.clone());
    check_kernels(&pruned, &orig);
}

#[test]
fn merge_columns_partitions_the_rows() {
    // Each starting row has its own provenance entry, so the provenance of a merged row names
    // its group: the groups partition the starting rows and each merged row is the XOR of
    // its group's columns.
    let rows = vec![vec![0, 1], vec![1, 2], vec![2, 3, 4], vec![0, 4], vec![3, 5], vec![5, 6], vec![0, 6]];
    let m = matrix(rows.clone(), 7, 0);
    let r = merge_columns(m);
    let mut seen = vec![false; rows.len()];
    for row in &r.rows {
        assert!(!row.provenance.is_empty());
        let mut acc: Vec<usize> = Vec::new();
        for &i in &row.provenance {
            assert!(!seen[i], "row {i} in two groups");
            seen[i] = true;
            acc = symdiff_vec(&acc, &rows[i]);
        }
        assert_eq!(row.cols, acc);
    }
    assert!(seen.iter().all(|&s| s), "every starting row lies in a group");
}

#[test]
fn prune_cliques_below_the_floor_keeps_the_rows() {
    // Excess 1 - 0 = 1 < EXCESS_FLOOR: nothing is pruned, the row stays.
    let m = matrix(vec![vec![0]], 1, 1);
    let before = m.rows.clone();
    let r = prune_cliques(m);
    assert_eq!(r.rows.len(), before.len());
    assert!(r.excess() < EXCESS_FLOOR as isize);
}
