use gnfs::dl::descent::node::{DescentFrontier, DescentNode, DescentTarget};
use gnfs::dl::descent::recurse::{
    absorb_descent, build_children, descend_with_relations, descent_step, find_strictly_reducing_relation, lookup_leaf_log,
    relation_strictly_reduces, DescentStep,
};
use gnfs::dl::descent::solve::{
    assemble_log, init_descent_frontier, primes_up_to, target_key, trial_divide, DescentStepError, InitSmoothingError, SolveDlError,
    TargetKey,
};
use gnfs::dl::residue::LogResidue;
use gnfs::dl::ext::descent::SolveDlExtError;
use gnfs::dl::linalg::blockvec_fl::{recover_virtual_logs, FlMatrixOperator, FlSolution, FlSparseMatrix, FlSparseRow, VirtualLogTable, FL_BLOCK_WIDTH};
use gnfs::dl::ext::factorbase::ExtFactorBase;
use gnfs::dl::ext::relation::{with_ext_prime, ExtDLRelation};
use gnfs::dl::ext::target::{ExtResidueMap, ExtTarget};
use gnfs::dl::relation::DLMatrix;
use gnfs::dl::DLRelation;
use gnfs::sieve::factor_base::{AlgebraicPrime, FactorBase};
use gnfs::sieve::{ExponentVector, Relation};
use num_bigint::BigInt;
use std::cmp::Ordering;

fn bi(n: i64) -> BigInt {
    BigInt::from(n)
}

/// The factor base of x^3 - x - 1 with rational bound `b_rat` and algebraic bound 7.
fn cubic_fb(b_rat: u64) -> FactorBase {
    let all = [2u64, 3, 5, 7, 11, 13];
    FactorBase {
        rational_primes: all.iter().copied().filter(|&p| p <= b_rat).collect(),
        algebraic_ideals: vec![
            AlgebraicPrime { p: 5, r: 2, index: 0, is_bad_prime: false },
            AlgebraicPrime { p: 7, r: 5, index: 1, is_bad_prime: false },
        ],
        b_rat,
        b_alg: 7,
        obstruction_count: 1,
    }
}

fn leaf(target: DescentTarget) -> DescentNode<u64> {
    DescentNode { target, rewriting_relation: None, children: vec![], known_log: None }
}

#[test]
fn descent_target_prime_rational() {
    let t = DescentTarget::Rational(17);
    assert_eq!(t.prime(), 17);
}

#[test]
fn descent_target_prime_algebraic() {
    let t = DescentTarget::Algebraic { p: 13, r: 5 };
    assert_eq!(t.prime(), 13);
}

#[test]
fn descent_target_ordering() {
    let r7 = DescentTarget::Rational(7);
    let a7 = DescentTarget::Algebraic { p: 7, r: 2 };
    let a7b = DescentTarget::Algebraic { p: 7, r: 4 };
    let r5 = DescentTarget::Rational(5);
    assert_eq!(r5.partial_cmp(&r7), Some(Ordering::Less));
    assert_eq!(r7.partial_cmp(&a7), Some(Ordering::Less));
    assert_eq!(a7b.partial_cmp(&a7), Some(Ordering::Greater));
    assert_eq!(a7.partial_cmp(&a7), Some(Ordering::Equal));
    assert_eq!((r7.variant_ord(), a7.variant_ord(), a7b.r_ord(), r7.r_ord()), (0, 1, 4, 0));
}

#[test]
fn frontier_ordering_largest_first() {
    let mut frontier: DescentFrontier<u64> = DescentFrontier::new();
    for p in [7u64, 3, 11, 5, 13, 2] {
        let target = DescentTarget::Rational(p);
        let node = DescentNode { target: target.clone(), rewriting_relation: None, children: vec![], known_log: None };
        frontier.push(target, node);
    }
    let mut popped = vec![];
    while let Some((t, _)) = frontier.pop_largest() {
        popped.push(t.prime());
    }
    assert_eq!(popped, vec![13, 11, 7, 5, 3, 2]);
}

#[test]
fn frontier_is_empty_and_len() {
    let mut frontier: DescentFrontier<u64> = DescentFrontier::new();
    assert!(frontier.is_empty());
    assert_eq!(frontier.len(), 0);
    let target = DescentTarget::Rational(7);
    let node = DescentNode { target: target.clone(), rewriting_relation: None, children: vec![], known_log: None };
    frontier.push(target, node);
    assert!(!frontier.is_empty());
    assert_eq!(frontier.len(), 1);
    frontier.pop_largest();
    assert!(frontier.is_empty());
}

#[test]
fn frontier_pop_returns_the_node_of_the_target() {
    let mut frontier: DescentFrontier<u64> = DescentFrontier::default();
    frontier.push(DescentTarget::Algebraic { p: 5, r: 2 }, leaf(DescentTarget::Algebraic { p: 5, r: 2 }));
    frontier.push(DescentTarget::Rational(3), leaf(DescentTarget::Rational(3)));
    let (t, n) = frontier.pop_largest().unwrap();
    assert_eq!(t, n.target);
    assert_eq!(t.prime(), 5);
    assert_eq!(frontier.len(), 1);
    assert!(frontier.pop_largest().is_some());
    assert!(frontier.pop_largest().is_none());
}

#[test]
fn descent_node_clone_keeps_tree() {
    let mut root = leaf(DescentTarget::Rational(11));
    root.children.push(leaf(DescentTarget::Rational(3)));
    root.known_log = Some(9);
    let c = root.clone();
    assert_eq!(c.target, root.target);
    assert_eq!(c.children.len(), 1);
    assert_eq!(c.children[0].target, DescentTarget::Rational(3));
    assert_eq!(c.known_log, Some(9));
}

fn relation_with(rat: Vec<(usize, u32)>, alg: Vec<(usize, u32)>) -> Relation {
    Relation {
        a: bi(1),
        b: bi(1),
        rational_exponents: ExponentVector { entries: rat },
        algebraic_exponents: ExponentVector { entries: alg },
        rational_sign: false,
    }
}

#[test]
fn relation_strictly_reduces_basic() {
    let temp_fb = cubic_fb(10);
    let mut rat_exp = ExponentVector::new();
    rat_exp.entries.push((0, 1));
    rat_exp.entries.push((1, 1));
    let rel = Relation { a: bi(1), b: bi(1), rational_exponents: rat_exp, algebraic_exponents: ExponentVector::new(), rational_sign: false };
    assert!(relation_strictly_reduces(&rel, 7, &temp_fb));
}

#[test]
fn relation_strictly_reduces_fails_for_large_prime() {
    let temp_fb = cubic_fb(11);
    let mut rat_exp = ExponentVector::new();
    let idx_11 = temp_fb.rational_index(11).expect("11 should be in rational base");
    rat_exp.entries.push((idx_11, 1));
    let rel = Relation { a: bi(1), b: bi(1), rational_exponents: rat_exp, algebraic_exponents: ExponentVector::new(), rational_sign: false };
    assert!(!relation_strictly_reduces(&rel, 7, &temp_fb));
}

#[test]
fn relation_strictly_reduces_algebraic_side() {
    let fb = cubic_fb(10);
    // The special prime itself may appear on the algebraic side.
    assert!(relation_strictly_reduces(&relation_with(vec![(0, 2)], vec![(1, 1)]), 7, &fb));
    assert!(!relation_strictly_reduces(&relation_with(vec![], vec![(1, 1)]), 5, &fb));
    // An index outside the factor base fails.
    assert!(!relation_strictly_reduces(&relation_with(vec![(9, 1)], vec![]), 7, &fb));
}

#[test]
fn find_strictly_reducing_relation_takes_the_first() {
    let fb = cubic_fb(11);
    let big = relation_with(vec![(4, 1)], vec![]);
    let ok1 = relation_with(vec![(0, 1)], vec![]);
    let ok2 = relation_with(vec![(1, 1)], vec![]);
    let all = vec![(3u64, &big), (4u64, &ok1), (5u64, &ok2)];
    let found = find_strictly_reducing_relation(&all, 7, &fb).unwrap();
    assert_eq!(found.0, 4);
    assert_eq!(found.1, &ok1);
    let none = vec![(3u64, &big)];
    assert!(find_strictly_reducing_relation(&none, 7, &fb).is_none());
}

fn table() -> VirtualLogTable<u64> {
    VirtualLogTable { rational_logs: vec![10, 11, 12, 13], algebraic_logs: vec![20, 21] }
}

#[test]
fn lookup_leaf_log_reads_the_table() {
    let fb = cubic_fb(10);
    let t = table();
    assert_eq!(lookup_leaf_log(&DescentTarget::Rational(5), &fb, &t), Some(12));
    assert_eq!(lookup_leaf_log(&DescentTarget::Rational(11), &fb, &t), None);
    assert_eq!(lookup_leaf_log(&DescentTarget::Algebraic { p: 7, r: 5 }, &fb, &t), Some(21));
    assert_eq!(lookup_leaf_log(&DescentTarget::Algebraic { p: 7, r: 1 }, &fb, &t), None);
}

#[test]
fn build_children_expands_exponents() {
    let temp_fb = cubic_fb(13);
    let fb = cubic_fb(10);
    let t = table();
    // 2^2 * 13 on the rational side; ideals (5,2) and the special prime (7,5) on the algebraic side.
    let rel = relation_with(vec![(0, 2), (5, 1)], vec![(0, 1), (1, 1)]);
    let target = DescentTarget::Algebraic { p: 7, r: 5 };
    let children: Vec<DescentNode<u64>> = build_children(&rel, &target, &temp_fb, &fb, &t);
    let targets: Vec<DescentTarget> = children.iter().map(|c| c.target).collect();
    assert_eq!(
        targets,
        vec![
            DescentTarget::Rational(2),
            DescentTarget::Rational(2),
            DescentTarget::Rational(13),
            DescentTarget::Algebraic { p: 5, r: 2 }
        ]
    );
    let logs: Vec<Option<u64>> = children.iter().map(|c| c.known_log).collect();
    assert_eq!(logs, vec![Some(10), Some(10), None, Some(20)]);
    assert!(children.iter().all(|c| c.children.is_empty() && c.rewriting_relation.is_none()));
}

#[test]
fn solve_dl_error_display() {
    let e1 = SolveDlError::Unsupported { k: 3 };
    let msg = e1.message();
    assert!(
        msg.contains("k > 1") || msg.contains("k > 2") || msg.contains("not supported"),
        "Unsupported display should mention k or 'not supported': {msg}"
    );
    let e2 = SolveDlError::InitSmoothingFailed { attempts: 42 };
    assert!(e2.message().contains("42"));
    let e3 = SolveDlError::DescentFailed { stuck_prime: 17 };
    assert!(e3.message().contains("17"));
}

#[test]
fn other_error_messages() {
    assert!(InitSmoothingError::NoSmoothExponent { attempts: 8 }.message().contains('8'));
    let t = DescentTarget::Rational(23);
    assert!(DescentStepError::NoRelationFound { target: t }.message().contains("23"));
    assert!(DescentStepError::NoStrictReduction { target: t }.message().contains("strict"));
    assert!(SolveDlExtError::UnsupportedDegree { k: 3 }.message().contains("k=3"));
    assert!(SolveDlExtError::NoIrreduciblePoly.message().contains("irreducible"));
}

#[test]
fn target_keys() {
    assert_eq!(target_key(&DescentTarget::Rational(5)), TargetKey(5, 0));
    assert_eq!(target_key(&DescentTarget::Algebraic { p: 7, r: 3 }), TargetKey(7, 3));
}

#[test]
fn recover_virtual_logs_splits_coefficients() {
    let sol = FlSolution { coefficients: vec![1u64, 2, 3, 4, 5, 6], is_kernel: true };
    let t = recover_virtual_logs(&sol, 2, 3);
    assert_eq!(t.rational_logs, vec![1, 2]);
    assert_eq!(t.algebraic_logs, vec![3, 4, 5]);
}

#[test]
fn fl_operator_dimensions() {
    let m: FlSparseMatrix<u64> = FlSparseMatrix {
        rows: vec![FlSparseRow { entries: vec![(0, 1)] }, FlSparseRow { entries: vec![(2, 5)] }],
        num_cols: 3,
    };
    let op: FlMatrixOperator<'_, u64, 4> = FlMatrixOperator::new(&m);
    assert_eq!(op.num_rows(), 2);
    assert_eq!(op.num_cols(), 3);
    assert_eq!(FL_BLOCK_WIDTH, 32);
}

#[test]
fn dl_relation_rank() {
    let rel = DLRelation::new(relation_with(vec![], vec![]), vec![bi(3), bi(4)]);
    assert_eq!(rel.schirokauer_rank(), 2);
}

fn dl_rel(cols: Vec<i64>) -> DLRelation {
    let rel = Relation {
        a: bi(1),
        b: bi(1),
        rational_exponents: ExponentVector::new(),
        algebraic_exponents: ExponentVector::new(),
        rational_sign: false,
    };
    DLRelation::new(rel, cols.into_iter().map(bi).collect())
}

#[test]
fn dl_matrix_from_relations_layout() {
    let fb = cubic_fb(5);
    let m = DLMatrix::from_relations(vec![dl_rel(vec![0, 1]), dl_rel(vec![2, 3])], &fb);
    assert_eq!(m.num_rows(), 2);
    assert_eq!(m.rational_size, 3);
    assert_eq!(m.algebraic_size, 2);
    assert_eq!(m.schirokauer_rank, 2);
    assert_eq!(m.num_cols(), 7);
    assert_eq!(m.dimensions(), (2, 7));
}

#[test]
fn dl_matrix_without_relations_has_rank_zero() {
    let fb = cubic_fb(13);
    let m = DLMatrix::from_relations(vec![], &fb);
    assert_eq!(m.dimensions(), (0, 8));
    assert_eq!(m.schirokauer_rank, 0);
}

/// The factor base of x^2 + 1 with both bounds 10, with the inert prime 47 (k = 2, modulus
/// u^2 + 1) as the degree-k ideal.
fn toy_ext_fb() -> ExtFactorBase {
    let base = FactorBase {
        rational_primes: vec![2, 3, 5, 7],
        algebraic_ideals: vec![
            AlgebraicPrime { p: 2, r: 1, index: 0, is_bad_prime: true },
            AlgebraicPrime { p: 5, r: 2, index: 1, is_bad_prime: false },
            AlgebraicPrime { p: 5, r: 3, index: 2, is_bad_prime: false },
        ],
        b_rat: 10,
        b_alg: 10,
        obstruction_count: 1,
    };
    let map = ExtResidueMap { p: p47(), k: 2, modulus: modulus_k2() };
    ExtFactorBase::new(base, map)
}

#[test]
fn kat_ext_factor_base_residue_degree() {
    let fb = toy_ext_fb();
    assert_eq!(fb.k(), 2, "extension degree should be k=2");
    assert_eq!(*fb.p(), p47(), "prime should be 47");
    assert_eq!(fb.residue_map.modulus, modulus_k2(), "modulus should be [1, 0, 1] (u^2 + 1)");
}

#[test]
fn kat_ext_prime_col_layout() {
    let fb = toy_ext_fb();
    let expected_col = fb.base.rational_size() + fb.base.algebraic_size();
    assert_eq!(fb.ext_prime_col(), expected_col, "degree-k prime column should be rational_size + algebraic_size");
    assert_eq!(fb.ext_prime_col(), 7);
}

#[test]
fn kat_ext_matrix_algebraic_size() {
    let fb = toy_ext_fb();
    assert_eq!(fb.ext_matrix_algebraic_size(), fb.base.algebraic_size() + 1, "extended algebraic size should be algebraic_size + 1");
}

#[test]
fn kat_build_dl_matrix_column_layout() {
    let fb = toy_ext_fb();
    let make_rel = |ext_exp: u32| -> DLRelation {
        let mut alg_exp = ExponentVector::new();
        if ext_exp > 0 {
            alg_exp.entries.push((fb.base.algebraic_size(), ext_exp));
        }
        let rel = Relation {
            a: bi(1),
            b: bi(1),
            rational_exponents: ExponentVector::new(),
            algebraic_exponents: alg_exp,
            rational_sign: false,
        };
        DLRelation::new(rel, vec![bi(0), bi(1)])
    };
    let relations = vec![make_rel(1), make_rel(0)];
    let matrix = fb.build_dl_matrix(relations);
    assert_eq!(matrix.rational_size, fb.base.rational_size(), "rational_size should match base");
    assert_eq!(matrix.algebraic_size, fb.base.algebraic_size() + 1, "algebraic_size should be base + 1 (degree-k prime column)");
    assert_eq!(matrix.schirokauer_rank, 2, "schirokauer_rank should be 2 (r>1)");
    assert_eq!(matrix.num_rows(), 2, "should have 2 rows");
}

#[test]
fn descend_with_relations_picks_the_first_reducing_relation() {
    let temp_fb = cubic_fb(13);
    let fb = cubic_fb(10);
    let t = table();
    let target = DescentTarget::Algebraic { p: 7, r: 5 };
    let big = relation_with(vec![(5, 1)], vec![(1, 1)]);
    let ok = relation_with(vec![(0, 1), (1, 1)], vec![(1, 1)]);

    let none: Vec<(u64, &Relation)> = vec![];
    let r: Result<DescentNode<u64>, DescentStepError> = descend_with_relations(target, &none, &temp_fb, &fb, &t);
    assert!(matches!(r, Err(DescentStepError::NoRelationFound { target: x }) if x == target));

    let only_big = vec![(5u64, &big)];
    let r: Result<DescentNode<u64>, DescentStepError> = descend_with_relations(target, &only_big, &temp_fb, &fb, &t);
    assert!(matches!(r, Err(DescentStepError::NoStrictReduction { target: x }) if x == target));

    let both = vec![(5u64, &big), (5u64, &ok)];
    let node: DescentNode<u64> = descend_with_relations(target, &both, &temp_fb, &fb, &t).ok().unwrap();
    assert_eq!(node.target, target);
    assert!(node.known_log.is_none());
    let rewriting = node.rewriting_relation.unwrap();
    assert_eq!(rewriting.relation, ok);
    assert!(rewriting.schirokauer_cols.is_empty());
    let targets: Vec<DescentTarget> = node.children.iter().map(|c| c.target).collect();
    assert_eq!(targets, vec![DescentTarget::Rational(2), DescentTarget::Rational(3)]);
    let logs: Vec<Option<u64>> = node.children.iter().map(|c| c.known_log).collect();
    assert_eq!(logs, vec![Some(10), Some(11)]);
}

#[test]
fn descent_step_pops_largest_and_classifies() {
    let fb = cubic_fb(10);
    let t = table();
    let mut frontier: DescentFrontier<u64> = DescentFrontier::new();
    frontier.push(DescentTarget::Rational(3), leaf(DescentTarget::Rational(3)));
    frontier.push(DescentTarget::Rational(11), leaf(DescentTarget::Rational(11)));
    frontier.push(DescentTarget::Algebraic { p: 7, r: 5 }, leaf(DescentTarget::Algebraic { p: 7, r: 5 }));
    match descent_step(&mut frontier, &fb, &t) {
        DescentStep::Descend(x) => assert_eq!(x, DescentTarget::Rational(11)),
        _ => panic!("11 is outside the factor base"),
    }
    match descent_step(&mut frontier, &fb, &t) {
        DescentStep::Leaf(node) => {
            assert_eq!(node.target, DescentTarget::Algebraic { p: 7, r: 5 });
            assert_eq!(node.known_log, Some(21));
        },
        _ => panic!("(7, 5) is a factor-base leaf"),
    }
    match descent_step(&mut frontier, &fb, &t) {
        DescentStep::Leaf(node) => assert_eq!(node.known_log, Some(11)),
        _ => panic!("3 is a factor-base leaf"),
    }
    assert!(matches!(descent_step(&mut frontier, &fb, &t), DescentStep::Done));
    assert!(frontier.is_empty());
}

#[test]
fn absorb_descent_pushes_interior_children() {
    let mut frontier: DescentFrontier<u64> = DescentFrontier::new();
    let mut known = leaf(DescentTarget::Rational(2));
    known.known_log = Some(10);
    let pending = leaf(DescentTarget::Rational(13));
    let node = DescentNode {
        target: DescentTarget::Rational(17),
        rewriting_relation: None,
        children: vec![known, pending],
        known_log: None,
    };
    absorb_descent(&mut frontier, &node);
    assert_eq!(frontier.len(), 1);
    let (target, n) = frontier.pop_largest().unwrap();
    assert_eq!(target, DescentTarget::Rational(13));
    assert_eq!(n.target, DescentTarget::Rational(13));
    assert!(n.known_log.is_none());
}

#[test]
fn with_ext_prime_inserts_the_extension_entry() {
    let rel = relation_with(vec![(1, 1)], vec![(0, 1), (3, 2)]);
    let r = with_ext_prime(rel.clone(), vec![bi(4), bi(5)], 2, 1);
    assert_eq!(r.base.relation.algebraic_exponents.entries, vec![(0, 1), (2, 1), (3, 2)]);
    assert_eq!(r.base.relation.rational_exponents.entries, vec![(1, 1)]);
    assert_eq!(r.ext_prime_exp, 1);
    assert_eq!(r.schirokauer_rank(), 2);
    // At the end when every index is smaller.
    let r = with_ext_prime(rel.clone(), vec![], 7, 3);
    assert_eq!(r.base.relation.algebraic_exponents.entries, vec![(0, 1), (3, 2), (7, 3)]);
}

#[test]
fn with_ext_prime_zero_exponent_leaves_entries() {
    let rel = relation_with(vec![], vec![(0, 1)]);
    let r = with_ext_prime(rel, vec![bi(1)], 3, 0);
    assert_eq!(r.base.relation.algebraic_exponents.entries, vec![(0, 1)]);
    assert_eq!(r.ext_prime_exp, 0);
    let e = ExtDLRelation::new(r.base.clone(), 0);
    assert_eq!(e.schirokauer_rank(), 1);
}

#[test]
fn error_messages_spell_the_numbers() {
    assert_eq!(SolveDlError::DescentFailed { stuck_prime: 1234 }.message(), "descent failed: could not rewrite prime 1234");
    assert_eq!(SolveDlError::Unsupported { k: 3 }.message(), "extension field F_{p^3} (k > 2) not supported (toy ceiling)");
    assert_eq!(SolveDlError::InitSmoothingFailed { attempts: 0 }.message(), "initialization-smoothing failed after 0 attempts");
    assert_eq!(InitSmoothingError::NoSmoothExponent { attempts: 100 }.message(), "no smooth exponent found after 100 attempts");
    assert_eq!(
        DescentStepError::NoRelationFound { target: DescentTarget::Algebraic { p: 10007, r: 3 } }.message(),
        "no relation found for prime 10007"
    );
    assert_eq!(SolveDlExtError::UnsupportedDegree { k: 18446744073709551615 }.message(), "extension degree k=18446744073709551615 not supported (only k=2 at toy scale)");
    assert_eq!(SolveDlExtError::InvalidGenerator.message(), "g is not a valid generator of the \u{2113}-subgroup (g^ell \u{2260} 1)");
}

// ── trial division, initialization-smoothing, log assembly ───────────────────

fn res(n: u64) -> LogResidue {
    LogResidue::from_u64(n)
}

/// The value of a residue, for comparisons.
fn res_value(r: &LogResidue) -> u128 {
    let mut v: u128 = 0;
    for &d in r.digits.iter().rev() {
        v = (v << 32) | d as u128;
    }
    v
}

fn log_leaf(p: u64, log: u64) -> DescentNode<LogResidue> {
    DescentNode { target: DescentTarget::Rational(p), rewriting_relation: None, children: vec![], known_log: Some(res(log)) }
}

#[test]
fn trial_divide_smooth() {
    // 12 = 2^2 * 3; smooth over {2, 3, 5}.
    let primes = vec![2u64, 3, 5];
    assert_eq!(trial_divide(&res(12), &primes), Some(vec![2, 2, 3]));
}

#[test]
fn trial_divide_not_smooth() {
    // 77 = 7 * 11; 11 is not in {2, 3, 5, 7}.
    let primes = vec![2u64, 3, 5, 7];
    assert_eq!(trial_divide(&res(77), &primes), None);
}

#[test]
fn trial_divide_one() {
    let primes = vec![2u64, 3, 5];
    assert_eq!(trial_divide(&res(1), &primes), Some(vec![]));
}

#[test]
fn trial_divide_zero() {
    let primes = vec![2u64, 3, 5];
    assert_eq!(trial_divide(&res(0), &primes), None);
}

#[test]
fn trial_divide_beyond_one_word() {
    // 2^40 * 3 needs two digits.
    let primes = vec![2u64, 3];
    let mut expected = vec![2u64; 40];
    expected.push(3);
    assert_eq!(trial_divide(&res((1u64 << 40) * 3), &primes), Some(expected));
}

#[test]
fn primes_up_to_twenty() {
    assert_eq!(primes_up_to(20), vec![2, 3, 5, 7, 11, 13, 17, 19]);
    assert!(primes_up_to(1).is_empty());
}

#[test]
fn init_frontier_finds_smooth_exponent() {
    // p = 101, g = 2, h = 50: g^0 * h = 50 = 2 * 5^2 is smooth over primes <= 20.
    let result = init_descent_frontier::<u64>(&res(2), &res(50), &res(101), 20, 100);
    assert!(result.is_ok(), "should find smooth exponent");
    let (e, mut frontier) = result.unwrap();
    assert_eq!(e, 0, "e=0 since g^0 * h = 50 is already smooth");
    assert!(!frontier.is_empty(), "frontier should be non-empty (50 = 2 * 5^2)");
    let mut primes = Vec::new();
    while let Some((t, _)) = frontier.pop_largest() {
        primes.push(t.prime());
    }
    assert_eq!(primes, vec![5, 5, 2]);
}

#[test]
fn init_frontier_no_smooth_exponent() {
    // p = 101, g = 2, h = 97: 97, 93 = 3 * 31 and 86 = 2 * 43 are not 5-smooth.
    let result = init_descent_frontier::<u64>(&res(2), &res(97), &res(101), 5, 3);
    match result {
        Err(InitSmoothingError::NoSmoothExponent { attempts: 3 }) => {}
        Ok(_) => {}
        Err(e) => panic!("unexpected error: {}", e.message()),
    }
}

#[test]
fn init_frontier_later_exponent() {
    // p = 101, g = 2, h = 97, bound 3: 97, 93, 86, 71 (= 2^3 * 97 mod 101), ... the first
    // 3-smooth candidate decides e.
    let mut cand: u64 = 97;
    let mut expected_e = None;
    for e in 0..50u64 {
        let mut c = cand;
        while c % 2 == 0 {
            c /= 2;
        }
        while c % 3 == 0 {
            c /= 3;
        }
        if c == 1 {
            expected_e = Some(e);
            break;
        }
        cand = cand * 2 % 101;
    }
    let result = init_descent_frontier::<u64>(&res(2), &res(97), &res(101), 3, 50);
    match expected_e {
        Some(e) => assert_eq!(result.map(|(e, _)| e).ok(), Some(e)),
        None => assert!(matches!(result, Err(InitSmoothingError::NoSmoothExponent { attempts: 50 }))),
    }
}

#[test]
fn assemble_log_leaf_only() {
    let initial = vec![DescentTarget::Rational(3)];
    let result = assemble_log(&[log_leaf(3, 5)], &initial, &res(7));
    assert_eq!(result.map(|x| res_value(&x)), Ok(5), "single leaf: log = known_log");
}

#[test]
fn assemble_log_two_leaves_sum() {
    let initial = vec![DescentTarget::Rational(2), DescentTarget::Rational(3)];
    let result = assemble_log(&[log_leaf(2, 3), log_leaf(3, 5)], &initial, &res(7));
    assert_eq!(result.map(|x| res_value(&x)), Ok(1), "(3 + 5) mod 7 = 1");
}

#[test]
fn assemble_log_interior_node() {
    let interior = DescentNode::<LogResidue> {
        target: DescentTarget::Rational(6),
        rewriting_relation: None,
        children: vec![log_leaf(2, 3), log_leaf(3, 5)],
        known_log: None,
    };
    let initial = vec![DescentTarget::Rational(6)];
    let result = assemble_log(&[interior], &initial, &res(7));
    assert_eq!(result.map(|x| res_value(&x)), Ok(1), "interior: log = (3 + 5) mod 7 = 1");
}

#[test]
fn assemble_log_with_multiplicity() {
    let interior = DescentNode::<LogResidue> {
        target: DescentTarget::Rational(6),
        rewriting_relation: None,
        children: vec![log_leaf(2, 3), log_leaf(2, 3), log_leaf(3, 5)],
        known_log: None,
    };
    let initial = vec![DescentTarget::Rational(6)];
    let result = assemble_log(&[interior], &initial, &res(7));
    assert_eq!(result.map(|x| res_value(&x)), Ok(4), "multiplicity: (3 + 3 + 5) mod 7 = 4");
}

#[test]
fn assemble_log_interior_child_from_table() {
    // completed = [root 30 -> (6, 5), node 6 -> (2, 3)], processed last first: node 6 gets
    // 3 + 5 = 8 = 1 mod 7, then root 30 gets 1 + 4 = 5.
    let node6 = DescentNode::<LogResidue> {
        target: DescentTarget::Rational(6),
        rewriting_relation: None,
        children: vec![log_leaf(2, 3), log_leaf(3, 5)],
        known_log: None,
    };
    let root = DescentNode::<LogResidue> {
        target: DescentTarget::Rational(30),
        rewriting_relation: None,
        children: vec![
            DescentNode { target: DescentTarget::Rational(6), rewriting_relation: None, children: vec![], known_log: None },
            log_leaf(5, 4),
        ],
        known_log: None,
    };
    let initial = vec![DescentTarget::Rational(30)];
    let result = assemble_log(&[root, node6], &initial, &res(7));
    assert_eq!(result.map(|x| res_value(&x)), Ok(5));
}

#[test]
fn assemble_log_missing_child_fails() {
    let root = DescentNode::<LogResidue> {
        target: DescentTarget::Rational(30),
        rewriting_relation: None,
        children: vec![DescentNode { target: DescentTarget::Rational(6), rewriting_relation: None, children: vec![], known_log: None }],
        known_log: None,
    };
    let initial = vec![DescentTarget::Rational(30)];
    let result = assemble_log(&[root], &initial, &res(7));
    assert!(matches!(result, Err(SolveDlError::DescentFailed { stuck_prime: 6 })));
    let missing = assemble_log(&[log_leaf(2, 3)], &[DescentTarget::Rational(11)], &res(7));
    assert!(matches!(missing, Err(SolveDlError::DescentFailed { stuck_prime: 11 })));
}

#[test]
fn assemble_log_large_modulus() {
    // Logs above 2^32 add across digits: (2^40 + 2^40) mod (2^41 - 1) = 1.
    let ell = res((1u64 << 41) - 1);
    let initial = vec![DescentTarget::Rational(2), DescentTarget::Rational(3)];
    let result = assemble_log(&[log_leaf(2, 1 << 40), log_leaf(3, 1 << 40)], &initial, &ell);
    assert_eq!(result.map(|x| res_value(&x)), Ok(1));
}

// ── extension-field targets ─────────────────────────────────────────────────

const P47: u64 = 47;

fn p47() -> LogResidue {
    res(P47)
}

/// The irreducible modulus m(u) = u^2 + 1: [1, 0, 1].
fn modulus_k2() -> Vec<LogResidue> {
    vec![res(1), res(0), res(1)]
}

/// The element c0 + c1 u of F_{47^2} = F_47[u]/(u^2 + 1).
fn fp2_target(c0: u64, c1: u64) -> ExtTarget {
    ExtTarget::from_coeffs(vec![res(c0), res(c1)], p47(), modulus_k2())
}

fn coeff_values(t: &ExtTarget) -> Vec<u128> {
    t.coeffs.iter().map(res_value).collect()
}

#[test]
fn kat_ext_target_k2_well_formed() {
    let t = fp2_target(13, 29);
    assert_eq!(t.k, 2, "k should be 2");
    assert_eq!(t.p, p47(), "p should be 47");
    assert_eq!(res_value(&t.coeffs[0]), 13, "c_0 should be 13");
    assert_eq!(res_value(&t.coeffs[1]), 29, "c_1 should be 29");
    assert_eq!(t.modulus, modulus_k2(), "modulus should be [1, 0, 1]");
}

#[test]
fn kat_ext_target_from_uint_vec_form() {
    let coeffs_from_pairing = vec![res(13), res(29)];
    let t = ExtTarget::from_coeffs(coeffs_from_pairing, p47(), modulus_k2());
    assert_eq!(res_value(t.coeff(0)), 13);
    assert_eq!(res_value(t.coeff(1)), 29);
}

#[test]
fn kat_frobenius_k_times_is_identity() {
    let cases = [(3u64, 7u64), (11, 5), (0, 1), (1, 0), (13, 29), (46, 46)];
    for (c0, c1) in cases {
        let a = fp2_target(c0, c1);
        let frob2 = a.frobenius().frobenius();
        assert_eq!(frob2, a, "Frobenius^2 should be identity for ({c0}, {c1}): got {:?}", coeff_values(&frob2));
    }
}

#[test]
fn kat_u_squared_is_neg_one() {
    let u = fp2_target(0, 1);
    let u2 = u.mul(&u.clone());
    assert_eq!(u2, fp2_target(46, 0), "u^2 should be -1 = (46, 0) in F_{{47^2}}");
}

#[test]
fn kat_frobenius_formula_f47_2() {
    let cases = [(3u64, 7u64, 3u128, 40u128), (11, 5, 11, 42), (0, 1, 0, 46), (1, 0, 1, 0), (13, 29, 13, 18)];
    for (c0, c1, expected_c0, expected_c1) in cases {
        let frob = fp2_target(c0, c1).frobenius();
        assert_eq!(res_value(&frob.coeffs[0]), expected_c0, "Frobenius c_0 mismatch for ({c0}, {c1})");
        assert_eq!(res_value(&frob.coeffs[1]), expected_c1, "Frobenius c_1 mismatch for ({c0}, {c1})");
    }
}

#[test]
fn kat_mul_one_identity() {
    let one = fp2_target(1, 0);
    let a = fp2_target(13, 29);
    assert_eq!(a.mul(&one), a, "a * 1 should be a");
}

#[test]
fn kat_add_zero_identity() {
    let zero = fp2_target(0, 0);
    let a = fp2_target(13, 29);
    assert_eq!(a.add(&zero), a, "a + 0 should be a");
}

#[test]
fn kat_mul_commutative() {
    let a = fp2_target(3, 7);
    let b = fp2_target(11, 5);
    assert_eq!(a.mul(&b), b.mul(&a), "multiplication should be commutative");
}

#[test]
fn kat_distributivity() {
    let a = fp2_target(3, 7);
    let b = fp2_target(11, 5);
    let c = fp2_target(2, 41);
    let lhs = a.mul(&b.add(&c));
    let rhs = a.mul(&b).add(&a.mul(&c));
    assert_eq!(lhs, rhs, "distributivity failed");
}

#[test]
fn kat_is_zero_is_one() {
    assert!(fp2_target(0, 0).is_zero(), "(0,0) should be zero");
    assert!(!fp2_target(1, 0).is_zero(), "(1,0) should not be zero");
    assert!(fp2_target(1, 0).is_one(), "(1,0) should be one");
    assert!(!fp2_target(0, 1).is_one(), "(0,1) should not be one");
    assert!(!fp2_target(0, 0).is_one(), "(0,0) should not be one");
}

#[test]
fn ext_pow_matches_repeated_products() {
    // a^e by square and multiply equals e successive products, and Fermat in F_{47^2}:
    // a^(47^2 - 1) = 1 for a nonzero a.
    let a = fp2_target(13, 29);
    let mut acc = fp2_target(1, 0);
    for e in 0..20u64 {
        assert_eq!(a.pow(&res(e)), acc, "e = {e}");
        acc = acc.mul(&a);
    }
    assert!(a.pow(&res(47 * 47 - 1)).is_one());
    assert_eq!(a.pow(&res(47)), a.frobenius());
}

#[test]
fn ext_mul_cubic_field() {
    // F_{5^3} = F_5[u]/(u^3 + u + 1): u^3 = -u - 1 = 4u + 4, u^4 = 4u^2 + 4u.
    let m = vec![res(1), res(1), res(0), res(1)];
    let u = ExtTarget::from_coeffs(vec![res(0), res(1), res(0)], res(5), m.clone());
    let u2 = u.mul(&u);
    let u3 = u2.mul(&u);
    let u4 = u3.mul(&u);
    assert_eq!(coeff_values(&u3), vec![4, 4, 0]);
    assert_eq!(coeff_values(&u4), vec![0, 4, 4]);
    assert_eq!(u.pow(&res(4)), u4);
}

#[test]
fn kat_make_target_matches_from_coeffs() {
    let map = ExtResidueMap { p: p47(), k: 2, modulus: modulus_k2() };
    let coeffs = vec![res(13), res(29)];
    let t1 = map.make_target(coeffs.clone());
    let t2 = ExtTarget::from_coeffs(coeffs, p47(), modulus_k2());
    assert_eq!(t1, t2, "make_target should match from_coeffs");
}
