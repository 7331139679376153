use gnfs::sieve::factor_base::{AlgebraicPrime, FactorBase};
use gnfs::sieve::lattice::{dot, gcd_u64, is_coprime_i64, round_div, LatticeBasis};
use gnfs::sieve::region::lattice_region_points;


use gnfs::sieve::norms::{norm_sign, rational_norm, SignedBig};
use gnfs::sieve::{ExponentVector, NormBridgeError};

// ── lattice ─────────────────────────────────────────────────────────────────

#[test]
fn initial_basis_vectors_are_correct() {
    let basis = LatticeBasis::initial(7, 5);
    assert_eq!(basis.v1, (7, 0));
    assert_eq!(basis.v2, (5, 1));
}

#[test]
fn initial_basis_points_in_lattice() {
    let basis = LatticeBasis::initial(7, 5);
    assert!(basis.in_lattice(7, 0), "v1 = (7, 0) should be in L_q");
    assert!(basis.in_lattice(5, 1), "v2 = (5, 1) should be in L_q");
}

#[test]
fn gauss_reduce_produces_shorter_vectors() {
    let initial = LatticeBasis::initial(7, 5);
    let reduced = initial.gauss_reduce();
    let initial_sum_sq = dot(initial.v1, initial.v1) + dot(initial.v2, initial.v2);
    let reduced_sum_sq = dot(reduced.v1, reduced.v1) + dot(reduced.v2, reduced.v2);
    assert!(
        reduced_sum_sq <= initial_sum_sq,
        "Gauss reduction should not increase the sum of squared norms: initial={initial_sum_sq}, reduced={reduced_sum_sq}"
    );
}

#[test]
fn gauss_reduce_preserves_lattice_membership() {
    let initial = LatticeBasis::initial(7, 5);
    let reduced = initial.gauss_reduce();
    assert!(
        reduced.in_lattice(reduced.v1.0, reduced.v1.1),
        "reduced V1 = {:?} should be in L_q (q={}, r_q={})",
        reduced.v1,
        reduced.q,
        reduced.r_q
    );
    assert!(
        reduced.in_lattice(reduced.v2.0, reduced.v2.1),
        "reduced V2 = {:?} should be in L_q (q={}, r_q={})",
        reduced.v2,
        reduced.q,
        reduced.r_q
    );
}

#[test]
fn gauss_reduce_satisfies_reduced_condition() {
    let initial = LatticeBasis::initial(7, 5);
    let reduced = initial.gauss_reduce();
    let norm1_sq = dot(reduced.v1, reduced.v1);
    let norm2_sq = dot(reduced.v2, reduced.v2);
    assert!(norm1_sq <= norm2_sq, "Gauss-reduced condition: |V1| <= |V2|, but |V1|^2={norm1_sq} > |V2|^2={norm2_sq}");
}

#[test]
fn gauss_reduce_exact_result() {
    // Ordered pair ((5,1), (7,0)); k = round(35/49) = 1; V1 = (5,1) - (7,0).
    let reduced = LatticeBasis::initial(7, 5).gauss_reduce();
    assert_eq!(reduced.v1, (-2, 1));
    assert_eq!(reduced.v2, (7, 0));
    assert_eq!((reduced.q, reduced.r_q), (7, 5));
    assert!(2 * dot(reduced.v1, reduced.v2).abs() < dot(reduced.v2, reduced.v2));
}

#[test]
fn gauss_reduce_already_reduced_pair_is_kept() {
    let b = LatticeBasis { v1: (1, 0), v2: (0, 1), q: 1, r_q: 0 };
    let r = b.gauss_reduce();
    assert_eq!((r.v1, r.v2), ((1, 0), (0, 1)));
}

#[test]
fn gauss_reduce_keeps_the_determinant_up_to_sign() {
    for (q, r) in [(7u64, 5u64), (11, 3), (13, 1), (101, 37), (97, 0)] {
        let reduced = LatticeBasis::initial(q, r).gauss_reduce();
        let det = reduced.v1.0 * reduced.v2.1 - reduced.v1.1 * reduced.v2.0;
        assert_eq!(det.abs(), q as i64, "q={q}, r={r}: reduced basis {:?}, {:?}", reduced.v1, reduced.v2);
    }
}

#[test]
fn gauss_reduce_tie_stops_with_ordered_pair() {
    // q = 2, r = 1: ordered pair ((1,1), (2,0)) has 2 |dot| = 4 = |(2,0)|^2, a tie; the
    // reduction stops there with a reduced basis of the lattice.
    let reduced = LatticeBasis::initial(2, 1).gauss_reduce();
    assert_eq!((reduced.v1, reduced.v2), ((1, 1), (2, 0)));
    let det = reduced.v1.0 * reduced.v2.1 - reduced.v1.1 * reduced.v2.0;
    assert_eq!(det.abs(), 2);
    assert!(2 * dot(reduced.v1, reduced.v2).abs() <= dot(reduced.v2, reduced.v2));
}

#[test]
fn gauss_reduce_large_q() {
    // q near the top of the admitted range (q^2 < 2^63).
    for (q, r) in [(3_000_000_019u64, 1_234_567_891u64), (3_037_000_493, 3_037_000_000), (2_147_483_659, 5)] {
        let reduced = LatticeBasis::initial(q, r).gauss_reduce();
        let (v1, v2) = (reduced.v1, reduced.v2);
        let det = (v1.0 as i128) * (v2.1 as i128) - (v1.1 as i128) * (v2.0 as i128);
        assert_eq!(det.abs(), q as i128, "q={q}, r={r}");
        assert!(reduced.in_lattice(v1.0, v1.1) && reduced.in_lattice(v2.0, v2.1));
        assert!(dot(v1, v1) <= dot(v2, v2));
        assert!(2 * (dot(v1, v2) as i128).abs() <= dot(v2, v2) as i128);
    }
}

#[test]
fn round_div_basic() {
    assert_eq!(round_div(3, 2), 2);
    assert_eq!(round_div(1, 2), 1);
    assert_eq!(round_div(-1, 2), -1);
    assert_eq!(round_div(4, 3), 1);
    assert_eq!(round_div(5, 3), 2);
    assert_eq!(round_div(0, 5), 0);
}

#[test]
fn round_div_negative_denominator_and_zero() {
    assert_eq!(round_div(3, -2), -2);
    assert_eq!(round_div(-7, -2), 4);
    assert_eq!(round_div(5, 0), 0);
}

#[test]
fn in_lattice_checks_congruence() {
    let basis = LatticeBasis::initial(7, 5);
    assert!(basis.in_lattice(5, 1));
    assert!(basis.in_lattice(12, 1));
    assert!(!basis.in_lattice(3, 1));
    assert!(basis.in_lattice(10, 2));
}

#[test]
fn in_lattice_negative_coordinates() {
    let basis = LatticeBasis::initial(7, 5);
    assert!(basis.in_lattice(-2, 1));
    assert!(!basis.in_lattice(-3, 1));
}

#[test]
fn lattice_gcd_u64_cases() {
    assert_eq!(gcd_u64(7, 13), 1);
    assert_eq!(gcd_u64(12, 8), 4);
    assert_eq!(gcd_u64(0, 5), 5);
    assert_eq!(gcd_u64(5, 0), 5);
}

#[test]
fn gcd_of_zeros_is_zero() {
    assert_eq!(gcd_u64(0, 0), 0);
}

#[test]
fn is_coprime_i64_cases() {
    assert!(is_coprime_i64(5, 7));
    assert!(is_coprime_i64(-5, 7));
    assert!(!is_coprime_i64(4, 2));
    assert!(!is_coprime_i64(-6, 4));
}

#[test]
fn is_coprime_i64_extremes() {
    assert!(!is_coprime_i64(0, 0));
    assert!(is_coprime_i64(0, 1));
    assert!(!is_coprime_i64(i64::MIN, 2));
}

// ── line / special-q helpers ────────────────────────────────────────────────

#[test]
fn line_first_a_in_range_basic() {
    let a = gnfs::sieve::line::first_a_in_range(3, 5, -10);
    assert_eq!(a, -7);
    assert_eq!(((a % 5) + 5) % 5, 3);
}

#[test]
fn line_first_a_in_range_lo_positive() {
    let a = gnfs::sieve::line::first_a_in_range(2, 7, 5);
    assert_eq!(a, 9);
}

#[test]
fn first_a_in_range_lo_equals_residue() {
    let a = gnfs::sieve::line::first_a_in_range(3, 5, 3);
    assert_eq!(a, 3);
}

#[test]
fn first_a_in_range_residue_above_p() {
    // 12 = 2 (mod 5); the first a >= 0 in that class is 2.
    assert_eq!(gnfs::sieve::line::first_a_in_range(12, 5, 0), 2);
}

#[test]
fn gcd_u64_coprime() {
    assert_eq!(gnfs::sieve::line::gcd_u64(7, 13), 1);
    assert_eq!(gnfs::sieve::line::gcd_u64(1, 100), 1);
}

#[test]
fn gcd_u64_non_coprime() {
    assert_eq!(gnfs::sieve::line::gcd_u64(12, 8), 4);
    assert_eq!(gnfs::sieve::line::gcd_u64(100, 25), 25);
}

#[test]
fn is_coprime_i64_u64_cases() {
    assert!(gnfs::sieve::line::is_coprime_i64_u64(5, 7));
    assert!(gnfs::sieve::line::is_coprime_i64_u64(-5, 7));
    assert!(!gnfs::sieve::line::is_coprime_i64_u64(4, 2));
    assert!(!gnfs::sieve::line::is_coprime_i64_u64(-6, 3));
}

#[test]
fn special_q_first_a_in_range_basic() {
    let a = gnfs::sieve::special_q::first_a_in_range(3, 5, -10);
    assert_eq!(a, -7);
    assert_eq!(((a % 5) + 5) % 5, 3);
}

#[test]
fn special_q_first_a_in_range_lo_positive() {
    let a = gnfs::sieve::special_q::first_a_in_range(2, 7, 5);
    assert_eq!(a, 9);
}

#[test]
fn special_q_gcd_u64_cases() {
    assert_eq!(gnfs::sieve::special_q::gcd_u64(7, 13), 1);
    assert_eq!(gnfs::sieve::special_q::gcd_u64(12, 8), 4);
}

#[test]
fn is_coprime_cases() {
    assert!(gnfs::sieve::special_q::is_coprime_i64_u64(5, 7));
    assert!(gnfs::sieve::special_q::is_coprime_i64_u64(-5, 7));
    assert!(!gnfs::sieve::special_q::is_coprime_i64_u64(4, 2));
}

// ── factor base ─────────────────────────────────────────────────────────────

fn small_fb() -> FactorBase {
    FactorBase {
        rational_primes: vec![2, 3, 5, 7],
        algebraic_ideals: vec![
            AlgebraicPrime { p: 5, r: 2, index: 0, is_bad_prime: false },
            AlgebraicPrime { p: 7, r: 5, index: 1, is_bad_prime: false },
        ],
        b_rat: 10,
        b_alg: 7,
        obstruction_count: 1,
    }
}

#[test]
fn rational_index_lookup() {
    let fb = small_fb();
    assert_eq!(fb.rational_index(2), Some(0));
    assert_eq!(fb.rational_index(3), Some(1));
    assert_eq!(fb.rational_index(5), Some(2));
    assert_eq!(fb.rational_index(7), Some(3));
    assert_eq!(fb.rational_index(11), None);
    assert_eq!(fb.rational_index(1), None);
}

#[test]
fn algebraic_index_lookup() {
    let fb = small_fb();
    for ap in &fb.algebraic_ideals {
        assert_eq!(fb.algebraic_index(ap.p, ap.r), Some(ap.index));
    }
    assert_eq!(fb.algebraic_index(5, 3), None);
    assert_eq!(fb.algebraic_index(11, 0), None);
}

#[test]
fn matrix_width_is_rational_plus_algebraic_plus_obstruction() {
    let fb = small_fb();
    assert_eq!(fb.rational_size(), 4);
    assert_eq!(fb.algebraic_size(), 2);
    assert_eq!(fb.matrix_width(), fb.rational_size() + fb.algebraic_size() + 1);
}

// ── exponent vectors ────────────────────────────────────────────────────────

#[test]
fn exponent_vector_new_is_empty() {
    let ev = ExponentVector::new();
    assert!(ev.is_empty());
    assert_eq!(ev.len(), 0);
}

#[test]
fn exponent_vector_get_missing_returns_zero() {
    let ev = ExponentVector::new();
    assert_eq!(ev.get(0), 0);
    assert_eq!(ev.get(42), 0);
}

#[test]
fn exponent_vector_get_present_entries() {
    let ev = ExponentVector { entries: vec![(0, 3), (2, 1), (9, 4)] };
    assert_eq!(ev.get(0), 3);
    assert_eq!(ev.get(1), 0);
    assert_eq!(ev.get(2), 1);
    assert_eq!(ev.get(9), 4);
    assert_eq!(ev.get(10), 0);
    assert_eq!(ev.iter(), vec![(0, 3), (2, 1), (9, 4)]);
    assert_eq!(ev.len(), 3);
    assert!(!ev.is_empty());
}

#[test]
fn exponent_vector_default_is_empty() {
    let ev = ExponentVector::default();
    assert!(ev.is_empty());
}

#[test]
fn norm_bridge_error_holds_bits() {
    let e = NormBridgeError::Overflow { bits_required: 300 };
    assert_eq!(e.clone(), NormBridgeError::Overflow { bits_required: 300 });
}

#[test]
fn lattice_region_points_of_a_small_lattice() {
    let basis = LatticeBasis::initial(7, 5).gauss_reduce();
    let (points, count) = lattice_region_points(&basis, 3, 2);
    // a = 5 b (mod 7), |a| <= 3, 1 <= b <= 2: (-2, 1) then (3, 2), both coprime.
    assert_eq!(points, vec![(-2, 1), (3, 2)]);
    assert_eq!(count, 2);
}

#[test]
fn lattice_region_points_skip_non_coprime_pairs() {
    let basis = LatticeBasis { v1: (1, 0), v2: (0, 1), q: 1, r_q: 0 };
    let (points, count) = lattice_region_points(&basis, 2, 2);
    // Every pair of the region: 5 values of a times 2 of b; (0, 2), (2, 2), (-2, 2) share 2.
    assert_eq!(count, 10);
    let mut expected = Vec::new();
    for b in 1..=2i64 {
        for a in -2..=2i64 {
            if is_coprime_i64(a, b) {
                expected.push((a, b));
            }
        }
    }
    assert_eq!(points, expected);
    assert_eq!(points.len(), 7);
}

// ── rational norm ───────────────────────────────────────────────────────────

fn si(n: i64) -> SignedBig {
    SignedBig::from_i64(n)
}

#[test]
fn rational_norm_positive() {
    // a=5, b=1, m=3: N_rat = 5 - 1*3 = 2
    assert_eq!(rational_norm(&si(5), &si(1), &si(3)), si(2));
}

#[test]
fn rational_norm_negative() {
    // a=1, b=2, m=3: N_rat = 1 - 2*3 = -5
    assert_eq!(rational_norm(&si(1), &si(2), &si(3)), si(-5));
}

#[test]
fn rational_norm_zero() {
    // a=6, b=2, m=3: N_rat = 6 - 2*3 = 0
    assert_eq!(rational_norm(&si(6), &si(2), &si(3)), si(0));
}

#[test]
fn rational_norm_negative_a_and_zero_from_negatives() {
    // a=-7, b=2, m=3: -7 - 6 = -13; a=-6, b=-2, m=3: -6 + 6 = 0 (stored nonnegative).
    assert_eq!(rational_norm(&si(-7), &si(2), &si(3)), si(-13));
    assert_eq!(rational_norm(&si(-6), &si(-2), &si(3)), si(0));
    assert!(!norm_sign(&rational_norm(&si(-6), &si(-2), &si(3))));
}

#[test]
fn rational_norm_large_m() {
    // b m = 5 * 2^62 exceeds 64 bits: 1 - 5 * 2^62 = -(5 * 2^62 - 1).
    let m = si(1i64 << 62);
    let r = rational_norm(&si(1), &si(5), &m);
    assert!(r.negative);
    let mag: u128 = 5 * (1u128 << 62) - 1;
    let digits: Vec<u32> = vec![(mag & 0xffff_ffff) as u32, ((mag >> 32) & 0xffff_ffff) as u32, (mag >> 64) as u32];
    assert_eq!(digits[2], 1);
    assert_eq!(r.magnitude.digits, digits);
}

#[test]
fn norm_sign_negative() {
    assert!(norm_sign(&si(-1)));
    assert!(norm_sign(&si(-100)));
}

#[test]
fn norm_sign_non_negative() {
    assert!(!norm_sign(&si(0)));
    assert!(!norm_sign(&si(1)));
    assert!(!norm_sign(&si(100)));
}

#[test]
fn norm_sign_negative_zero_is_non_negative() {
    let z = SignedBig { negative: true, magnitude: gnfs::dl::residue::LogResidue::zero() };
    assert!(!norm_sign(&z));
}
