use gnfs::polyselect::coppersmith::{rotation_params, CoppersmithConfig};
use gnfs::polyselect::root_sieve::RootSieveConfig;

#[test]
fn rotation_params_seed_is_identity() {
    assert_eq!(rotation_params(0, 1), (0, 0));
    assert_eq!(rotation_params(0, 5), (0, 0));
}

#[test]
fn rotation_params_spiral_pattern() {
    assert_eq!(rotation_params(1, 1), (0, 1));
    assert_eq!(rotation_params(2, 1), (0, -1));
    assert_eq!(rotation_params(3, 1), (1, 0));
    assert_eq!(rotation_params(4, 1), (-1, 0));
    assert_eq!(rotation_params(5, 1), (0, 2));
    assert_eq!(rotation_params(6, 1), (0, -2));
    assert_eq!(rotation_params(7, 1), (2, 0));
    assert_eq!(rotation_params(8, 1), (-2, 0));
}

#[test]
fn rotation_params_scaled_step() {
    assert_eq!(rotation_params(9, 3), (0, 9));
    assert_eq!(rotation_params(12, 3), (-9, 0));
}

#[test]
fn config_defaults() {
    assert_eq!(CoppersmithConfig::default(), CoppersmithConfig { num_polys: 5, step: 1 });
    assert_eq!(RootSieveConfig::default(), RootSieveConfig { j_range: 10, k_range: 10 });
}

#[test]
fn base_m_digits_basic() {
    // 15 in base 3, degree 2: 15 = 0 + 2*3 + 1*9 -> [0, 2, 1].
    let digits = gnfs::polyselect::base_m::base_m_digits(
        &gnfs::dl::residue::LogResidue::from_u64(15),
        &gnfs::dl::residue::LogResidue::from_u64(3),
        2,
    );
    let expected: Vec<gnfs::dl::residue::LogResidue> =
        [0u64, 2, 1].iter().map(|&x| gnfs::dl::residue::LogResidue::from_u64(x)).collect();
    assert_eq!(digits, expected);
}

#[test]
fn base_m_digits_large_base() {
    // n = 5 + 7 m + 3 m^2 with m = 2^40: digits past one machine word.
    let m: u128 = 1 << 40;
    let n = 5 + 7 * m + 3 * m * m;
    let mut digits_n = Vec::new();
    let mut x = n;
    while x > 0 {
        digits_n.push((x & 0xffff_ffff) as u32);
        x >>= 32;
    }
    let n_res = gnfs::dl::residue::LogResidue { digits: digits_n };
    let digits = gnfs::polyselect::base_m::base_m_digits(&n_res, &gnfs::dl::residue::LogResidue::from_u64(1 << 40), 3);
    let expected: Vec<gnfs::dl::residue::LogResidue> =
        [5u64, 7, 3, 0].iter().map(|&x| gnfs::dl::residue::LogResidue::from_u64(x)).collect();
    assert_eq!(digits, expected);
}
