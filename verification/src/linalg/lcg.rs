//! The linear congruential generator (Knuth's MMIX constants) that seeds the randomized
//! nullspace solvers.

use vstd::prelude::*;

verus! {

/// Multiplier of the generator.
pub const LCG_MUL: u64 = 6_364_136_223_846_793_005;

/// Increment of the generator.
pub const LCG_INC: u64 = 1_442_695_040_888_963_407;

/// Golden-ratio constant mixed into seeds.
pub const GOLDEN: u64 = 0x9e37_79b9_7f4a_7c15;

/// One step of the generator: `x * LCG_MUL + LCG_INC` modulo `2^64`.
pub open spec fn lcg_step(x: u64) -> u64 {
    vstd::wrapping::u64_specs::wrapping_add(
        vstd::wrapping::u64_specs::wrapping_mul(x, LCG_MUL),
        LCG_INC,
    )
}

/// `k` steps of the generator from `x`.
pub open spec fn lcg_iter(x: u64, k: nat) -> u64
    decreases k,
{
    if k == 0 {
        x
    } else {
        lcg_step(lcg_iter(x, (k - 1) as nat))
    }
}

/// The state a seed starts from: `seed + GOLDEN` modulo `2^64`.
pub open spec fn seed_mix(seed: u64) -> u64 {
    vstd::wrapping::u64_specs::wrapping_add(seed, GOLDEN)
}

/// One step of the generator.
pub fn lcg_next(state: u64) -> (r: u64)
    ensures
        r == lcg_step(state),
{
    state.wrapping_mul(LCG_MUL).wrapping_add(LCG_INC)
}

} // verus!
