//! The Coppersmith schedule: how many rotated variants of a seed pair to produce, and the
//! spiral of rotation parameters `(j, k)` they use.

use vstd::prelude::*;

verus! {

/// How many variants the Coppersmith schedule produces, and its step.
#[derive(Debug, Clone, PartialEq, Eq)]
pub struct CoppersmithConfig {
    /// Number of variants, the seed (variant 0) included.
    pub num_polys: usize,
    /// Step of the rotation spiral.
    pub step: i64,
}

impl Default for CoppersmithConfig {
    fn default() -> (r: Self)
        ensures
            r.num_polys == 5,
            r.step == 1,
    {
        CoppersmithConfig { num_polys: 5, step: 1 }
    }
}

/// The spiral of rotation parameters: `(0, 0)` for the seed; for `i >= 1`, with group
/// `g = (i - 1) / 4 + 1` and position `(i - 1) % 4`, the moves `(0, g s)`, `(0, -g s)`,
/// `(g s, 0)`, `(-g s, 0)` in turn.
pub open spec fn rotation_spec(i: nat, step: int) -> (int, int) {
    if i == 0 {
        (0, 0)
    } else {
        let g = (i - 1) / 4 + 1;
        let m = g * step;
        let p = (i - 1) % 4;
        if p == 0 {
            (0, m)
        } else if p == 1 {
            (0, -m)
        } else if p == 2 {
            (m, 0)
        } else {
            (-m, 0)
        }
    }
}

/// The `(j, k)` rotation parameters of variant `i` of the spiral with step `step`.
pub fn rotation_params(i: usize, step: i64) -> (r: (i64, i64))
    requires
        i == 0 || i64::MIN < ((i - 1) / 4 + 1) * step <= i64::MAX,
    ensures
        r.0 == rotation_spec(i as nat, step as int).0,
        r.1 == rotation_spec(i as nat, step as int).1,
{
    if i == 0 {
        return (0, 0);
    }
    let g = ((i - 1) / 4) as i64 + 1;
    let p = (i - 1) % 4;
    let magnitude = g * step;
    if p == 0 {
        (0, magnitude)
    } else if p == 1 {
        (0, -magnitude)
    } else if p == 2 {
        (magnitude, 0)
    } else {
        (-magnitude, 0)
    }
}

} // verus!
