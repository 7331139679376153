//! The configuration of the Kleinjung rotation search.

use vstd::prelude::*;

verus! {

/// The search grid `j in [-j_range, j_range]`, `k in [-k_range, k_range]`.
#[derive(Debug, Clone, PartialEq, Eq)]
pub struct RootSieveConfig {
    /// Half-width of the `j` range.
    pub j_range: i64,
    /// Half-width of the `k` range.
    pub k_range: i64,
}

impl Default for RootSieveConfig {
    fn default() -> (r: Self)
        ensures
            r.j_range == 10,
            r.k_range == 10,
    {
        RootSieveConfig { j_range: 10, k_range: 10 }
    }
}

} // verus!
