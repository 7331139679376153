//! Polynomial selection: the configurations of the Coppersmith multi-polynomial schedule
//! and of the root-sieve rotation search, and the rotation schedule itself.

pub mod base_m;
pub mod coppersmith;
pub mod root_sieve;

pub use coppersmith::CoppersmithConfig;
pub use root_sieve::RootSieveConfig;
