//! Integer helpers of the special-q sieve: the same residue-class and coprimality arithmetic
//! as the line sieve.

pub use crate::sieve::line::{first_a_in_range, gcd_u64, is_coprime_i64_u64};
