//! General Number Field Sieve substrate: sparse GF(2) filtering, block linear algebra,
//! sieve helpers, polynomial-selection schedules and the discrete-log descent data types,
//! each with its behaviour stated as a Verus contract.

pub mod dl;
pub mod filter;
pub mod linalg;
pub mod polyselect;
pub mod sieve;
