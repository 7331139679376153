//! Errors of the extension-field descent.

use vstd::prelude::*;
use crate::dl::text::{decimal, push_decimal};

verus! {

/// Error of the extension-field (k = 2) discrete-log solver.
#[derive(Debug, Clone, PartialEq, Eq)]
pub enum SolveDlExtError {
    /// Extension degree other than 2.
    UnsupportedDegree {
        /// The degree asked for.
        k: usize,
    },
    /// No exponent made `g^e h` smooth.
    InitSmoothingFailed,
    /// `g^ell != 1`: `g` does not generate the `ell`-subgroup.
    InvalidGenerator,
    /// No irreducible quadratic over F_p was found.
    NoIrreduciblePoly,
}

impl SolveDlExtError {
    /// The human-readable message of the error.
    pub fn message(&self) -> (r: String)
        ensures
            r@ == match *self {
                SolveDlExtError::UnsupportedDegree { k } => "extension degree k="@ + decimal(k as nat)
                    + " not supported (only k=2 at toy scale)"@,
                SolveDlExtError::InitSmoothingFailed => "initialization-smoothing failed: no smooth exponent found"@,
                SolveDlExtError::InvalidGenerator => "g is not a valid generator of the \u{2113}-subgroup (g^ell \u{2260} 1)"@,
                SolveDlExtError::NoIrreduciblePoly => "no irreducible polynomial of degree 2 found over F_p"@,
            },
    {
        match self {
            SolveDlExtError::UnsupportedDegree { k } => {
                let mut s = String::from_str("extension degree k=");
                push_decimal(&mut s, *k as u64);
                s.append(" not supported (only k=2 at toy scale)");
                s
            },
            SolveDlExtError::InitSmoothingFailed => String::from_str("initialization-smoothing failed: no smooth exponent found"),
            SolveDlExtError::InvalidGenerator => String::from_str("g is not a valid generator of the \u{2113}-subgroup (g^ell \u{2260} 1)"),
            SolveDlExtError::NoIrreduciblePoly => String::from_str("no irreducible polynomial of degree 2 found over F_p"),
        }
    }
}

} // verus!
