//! Extension-field discrete logs: the degree-`k` prime ideal, the extension factor base and
//! the errors of the extension-field descent.

pub mod descent;
pub mod factorbase;
pub mod relation;
pub mod target;
