//! Individual-logarithm descent: the tree and frontier types, the choice of rewriting
//! relations and child nodes, and the error taxonomy.

pub mod node;
pub mod recurse;
pub mod solve;

pub use node::{DescentFrontier, DescentNode, DescentTarget};
pub use solve::{DescentStepError, InitSmoothingError, SolveDlError};
