//! Array-value execution core of a stack-based array language.
//!
//! The library provides a shape-tagged multidimensional container
//! ([`array::Array`]), pervasive (elementwise, shape-prefix broadcasting)
//! binary operations, and the stack-driven control and aggregation
//! algorithms built on them: bounded and fixpoint repetition, a conditional
//! do-loop, and partitioning/grouping with exact inverses.

pub mod array;
pub mod model;
pub mod env;
pub mod error;
pub mod loops;
pub mod pervade;
pub mod sig;
