//! A mixed-radix counter over the Cartesian product of a list of dimension
//! sizes. It walks the product in row-major order and can jump straight to
//! the next sibling at a chosen nesting depth, leaving out the rest of the
//! subtree below it.
//!
//! [`IndexTree`] is the executable counter. [`counter::Counter`] is the
//! mathematical value that it stands for, and every operation of the former
//! is specified as a function on the latter. [`ordinal`] relates the
//! coordinates to their row-major position, and [`laws`] states what holds of
//! whole runs of the counter.

pub mod counter;
pub mod laws;
pub mod ordinal;
mod sanitize;
pub mod tree;

pub use tree::IndexTree;

