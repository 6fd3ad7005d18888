//! Pure mutation primitives: byte splicing with offset shifting, and
//! invertible tree operations over an in-memory block tree.

pub mod splice;
pub mod tree_ops;
pub mod undelete;
