//! The two-stage parser: `segment` cuts a file into raw blocks; `ast`
//! extracts references from a block's text.

pub mod ast;
pub mod segment;
