//! Foliom core: the pure logic of a local-first markdown outliner.

pub mod indexer;
pub mod inventory;
pub mod mutation;
pub mod parser;
pub mod path;
pub mod query;
pub mod rename;
pub mod scanner;
pub mod storage;
pub mod text;
