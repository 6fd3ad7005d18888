//! The scanner's pure parts: the ignore list, the `:hidden` key of
//! `logseq/config.edn`, and which entries of a directory walk are kept.

pub mod config_edn;
pub mod ignore;
pub mod walk;
