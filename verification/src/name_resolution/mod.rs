//! Names that resolve to builtin items, where resolved names come from, and the ids of source
//! files, modules and crates.
pub mod builtin;
pub mod namespace;
pub mod origin;
