//! The medium-level intermediate representation of the Ante compiler and the
//! passes that analyse and rewrite it.
pub mod mir;
pub mod fx;
pub mod seq_util;
pub mod text;
pub mod name_resolution;
