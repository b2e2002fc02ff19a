//! The medium-level intermediate representation (MIR): definitions made of basic blocks whose
//! instructions operate on typed values, and the passes over them.
pub mod types;
pub mod layout;
pub mod substitute;
pub mod values;
pub mod instruction;
pub mod definition;
pub mod topological;
pub mod program;
pub mod remove_unreachable;
pub mod select_largest_variant;
pub mod validation;
pub mod lower_closures;
pub mod closure_calls;
pub mod closure_types;
pub mod effects;
pub mod cps;
pub mod monomorphization;
