//! Support for the conversion to continuation-passing style.
pub mod effect_stack;
