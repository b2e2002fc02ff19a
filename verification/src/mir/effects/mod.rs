//! Lowering of effect handlers and the optimizations that run before it.
pub mod lowering;
pub mod tail_resume;
pub mod channel;
pub mod drive;
pub mod coroutine_wrappers;
pub mod site_rewrite;
pub mod handle_lowering;
pub mod code_size;
pub mod handle_sizes;
pub mod effect_pass;
pub mod handle_check;
pub mod abort;
pub mod body_clone;
pub mod tail_resume_pass;
pub mod handle_worklist;
pub mod abort_pass;
