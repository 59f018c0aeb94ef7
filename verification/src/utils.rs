//! The override operations, and the request pipeline built on them.
pub mod laws;
pub mod prompt_build;
pub mod prompt_ops;
