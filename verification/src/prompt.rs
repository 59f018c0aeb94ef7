//! Prompts built from templates.
pub mod constructor;
