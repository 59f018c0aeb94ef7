//! What is asked of the engine.
pub mod client;
