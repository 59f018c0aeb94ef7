//! What the service answers with, computed from what the engine reports.
pub mod handlers;
