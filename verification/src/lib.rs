//! Override engine for node-graph prompts, with proved contracts.
//!
//! A prompt is a JSON object of nodes keyed by node id; each node names its
//! `class_type` and carries an `inputs` object, in which an array such as
//! `["6", 0]` links an input to the output of another node. This crate
//! applies overrides to such a graph: values set at explicit dot paths,
//! named parameters broadcast over every node that already has the input,
//! positive and negative text routed through the sampler's links, and a
//! default filename prefix for the nodes that save images.
//!
//! - [`json`]: the JSON tree the engine works on, and its mathematical model.
//! - [`document`]: reading JSON text, by `serde_json`.
//! - [`text`]: string routines.
//! - [`utils`]: the override operations, the request pipeline built on
//!   them, and the laws that hold of both.
//! - [`prompt`]: prompts built from templates.
//! - [`api`]: the listings that the service answers with.
//! - [`comfyui`]: the addresses of the engine's endpoints.
//! - [`config`]: the settings of the service and their defaults.
//! - [`error`]: the errors of this crate.
//!
//! The crate holds no floating-point number. A number that is no integer is
//! held by its JSON text, and where an override text has to be read as a
//! binary64 number the caller does the reading and hands in its outcome; see
//! [`utils::prompt_ops::FloatReading`].
pub mod api;
pub mod comfyui;
pub mod config;
pub mod document;
pub mod error;
pub mod json;
pub mod prompt;
pub mod text;
pub mod utils;

pub use config::Config;
pub use prompt::constructor::PromptConstructor;
