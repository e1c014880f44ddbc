//! Verified core of the `vent` feedback server: configuration validation,
//! provider templates, channel routing, event construction and acknowledgements.

pub mod cli;
pub mod config;
pub mod defaults;
pub mod delivery;
pub mod json;
pub mod provider;
pub mod redaction;
pub mod runtime;
pub mod sinks;
pub mod surface;
pub mod text;
pub mod types;
pub mod validate;
