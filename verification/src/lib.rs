//! spout — a local development port registry.
//!
//! The library holds the registry's data model and every rule that decides
//! what the registry holds, which port a service gets, and what the user is
//! shown. File, terminal, network and process access stay with the binary.

pub mod allocator;
pub mod commands;
pub mod compose;
pub mod date;
pub mod error;
pub mod format;
pub mod laws;
pub mod markers;
pub mod paths;
pub mod project;
pub mod protocol;
pub mod prune;
pub mod realloc;
pub mod registry;
pub mod reproject;
pub mod rich;
pub mod rm;
pub mod services;
pub mod strmap;
pub mod text;
pub mod tui;
