//! A file-backed registry of local development servers: records keyed by
//! name, unique by name and by directory, kept in name order.

pub mod actionable_error;
pub mod cli;
pub mod config;
pub mod error;
pub mod fuzzy;
pub mod names;
pub mod project;
pub mod script;
pub mod server;
pub mod store;
