//! Configuration helpers for command-line tools: configured commands,
//! secrets resolved from a literal or a command, desktop notifications,
//! and TOML configuration loading, merging and serialization.

pub mod command;
pub mod io_error;
pub mod notify;
pub mod secret;
pub mod text;
pub mod toml;
