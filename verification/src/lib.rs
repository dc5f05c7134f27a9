//! Line-oriented text search: which lines of a text hold a query, with or
//! without regard to letter case, and the configuration that selects a run.
//!
//! The library works on texts that are already in memory. Reading the
//! argument list, the environment and the file, and writing the lines out,
//! is left to the caller.

pub mod config;
mod encoding;
pub mod fold;
pub mod lines;
pub mod search;
pub mod substring;

pub use config::{Config, ConfigError};
pub use search::{run, search, search_case_insensitive};
