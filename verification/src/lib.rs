//! A small line-oriented text search library.
//!
//! The library splits a text into lines, reports the lines that contain a
//! query string (exactly, or up to lowercasing), and builds the run
//! configuration from plain argument and environment values.

pub mod config;
pub mod search;

pub use config::Config;
pub use config::ConfigError;
pub use config::MissingArg;
pub use search::run_search;
pub use search::search;
pub use search::search_case_insensitive;
pub use search::split_lines;
pub use search::str_contains;
