//! A small line-oriented text search library.

pub mod config;
pub mod encoding;
pub mod lines;
pub mod lowercase;
pub mod search;
pub mod substring;

pub use config::{Config, Option};
pub use search::{run, search, search_case_insensitive};
