//! Line-oriented substring search over text held in memory.
//!
//! The text is cut into lines, each line is tested for the presence of a
//! query (exactly, or after lowercasing both sides), and the lines that
//! contain it are returned with their 1-based line numbers.
//!
//! Everything here works on values in memory: reading the command line,
//! the environment and the file, and printing, are left to the caller.

pub mod config;
mod encoding;
pub mod fold;
pub mod lines;
pub mod report;
pub mod search;
pub mod substring;

pub use config::{Config, ConfigError, CASE_INSENSITIVE};
pub use lines::split_first_line;
pub use report::{render, run};
pub use search::{search, search_case_insensitive, MatchingLine};
pub use substring::contains;
