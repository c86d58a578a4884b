//! A small line-oriented text search: a command-line flag parser and a
//! filter that selects the lines of a text that contain a query.

pub mod config;
pub mod flags;
pub mod report;
pub mod search;
pub mod text;

pub use config::Config;
pub use flags::{Flag, ParseError};
pub use report::search_text;
pub use search::{filter_lines, search, search_ignore_case};
