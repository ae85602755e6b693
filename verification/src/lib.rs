//! A small line-oriented substring search library.
//!
//! Given a query string and a text buffer, the search functions return every
//! line of the buffer that contains the query, either with exact characters
//! or after lowering both the query and the line. A [`Config`] bundles the
//! query, the name of the file to search, and the case-sensitivity choice.

pub mod config;
pub mod search;
pub mod text;

pub use config::Config;
pub use search::matching_lines;
pub use search::search_case_insensitive;
pub use search::search_case_sensitive;
