//! A small line-oriented text search library.
//!
//! Given a query string and a body of text, [`search`] returns every line of
//! the text that contains the query, either by exact comparison or after
//! simple (ASCII) case folding. [`ConfigBuilder`] turns raw command-line
//! arguments into a validated [`Config`] describing one search.

pub mod config;
pub mod engine;
pub mod laws;
pub mod text;

pub use config::Config;
pub use config::ConfigBuilder;
pub use config::ConfigError;
pub use config::SearchSettings;
pub use engine::search;
