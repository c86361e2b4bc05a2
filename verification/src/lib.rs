//! The rules behind a spaced-repetition web server.

pub mod check;
pub mod cli;
pub mod collection;
pub mod db;
pub mod drill;
pub mod error;
pub mod export;
pub mod flash;
pub mod list;
pub mod markdown;
pub mod order;
pub mod parser;
pub mod path;
pub mod percent;
pub mod serve;
pub mod stats;
pub mod text;
pub mod toml_table;
pub mod types;
pub mod url;
