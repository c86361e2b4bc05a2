//! Drilling cards.

pub mod assets;
pub mod cache;
pub mod get;
pub mod post;
pub mod render;
pub mod server;
pub mod state;
pub mod table;
