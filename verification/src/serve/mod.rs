//! The multi-collection web server.

pub mod auth;
pub mod bookmarks;
pub mod browse;
pub mod config;
pub mod decks;
pub mod edit;
pub mod files;
pub mod frontmatter;
pub mod git;
pub mod handlers;
pub mod hedgedoc;
pub mod href;
pub mod landing;
pub mod local;
pub mod migration;
pub mod notes;
pub mod server;
pub mod source;
pub mod state;
