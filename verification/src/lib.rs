//! Playback-progress tracking for a media file server.
//!
//! The crate holds the rules of the server as verified functions on plain
//! values: how a relative path becomes a URL-safe string, how a directory's
//! entries become a sorted listing with resume percentages, how a stream
//! tracks the furthest byte reached, and how its final position is written
//! to a keyed store by insert-then-update.

pub mod api;
pub mod db;
pub mod http;
pub mod persister;
pub mod reading_dirs;
pub mod text;
pub mod tracked_file_stream;
pub mod utils;
