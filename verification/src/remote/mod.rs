//! Sprite side of the virtual filesystem.

pub mod cache;
pub mod client;
pub mod content_cache;
pub mod laws;
pub mod lookups;
pub mod tally;
