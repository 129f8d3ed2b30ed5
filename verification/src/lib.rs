//! Spritebox: sandboxed development sprites with a shared virtual filesystem.
pub mod text;
pub mod path;
pub mod payload;
pub mod protocol;
pub mod host;
pub mod remote;
pub mod board;
pub mod cli;
pub mod fuse;
pub mod naming;
pub mod sprites;
pub mod transport;
