//! Talking to sprites: requests, consoles and the bridge to the host.

pub mod api;
pub mod bridge;
pub mod command;
pub mod dial;
pub mod exec;
pub mod request;
