//! Moving frames between host and sprite.

use vstd::prelude::*;

pub mod controls;
pub mod framing;

verus! {

/// Why a frame could not be sent.
#[derive(Debug, Clone, Copy, PartialEq, Eq, Structural)]
pub enum TransportError {
    Closed,
    Disconnected,
}

impl TransportError {
    /// What the error says.
    pub fn message(&self) -> (r: String)
        ensures
            r@ == (match self {
                TransportError::Closed => "transport closed"@,
                TransportError::Disconnected => "transport disconnected"@,
            }),
    {
        match self {
            TransportError::Closed => "transport closed".to_owned(),
            TransportError::Disconnected => "transport disconnected".to_owned(),
        }
    }
}

} // verus!
