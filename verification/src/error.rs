//! Errors reported by the ring.

use vstd::prelude::*;

verus! {

/// Why a ring operation did not go through.
#[derive(Debug, Clone, Copy, PartialEq, Eq, Structural)]
pub enum BrokerError {
    /// The ring has no room for the payload right now; retry later.
    BufferFull,
    /// The ring holds no unread bytes right now; retry later.
    BufferEmpty,
    /// The ring's memory could not be set up.
    SystemError,
    /// The requested capacity cannot back a ring.
    BufferTooSmall,
    /// The payload exceeds a quarter of the ring and can never be written.
    MessageTooLarge,
}

} // verus!
