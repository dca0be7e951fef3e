//! A point-to-point message broker core: a byte ring shared by one producer
//! and one consumer, the batch framing that carries payloads over a stream,
//! and the checksummed message format that rides inside each payload.

use vstd::prelude::*;

pub mod arith;
pub mod buffer;
pub mod clock;
pub mod error;
pub mod metrics;
pub mod net;
pub mod ring_laws;

pub use buffer::RingBuffer;
pub use error::BrokerError;
pub use net::BrokerClient;

verus! {

/// Size of a cache line in bytes.
pub const CACHE_LINE_SIZE: usize = 64;

/// Capacity in bytes of a ring made by [`RingBuffer::new`].
pub const RING_BUFFER_SIZE: usize = 268435456;

/// Number of payloads a client stages before it emits one frame.
pub const BATCH_SIZE: usize = 1024;

/// Unit in which the staging and scratch buffers are sized.
pub const BUFFER_CHUNK: usize = 131072;

} // verus!
