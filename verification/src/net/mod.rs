//! The network side of the broker, as far as it can be decided without a
//! socket: the message format, the batch framing, the client's batching and
//! the server's ingress and consumer steps.

pub mod client;
pub mod message;
pub mod message_laws;
pub mod server;

pub use client::BrokerClient;
