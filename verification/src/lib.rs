//! A verified model of a local IPC server: connection lifecycle management,
//! multi-client multiplexing into one bounded event queue, ordered delivery
//! to a single consumer, and backpressure-safe shutdown.
//!
//! The library is the decision core: it assigns client identifiers, tracks
//! live sessions, serializes `Connected` / `Message` / `Disconnected` events
//! into a bounded FIFO, and answers `send` and `stop` requests. A host wraps
//! it around a real transport and drives it with the connections, frames and
//! disconnects it observes.

pub mod endpoint;
pub mod errors;
pub mod framing;
pub mod keys;
pub mod message;
pub mod queue;
pub mod server;
pub mod trace;
