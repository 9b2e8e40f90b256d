//! A Fluentd forward-protocol client library.
//!
//! Records are dynamic values serialized to MessagePack and delivered to an
//! aggregator over TCP with per-chunk acknowledgement. The wire codec, the
//! retry schedule and the worker's decision logic are verified; the socket
//! I/O around them lives with the host application.

pub mod client;
pub mod dec;
pub mod error;
pub mod record;
pub mod retry;
pub mod roundtrip;
pub mod wire;
pub mod worker;
