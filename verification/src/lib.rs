//! Transport core of a lightweight RPC connection layer: wire-message and
//! durable-record framing, a crash-survivable per-connection message store,
//! and the decision logic of the connection engine's read and write loops.

pub mod connection;
pub mod error;
pub mod fdstore;
pub mod proto;
