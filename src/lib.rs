//! An in-memory key-value store with per-key expiration and oldest-first
//! removal, and the wire codec and command executor that drive it.

pub mod storage;
pub mod protocol;
pub mod executor;
pub mod laws;
pub mod wire_laws;
