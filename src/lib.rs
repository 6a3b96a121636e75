//! Durability and compaction core of a log-structured merge storage engine:
//! block encoding, the tiered compaction controller, and manifest framing.

pub mod block;
pub mod manifest;
pub mod tiered;
