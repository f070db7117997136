//! A fault-tolerant broadcast (gossip) protocol core: a monotone store of
//! observed values, deduplicated ingestion, and retry-until-acknowledged
//! propagation of new values to neighbor nodes.
//!
//! The store and the dissemination decisions are verified here; the network
//! transport and the async task runtime live outside the library and drive
//! these functions with plain values.

pub mod gossip;
pub mod laws;
pub mod protocol;
pub mod store;
