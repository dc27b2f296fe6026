//! A caching, blocking DNS forwarder: the wire codec, the answer cache, the
//! blocklist, the metrics and the forwarding decisions, with machine-checked
//! contracts.

pub mod wire;
pub mod hashing;
pub mod packet;
pub mod packet_laws;
pub mod text;
pub mod cache;
pub mod cache_laws;
pub mod blocklist;
pub mod metrics;
pub mod engine;
pub mod engine_laws;
