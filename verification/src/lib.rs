//! Metadata and coordination core of a distributed object cache.

pub mod client;
pub mod logging;
pub mod object;
pub mod protocol;
pub mod segment;
pub mod server;
pub mod sums;
pub mod text;
pub mod workload;
