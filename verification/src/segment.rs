//! Memory segment registration, placement, and lifecycle management.

pub mod config;
pub mod descriptor;
pub mod error;
pub mod identity;
pub mod laws;
pub mod lifetime;
pub mod local_ssd;
pub mod offset_allocator;
pub mod placement;
pub mod pool;
pub mod promises;
pub mod reservation;
pub mod resource;
pub mod shards;
pub mod space;
pub mod spec;
pub mod stats;
pub mod transport;
