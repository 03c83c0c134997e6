//! Client identity, session fencing, heartbeat, and cleanup lifecycle.
//!
//! [`lifecycle::ClientRegistry`] fences expired or draining sessions and hands
//! out generation-tagged cleanup work. [`manager::ClientManager`] coordinates
//! the resulting segment and object cleanup.

pub mod config;
pub mod error;
pub mod graceful;
pub mod laws;
pub mod lifecycle;
pub mod manager;
pub mod mounting;
pub mod mounts;
pub mod promises;
pub mod timer;
pub mod undo;
