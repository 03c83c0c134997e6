//! Tenant isolation and per-resource quota policy for the object manager.

pub mod laws;
pub mod manager;
pub mod promises;
pub mod quota;
pub mod registry;
pub mod types;
