//! Object identity, publication, lookup, and incremental reclamation.
//!
//! A write moves through `begin_write -> WriteClaim::stage -> commit`. Dropping
//! a claim aborts it, while dropping transaction tokens or read handles never
//! releases live storage prematurely. Lookups pin immutable committed versions;
//! `collect_step` releases retired reservations only after their lease and
//! final pin are gone.
//!
//! The root index stores stable slots rather than object payloads. Eviction is
//! therefore a slot-local change followed by bounded queue work; it never
//! performs a stop-the-world map scan.

pub mod catalog;
pub mod config;
pub mod content;
pub mod diagnostics;
pub mod error;
pub mod eviction;
pub mod identity;
pub mod laws;
pub mod manager;
pub mod promises;
pub mod reclamation;
pub mod replica;
pub mod tenant;
pub mod write;
