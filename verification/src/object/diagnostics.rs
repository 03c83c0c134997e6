//! Read-only object-catalog diagnostics.

use vstd::prelude::*;

verus! {

/// Figures of a catalog at one moment.
#[derive(Clone, Copy, Debug, Eq, PartialEq, Structural)]
pub struct ObjectCatalogStats {
    pub slots: u64,
    pub claims: u64,
    pub pending_objects: u64,
    pub published_objects: u64,
    pub pending_bytes: u64,
    pub live_bytes: u64,
    pub retired_bytes: u64,
    pub retired_memory_bytes: u64,
    pub reclaim_debt: u64,
    pub pending_candidates: usize,
    pub soft_pin_candidates: usize,
    pub liveness_scan_remaining: usize,
    pub young_candidates: usize,
    pub protected_candidates: usize,
    pub retired_candidates: usize,
    pub empty_slot_candidates: usize,
}

impl Default for ObjectCatalogStats {
    /// The figures of an empty catalog.
    fn default() -> (stats: Self)
        ensures
            stats == (ObjectCatalogStats {
                slots: 0,
                claims: 0,
                pending_objects: 0,
                published_objects: 0,
                pending_bytes: 0,
                live_bytes: 0,
                retired_bytes: 0,
                retired_memory_bytes: 0,
                reclaim_debt: 0,
                pending_candidates: 0,
                soft_pin_candidates: 0,
                liveness_scan_remaining: 0,
                young_candidates: 0,
                protected_candidates: 0,
                retired_candidates: 0,
                empty_slot_candidates: 0,
            }),
    {
        Self {
            slots: 0,
            claims: 0,
            pending_objects: 0,
            published_objects: 0,
            pending_bytes: 0,
            live_bytes: 0,
            retired_bytes: 0,
            retired_memory_bytes: 0,
            reclaim_debt: 0,
            pending_candidates: 0,
            soft_pin_candidates: 0,
            liveness_scan_remaining: 0,
            young_candidates: 0,
            protected_candidates: 0,
            retired_candidates: 0,
            empty_slot_candidates: 0,
        }
    }
}

} // verus!
