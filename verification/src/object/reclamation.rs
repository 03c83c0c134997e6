//! Incremental object-catalog reclamation controls and reports.

use super::identity::NamespaceId;
use crate::client::lifecycle::capped_sum;
use crate::segment::spec::ReplicaClass;
use vstd::prelude::*;

verus! {

/// A moment of the catalog's clock.
#[derive(Clone, Copy, Debug, Eq, Ord, PartialEq, PartialOrd, Structural)]
pub struct CatalogTick {
    pub value: u64,
}

impl Default for CatalogTick {
    fn default() -> (tick: Self)
        ensures
            tick.value == 0,
    {
        Self { value: 0 }
    }
}

impl CatalogTick {
    /// The moment `delta` ticks later, or the last one.
    pub open spec fn later(self, delta: u64) -> CatalogTick {
        CatalogTick { value: capped_sum(self.value, delta) }
    }

    pub fn new(value: u64) -> (tick: Self)
        ensures
            tick.value == value,
    {
        Self { value }
    }

    pub fn get(self) -> (value: u64)
        ensures
            value == self.value,
    {
        self.value
    }

    pub fn saturating_add(self, delta: u64) -> (tick: Self)
        ensures
            tick == self.later(delta),
    {
        Self { value: self.value.saturating_add(delta) }
    }
}

/// How much one collector step may do.
#[derive(Clone, Copy, Debug, Eq, PartialEq, Structural)]
pub struct CollectBudget {
    pub max_candidates: usize,
    pub max_reclaims: usize,
    pub max_empty_slots: usize,
}

impl CollectBudget {
    pub fn new(max_candidates: usize, max_reclaims: usize, max_empty_slots: usize) -> (budget: Self)
        ensures
            budget == (CollectBudget { max_candidates, max_reclaims, max_empty_slots }),
    {
        Self { max_candidates, max_reclaims, max_empty_slots }
    }

    pub fn max_candidates(self) -> (candidates: usize)
        ensures
            candidates == self.max_candidates,
    {
        self.max_candidates
    }

    pub fn max_reclaims(self) -> (reclaims: usize)
        ensures
            reclaims == self.max_reclaims,
    {
        self.max_reclaims
    }

    pub fn max_empty_slots(self) -> (slots: usize)
        ensures
            slots == self.max_empty_slots,
    {
        self.max_empty_slots
    }
}

impl Default for CollectBudget {
    fn default() -> (budget: Self)
        ensures
            budget == (CollectBudget { max_candidates: 64, max_reclaims: 64, max_empty_slots: 16 }),
    {
        Self::new(64, 64, 16)
    }
}

/// What one collector step did.
#[derive(Clone, Copy, Debug, Eq, PartialEq, Structural)]
pub struct CollectReport {
    pub busy: bool,
    pub scanned_candidates: usize,
    pub scanned_soft_pins: usize,
    pub expired_soft_pins: usize,
    pub expired_pending: usize,
    pub invalidated_pending: usize,
    pub invalidated_published: usize,
    pub pruned_objects: usize,
    pub pruned_replicas: usize,
    pub pruned_replica_bytes: u64,
    pub retired_objects: usize,
    pub retired_bytes: u64,
    pub reclaimed_objects: usize,
    pub reclaimed_bytes: u64,
    pub reclaimed_memory_bytes: u64,
    pub removed_empty_slots: usize,
    pub scoped_retired_objects: usize,
    pub scoped_retired_bytes: u64,
}

impl CollectReport {
    /// The report of a step that did nothing.
    pub open spec fn nothing() -> CollectReport {
        CollectReport {
            busy: false,
            scanned_candidates: 0,
            scanned_soft_pins: 0,
            expired_soft_pins: 0,
            expired_pending: 0,
            invalidated_pending: 0,
            invalidated_published: 0,
            pruned_objects: 0,
            pruned_replicas: 0,
            pruned_replica_bytes: 0,
            retired_objects: 0,
            retired_bytes: 0,
            reclaimed_objects: 0,
            reclaimed_bytes: 0,
            reclaimed_memory_bytes: 0,
            removed_empty_slots: 0,
            scoped_retired_objects: 0,
            scoped_retired_bytes: 0,
        }
    }
}

impl Default for CollectReport {
    fn default() -> (report: Self)
        ensures
            report == CollectReport::nothing(),
    {
        Self {
            busy: false,
            scanned_candidates: 0,
            scanned_soft_pins: 0,
            expired_soft_pins: 0,
            expired_pending: 0,
            invalidated_pending: 0,
            invalidated_published: 0,
            pruned_objects: 0,
            pruned_replicas: 0,
            pruned_replica_bytes: 0,
            retired_objects: 0,
            retired_bytes: 0,
            reclaimed_objects: 0,
            reclaimed_bytes: 0,
            reclaimed_memory_bytes: 0,
            removed_empty_slots: 0,
            scoped_retired_objects: 0,
            scoped_retired_bytes: 0,
        }
    }
}

/// Which objects a reclaim target is about.
#[derive(Clone, Copy, Debug, Eq, PartialEq, Structural)]
pub enum ReclaimFilter {
    Any,
    Class(ReplicaClass),
    Scope { namespace: NamespaceId, replica_class: ReplicaClass },
}

/// How many bytes of which objects are to be retired.
#[derive(Clone, Copy, Debug, Eq, PartialEq, Structural)]
pub struct ReclaimTarget {
    pub filter: ReclaimFilter,
    pub bytes: u64,
}

} // verus!
