//! The object catalog.

pub mod access;
pub mod collector;
pub mod index;
pub mod laws;
pub mod promises;
pub mod queue;
pub mod read;
pub mod rounds;
pub mod state;
pub mod sweep;
pub mod tally;
pub mod tenancy;
pub mod upkeep;
pub mod whole;
pub mod write;

use self::index::CatalogIndex;
use self::queue::WorkQueue;
use self::state::{
    CatalogView, CommittedVersion, LifecycleCounters, LivenessSweep, ObjectSlot, VersionView,
};
use self::upkeep::lemma_empty;
use super::config::{
    ObjectCatalogConfig, ObjectPinRequest, ResolvedObjectPinRequest, DEFAULT_EXPECTED_OBJECTS,
    MAX_EXPECTED_OBJECTS,
};
use super::content::ObjectContent;
use super::diagnostics::ObjectCatalogStats;
use super::error::ObjectCatalogConfigError;
use super::identity::{ObjectIdentity, ObjectLookup};
use super::replica::ReplicaSet;
use super::tenant::quota::{ChargeStep, QuotaLedger, TenantQuotaCharge};
use super::tenant::types::TenantResourceClass;
use super::write::WriteOwner;
use crate::segment::identity::{joined, lemma_joined};
use std::collections::HashMap;
use std::sync::Arc;
use vstd::prelude::*;

verus! {

/// One version of one object.
pub struct ObjectVersion {
    pub owner: WriteOwner,
    pub identity: Arc<ObjectIdentity>,
    pub content: ObjectContent,
    pub replicas: ReplicaSet,
    pub reserved_bytes: u64,
    pub accounting: Option<TenantQuotaCharge>,
    pub committed: Option<CommittedVersion>,
    pub pins: u64,
}

impl View for ObjectVersion {
    type V = VersionView;

    open spec fn view(&self) -> VersionView {
        VersionView {
            owner: self.owner,
            identity: self.identity,
            content: self.content,
            replicas: self.replicas@,
            reserved_bytes: self.reserved_bytes,
            accounting: self.accounting,
            committed: self.committed,
            pins: self.pins,
        }
    }
}

impl ObjectVersion {
    /// The bytes that the version's tenant is charged.
    fn charged_bytes(&self) -> (bytes: Option<u64>)
        ensures
            bytes == self@.charged(),
    {
        if self.accounting.is_none() || self.replicas.len() == 0 {
            return None;
        }
        self.content.logical_bytes.checked_mul(self.replicas.len() as u64)
    }

    /// Takes a step of the version's charge.
    fn step_charge(&mut self, ledger: &mut QuotaLedger, step: ChargeStep)
        ensures
            final(self)@ == old(self)@.charge_stepped(step),
            final(ledger)@ == old(self)@.accounts_stepped(old(ledger)@, step),
    {
        if let Some(bytes) = self.charged_bytes() {
            if let Some(charge) = self.accounting {
                let next = ledger.take_step(charge, TenantResourceClass::Memory, step, bytes);
                self.accounting = Some(next);
            }
        }
    }

    /// The bytes of the version in memory segments.
    fn memory_bytes(&self) -> (bytes: u64)
        ensures
            bytes == self@.memory_bytes(),
    {
        if self.replicas.len() > 0 {
            self.reserved_bytes
        } else {
            0
        }
    }

    /// Adds a holder.
    fn pin(&mut self)
        ensures
            final(self)@ == old(self)@.pinned(),
    {
        if self.pins < u64::MAX {
            self.pins = self.pins + 1;
        }
    }

    /// Takes a holder away.
    fn unpin(&mut self)
        ensures
            final(self)@ == old(self)@.unpinned(),
    {
        self.pins = self.pins.saturating_sub(1);
    }
}

impl LifecycleCounters {
    fn on_claim(&mut self)
        ensures
            *final(self) == old(self).claimed(),
    {
        self.claims = self.claims.wrapping_add(1);
    }

    fn on_claim_dropped(&mut self)
        ensures
            *final(self) == old(self).unclaimed(),
    {
        self.claims = self.claims.wrapping_sub(1);
    }

    fn on_stage(&mut self, reserved_bytes: u64)
        ensures
            *final(self) == old(self).staged(reserved_bytes),
    {
        self.claims = self.claims.wrapping_sub(1);
        self.pending_objects = self.pending_objects.wrapping_add(1);
        self.pending_bytes = self.pending_bytes.wrapping_add(reserved_bytes);
    }

    fn on_commit(&mut self, committed_bytes: u64, replaced: Option<&ObjectVersion>)
        ensures
            *final(self) == old(self).published(
                committed_bytes,
                match replaced {
                    Some(version) => Some(version@),
                    None => None,
                },
            ),
    {
        self.pending_objects = self.pending_objects.wrapping_sub(1);
        self.pending_bytes = self.pending_bytes.saturating_sub(committed_bytes);
        self.live_bytes = self.live_bytes.wrapping_add(committed_bytes);
        match replaced {
            Some(old) => {
                self.live_bytes = self.live_bytes.saturating_sub(old.reserved_bytes);
                self.retired_bytes = self.retired_bytes.wrapping_add(old.reserved_bytes);
                self.retired_memory_bytes = self.retired_memory_bytes.wrapping_add(
                    old.memory_bytes(),
                );
            },
            None => {
                self.published_objects = self.published_objects.wrapping_add(1);
            },
        }
    }

    fn on_abort_pending(&mut self, version: &ObjectVersion)
        ensures
            *final(self) == old(self).aborted(version@),
    {
        self.pending_objects = self.pending_objects.wrapping_sub(1);
        self.pending_bytes = self.pending_bytes.saturating_sub(version.reserved_bytes);
        self.retired_bytes = self.retired_bytes.wrapping_add(version.reserved_bytes);
        self.retired_memory_bytes = self.retired_memory_bytes.wrapping_add(version.memory_bytes());
    }

    fn on_retire_published(&mut self, version: &ObjectVersion)
        ensures
            *final(self) == old(self).unpublished(version@),
    {
        self.published_objects = self.published_objects.wrapping_sub(1);
        self.live_bytes = self.live_bytes.saturating_sub(version.reserved_bytes);
        self.retired_bytes = self.retired_bytes.wrapping_add(version.reserved_bytes);
        self.retired_memory_bytes = self.retired_memory_bytes.wrapping_add(version.memory_bytes());
    }

    fn on_prune_published(&mut self, reserved_bytes: u64)
        ensures
            *final(self) == old(self).pruned(reserved_bytes),
    {
        self.live_bytes = self.live_bytes.saturating_sub(reserved_bytes);
    }

    fn on_reclaim(&mut self, reserved_bytes: u64, memory: bool)
        ensures
            *final(self) == old(self).reclaimed(reserved_bytes, memory),
    {
        self.retired_bytes = self.retired_bytes.saturating_sub(reserved_bytes);
        if memory {
            self.retired_memory_bytes = self.retired_memory_bytes.saturating_sub(reserved_bytes);
        }
    }
}

/// Stores objects by name, from the claim of a write to the release of retired
/// storage.
pub struct ObjectCatalog {
    catalog_id: u64,
    config: ObjectCatalogConfig,
    index: CatalogIndex,
    slots: HashMap<u64, ObjectSlot>,
    versions: HashMap<u128, ObjectVersion>,
    next_slot: u64,
    counters: LifecycleCounters,
    fitted: Ghost<bool>,
    young: WorkQueue,
    protected: WorkQueue,
    soft_pins: WorkQueue,
    pending: WorkQueue,
    retired: WorkQueue,
    empty_slots: WorkQueue,
    reclaim_debt: u64,
    liveness: LivenessSweep,
    ledger: QuotaLedger,
}

/// The versions of a catalog by slot and transaction.
pub open spec fn versions_by_slot(versions: Map<u128, ObjectVersion>) -> Map<
    (u64, u64),
    VersionView,
> {
    Map::new(
        |place: (u64, u64)| versions.contains_key(joined(place.0, place.1)),
        |place: (u64, u64)| versions[joined(place.0, place.1)]@,
    )
}

impl View for ObjectCatalog {
    type V = CatalogView;

    closed spec fn view(&self) -> CatalogView {
        CatalogView {
            catalog_id: self.catalog_id,
            config: self.config,
            index: self.index@,
            slots: self.slots@,
            versions: versions_by_slot(self.versions@),
            next_slot: self.next_slot,
            counters: self.counters,
            fitted: self.fitted@,
            young: self.young@,
            protected: self.protected@,
            soft_pins: self.soft_pins@,
            pending: self.pending@,
            retired: self.retired@,
            empty_slots: self.empty_slots@,
            reclaim_debt: self.reclaim_debt,
            liveness: self.liveness,
            accounts: self.ledger@,
        }
    }
}

/// Different places have different numbers.
proof fn lemma_places()
    ensures
        forall|a: u64, b: u64, c: u64, d: u64|
            #![trigger joined(a, b), joined(c, d)]
            joined(a, b) == joined(c, d) ==> a == c && b == d,
{
    assert forall|a: u64, b: u64, c: u64, d: u64|
        #![trigger joined(a, b), joined(c, d)]
        joined(a, b) == joined(c, d) implies a == c && b == d by {
        lemma_joined(a, b);
        lemma_joined(c, d);
    }
}

/// The number of a place.
fn place_number(slot: u64, id: u64) -> (number: u128)
    ensures
        number == joined(slot, id),
{
    proof {
        lemma_joined(slot, id);
    }
    slot as u128 * crate::segment::identity::HALF_RANGE + id as u128
}

impl ObjectCatalog {
    /// What holds of every catalog.
    pub closed spec fn wf(&self) -> bool {
        self@.wf()
    }

    /// A catalog's own invariant, for callers that hold the catalog.
    pub proof fn lemma_wf(&self)
        requires
            self.wf(),
        ensures
            self@.wf(),
    {
    }

    fn make(catalog_id: u64, config: ObjectCatalogConfig) -> (catalog: Self)
        requires
            config.fault() is None,
            config.expected_objects <= MAX_EXPECTED_OBJECTS,
        ensures
            catalog.wf(),
            catalog@ == CatalogView::empty(catalog_id, config),
    {
        let catalog = Self {
            catalog_id,
            config,
            index: CatalogIndex::new(config.expected_objects),
            slots: HashMap::new(),
            versions: HashMap::new(),
            next_slot: 0,
            counters: LifecycleCounters {
                slots: 0,
                claims: 0,
                pending_objects: 0,
                published_objects: 0,
                pending_bytes: 0,
                live_bytes: 0,
                retired_bytes: 0,
                retired_memory_bytes: 0,
            },
            fitted: Ghost(true),
            young: WorkQueue::new(),
            protected: WorkQueue::new(),
            soft_pins: WorkQueue::new(),
            pending: WorkQueue::new(),
            retired: WorkQueue::new(),
            empty_slots: WorkQueue::new(),
            reclaim_debt: 0,
            liveness: LivenessSweep { requested: false, young_remaining: 0, protected_remaining: 0 },
            ledger: QuotaLedger::new(),
        };
        proof {
            lemma_empty(catalog_id, config);
            assert(catalog@.versions =~= Map::empty());
        }
        catalog
    }

    /// An empty catalog with the default configuration. `catalog_id` tells the
    /// catalog's tokens from those of other catalogs.
    pub fn new(catalog_id: u64) -> (catalog: Self)
        ensures
            catalog.wf(),
            catalog@ == CatalogView::empty(
                catalog_id,
                ObjectCatalogConfig::usual(DEFAULT_EXPECTED_OBJECTS),
            ),
    {
        Self::make(catalog_id, ObjectCatalogConfig::default())
    }

    /// An empty catalog.
    pub fn with_config(catalog_id: u64, config: ObjectCatalogConfig) -> (made: Result<
        Self,
        ObjectCatalogConfigError,
    >)
        requires
            config.expected_objects <= MAX_EXPECTED_OBJECTS,
        ensures
            match config.fault() {
                Some(fault) => made == Err::<Self, ObjectCatalogConfigError>(fault),
                None => made matches Ok(catalog) && catalog.wf() && catalog@ == CatalogView::empty(
                    catalog_id,
                    config,
                ),
            },
    {
        if let Err(error) = config.validate() {
            return Err(error);
        }
        Ok(Self::make(catalog_id, config))
    }

    /// Figures of the catalog.
    pub fn stats(&self) -> (stats: ObjectCatalogStats)
        ensures
            stats == self@.stats(),
    {
        ObjectCatalogStats {
            slots: self.counters.slots,
            claims: self.counters.claims,
            pending_objects: self.counters.pending_objects,
            published_objects: self.counters.published_objects,
            pending_bytes: self.counters.pending_bytes,
            live_bytes: self.counters.live_bytes,
            retired_bytes: self.counters.retired_bytes,
            retired_memory_bytes: self.counters.retired_memory_bytes,
            reclaim_debt: self.reclaim_debt,
            pending_candidates: self.pending.len(),
            soft_pin_candidates: self.soft_pins.len(),
            liveness_scan_remaining: self.liveness.young_remaining.saturating_add(
                self.liveness.protected_remaining,
            ),
            young_candidates: self.young.len(),
            protected_candidates: self.protected.len(),
            retired_candidates: self.retired.len(),
            empty_slot_candidates: self.empty_slots.len(),
        }
    }

    /// The number that tells the catalog's tokens from those of other catalogs.
    pub fn catalog_id(&self) -> (id: u64)
        ensures
            id == self@.catalog_id,
    {
        self.catalog_id
    }

    pub fn config(&self) -> (config: ObjectCatalogConfig)
        ensures
            config == self@.config,
    {
        self.config
    }

    /// What a pin request comes to in this catalog.
    pub fn resolve_pin_request(&self, request: ObjectPinRequest) -> (resolved: Result<
        ResolvedObjectPinRequest,
        ObjectCatalogConfigError,
    >)
        ensures
            resolved == self@.config.resolved(request),
    {
        self.config.resolve_pin_request(request)
    }

    /// The slot of an object.
    fn lookup_slot(&self, lookup: ObjectLookup<'_>) -> (slot: Option<u64>)
        ensures
            slot == self@.find(lookup@),
    {
        self.index.find(lookup)
    }

    /// A slot.
    fn slot(&self, slot: u64) -> (found: Option<&ObjectSlot>)
        ensures
            match found {
                Some(value) => self@.slots.contains_key(slot) && *value == self@.slots[slot],
                None => !self@.slots.contains_key(slot),
            },
    {
        broadcast use vstd::std_specs::hash::group_hash_axioms;

        self.slots.get(&slot)
    }

    /// Takes a slot that exists out, to be put back changed.
    fn take_slot(&mut self, slot: u64) -> (taken: ObjectSlot)
        requires
            old(self)@.slots.contains_key(slot),
        ensures
            taken == old(self)@.slots[slot],
            final(self)@ == (CatalogView { slots: old(self)@.slots.remove(slot), ..old(self)@ }),
    {
        broadcast use vstd::std_specs::hash::group_hash_axioms;

        let ghost before = self@;
        match self.slots.remove(&slot) {
            Some(taken) => taken,
            None => {
                assert(false);
                vstd::pervasive::unreached()
            },
        }
    }

    fn put_slot(&mut self, slot: u64, value: ObjectSlot)
        ensures
            final(self)@ == old(self)@.with_slot(slot, value),
    {
        broadcast use vstd::std_specs::hash::group_hash_axioms;

        self.slots.insert(slot, value);
    }

    /// A version.
    fn version(&self, slot: u64, id: u64) -> (found: Option<&ObjectVersion>)
        ensures
            match found {
                Some(value) => self@.versions.contains_key((slot, id)) && value@
                    == self@.versions[(slot, id)],
                None => !self@.versions.contains_key((slot, id)),
            },
    {
        broadcast use vstd::std_specs::hash::group_hash_axioms;

        self.versions.get(&place_number(slot, id))
    }

    /// Takes a version that exists out.
    fn take_version(&mut self, slot: u64, id: u64) -> (taken: ObjectVersion)
        requires
            old(self)@.versions.contains_key((slot, id)),
        ensures
            taken@ == old(self)@.versions[(slot, id)],
            final(self)@ == (CatalogView {
                versions: old(self)@.versions.remove((slot, id)),
                ..old(self)@
            }),
    {
        broadcast use vstd::std_specs::hash::group_hash_axioms;

        let ghost before = self@;
        let taken = self.versions.remove(&place_number(slot, id));
        proof {
            lemma_places();
            assert(self@.versions =~= before.versions.remove((slot, id)));
        }
        match taken {
            Some(version) => version,
            None => {
                assert(false);
                vstd::pervasive::unreached()
            },
        }
    }

    fn put_version(&mut self, slot: u64, id: u64, version: ObjectVersion)
        ensures
            final(self)@ == old(self)@.with_version(slot, id, version@),
    {
        broadcast use vstd::std_specs::hash::group_hash_axioms;

        let ghost before = self@;
        self.versions.insert(place_number(slot, id), version);
        proof {
            lemma_places();
            assert(self@.versions =~= before.versions.insert((slot, id), version@));
        }
    }
}

} // verus!
