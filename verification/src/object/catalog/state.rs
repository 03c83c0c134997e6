//! What a catalog holds, and how single steps change it.

use super::super::config::{ObjectCatalogConfig, ResolvedObjectPinRequest};
use super::super::content::ObjectContent;
use super::super::diagnostics::ObjectCatalogStats;
use super::super::error::BeginError;
use super::super::identity::ObjectIdentity;
use super::super::reclamation::CatalogTick;
use super::super::replica::{has_live, replica_bytes, ReplicaLease};
use super::super::tenant::quota::{
    no_accounts, charge_stepped, less, wrapped_sum, Accounts, ChargePhase, ChargeStep,
    TenantQuotaCharge,
};
use super::super::tenant::types::TenantResourceClass;
use super::super::write::{ObjectCommit, WriteMode, WriteOwner};
use super::access::AccessControl;
use super::queue::WorkItem;
use super::tally::counts;
use crate::segment::pool::PoolView;
use std::sync::Arc;
use vstd::prelude::*;

verus! {

/// How far a write transaction has come.
#[derive(Clone, Copy, Debug, Eq, PartialEq, Structural)]
pub enum TransactionPhase {
    Claimed,
    Staged,
}

/// The write transaction that a slot is in.
#[derive(Clone, Copy, Debug, Eq, PartialEq, Structural)]
pub struct ActiveTransaction {
    pub id: u64,
    pub owner: WriteOwner,
    /// The transaction of the version that is replaced.
    pub base: Option<u64>,
    pub pins: ResolvedObjectPinRequest,
    pub phase: TransactionPhase,
}

/// The stable place of one object: at most one committed version and at most
/// one write transaction. Versions are told apart by the transaction that
/// staged them.
pub struct ObjectSlot {
    pub identity: Arc<ObjectIdentity>,
    pub committed: Option<u64>,
    pub next_transaction_id: u64,
    pub next_version_id: u64,
    pub active: Option<ActiveTransaction>,
}

/// What a version gets when it is committed.
#[derive(Clone, Copy, Debug, Eq, PartialEq, Structural)]
pub struct CommittedVersion {
    pub id: u64,
    pub commit: ObjectCommit,
    pub access: AccessControl,
}

/// The contents of one version of one object.
pub struct VersionView {
    pub owner: WriteOwner,
    pub identity: Arc<ObjectIdentity>,
    pub content: ObjectContent,
    pub replicas: Seq<ReplicaLease>,
    pub reserved_bytes: u64,
    pub accounting: Option<TenantQuotaCharge>,
    pub committed: Option<CommittedVersion>,
    /// How many handles and transaction tokens hold on to the version.
    pub pins: u64,
}

/// Counts of what a catalog holds.
#[derive(Clone, Copy, Debug, Eq, PartialEq, Structural)]
pub struct LifecycleCounters {
    pub slots: u64,
    pub claims: u64,
    pub pending_objects: u64,
    pub published_objects: u64,
    pub pending_bytes: u64,
    pub live_bytes: u64,
    pub retired_bytes: u64,
    pub retired_memory_bytes: u64,
}

/// Progress of a bounded segment-liveness sweep across both eviction queues.
#[derive(Clone, Copy, Debug, Eq, PartialEq, Structural)]
pub struct LivenessSweep {
    pub requested: bool,
    pub young_remaining: usize,
    pub protected_remaining: usize,
}

/// The contents of an object catalog.
pub struct CatalogView {
    pub catalog_id: u64,
    pub config: ObjectCatalogConfig,
    /// The slot of each object.
    pub index: Map<(u64, Seq<char>), u64>,
    pub slots: Map<u64, ObjectSlot>,
    /// The versions by slot and transaction.
    pub versions: Map<(u64, u64), VersionView>,
    pub next_slot: u64,
    pub counters: LifecycleCounters,
    /// Whether the bytes of all versions have fitted the counters so far.
    pub fitted: bool,
    /// Committed versions that were not read since they were last looked at:
    /// slot and transaction.
    pub young: Seq<WorkItem>,
    /// Committed versions that were in use: slot and transaction.
    pub protected: Seq<WorkItem>,
    /// Soft pins: slot, transaction and deadline.
    pub soft_pins: Seq<WorkItem>,
    /// Staged writes: slot, transaction and deadline.
    pub pending: Seq<WorkItem>,
    /// Retired versions: slot, transaction, bytes and the earliest release, which
    /// is not before the end of the lease.
    pub retired: Seq<WorkItem>,
    /// Slots that were empty: slot and end of grace.
    pub empty_slots: Seq<WorkItem>,
    pub reclaim_debt: u64,
    pub liveness: LivenessSweep,
    pub accounts: Accounts,
}

/// A difference that wraps around.
pub open spec fn wrapped_difference(value: u64, amount: u64) -> u64 {
    if value < amount {
        (value - amount + 0x1_0000_0000_0000_0000) as u64
    } else {
        (value - amount) as u64
    }
}

impl ObjectSlot {
    /// The transaction of the staged version.
    pub open spec fn staged(self) -> Option<u64> {
        match self.active {
            Some(active) => if active.phase == TransactionPhase::Staged {
                Some(active.id)
            } else {
                None
            },
            None => None,
        }
    }

    /// Whether a write is claimed and not staged.
    pub open spec fn is_claimed(self) -> bool {
        self.active is Some && self.staged() is None
    }
}

impl VersionView {
    /// The bytes that the version's tenant is charged, where it has one.
    pub open spec fn charged(self) -> Option<u64> {
        if self.accounting is Some && self.replicas.len() > 0 && self.content.logical_bytes
            * self.replicas.len() <= u64::MAX {
            Some((self.content.logical_bytes * self.replicas.len()) as u64)
        } else {
            None
        }
    }

    /// The version after a step of its charge.
    pub open spec fn charge_stepped(self, step: ChargeStep) -> VersionView {
        if self.charged() is Some {
            VersionView { accounting: Some(self.accounting.unwrap().after(step)), ..self }
        } else {
            self
        }
    }

    /// The accounts after a step of the version's charge.
    pub open spec fn accounts_stepped(self, accounts: Accounts, step: ChargeStep) -> Accounts {
        match self.charged() {
            Some(bytes) => charge_stepped(
                accounts,
                self.accounting.unwrap(),
                TenantResourceClass::Memory,
                step,
                bytes,
            ),
            None => accounts,
        }
    }

    /// The version with one holder more.
    pub open spec fn pinned(self) -> VersionView {
        VersionView {
            pins: if self.pins == u64::MAX {
                u64::MAX
            } else {
                (self.pins + 1) as u64
            },
            ..self
        }
    }

    /// The version with one holder less.
    pub open spec fn unpinned(self) -> VersionView {
        VersionView { pins: less(self.pins, 1), ..self }
    }

    pub open spec fn access(self) -> AccessControl {
        self.committed.unwrap().access
    }

    /// When a committed version that is taken down may be released: not before
    /// its lease is over.
    pub open spec fn free_after(self, now: CatalogTick) -> u64 {
        if self.access().lease_until > now.value {
            self.access().lease_until
        } else {
            now.value
        }
    }

    /// The version under other protection.
    pub open spec fn with_access(self, access: AccessControl) -> VersionView {
        VersionView {
            committed: Some(CommittedVersion { access, ..self.committed.unwrap() }),
            ..self
        }
    }

    /// The bytes of the version in memory segments.
    pub open spec fn memory_bytes(self) -> u64 {
        if self.replicas.len() > 0 {
            self.reserved_bytes
        } else {
            0
        }
    }
}

impl LifecycleCounters {
    pub open spec fn zero() -> LifecycleCounters {
        LifecycleCounters {
            slots: 0,
            claims: 0,
            pending_objects: 0,
            published_objects: 0,
            pending_bytes: 0,
            live_bytes: 0,
            retired_bytes: 0,
            retired_memory_bytes: 0,
        }
    }

    /// The bytes of all versions.
    pub open spec fn held_bytes(self) -> int {
        self.pending_bytes + self.live_bytes + self.retired_bytes
    }

    pub open spec fn claimed(self) -> LifecycleCounters {
        LifecycleCounters { claims: wrapped_sum(self.claims, 1), ..self }
    }

    pub open spec fn unclaimed(self) -> LifecycleCounters {
        LifecycleCounters { claims: wrapped_difference(self.claims, 1), ..self }
    }

    pub open spec fn staged(self, bytes: u64) -> LifecycleCounters {
        LifecycleCounters {
            pending_objects: wrapped_sum(self.pending_objects, 1),
            pending_bytes: wrapped_sum(self.pending_bytes, bytes),
            ..self.unclaimed()
        }
    }

    /// A staged version of `bytes` was committed, in place of `replaced`.
    pub open spec fn published(self, bytes: u64, replaced: Option<VersionView>) -> LifecycleCounters {
        let next = LifecycleCounters {
            pending_objects: wrapped_difference(self.pending_objects, 1),
            pending_bytes: less(self.pending_bytes, bytes),
            live_bytes: wrapped_sum(self.live_bytes, bytes),
            ..self
        };
        match replaced {
            Some(old) => LifecycleCounters {
                live_bytes: less(next.live_bytes, old.reserved_bytes),
                retired_bytes: wrapped_sum(next.retired_bytes, old.reserved_bytes),
                retired_memory_bytes: wrapped_sum(next.retired_memory_bytes, old.memory_bytes()),
                ..next
            },
            None => LifecycleCounters {
                published_objects: wrapped_sum(next.published_objects, 1),
                ..next
            },
        }
    }

    pub open spec fn aborted(self, version: VersionView) -> LifecycleCounters {
        LifecycleCounters {
            pending_objects: wrapped_difference(self.pending_objects, 1),
            pending_bytes: less(self.pending_bytes, version.reserved_bytes),
            retired_bytes: wrapped_sum(self.retired_bytes, version.reserved_bytes),
            retired_memory_bytes: wrapped_sum(self.retired_memory_bytes, version.memory_bytes()),
            ..self
        }
    }

    pub open spec fn unpublished(self, version: VersionView) -> LifecycleCounters {
        LifecycleCounters {
            published_objects: wrapped_difference(self.published_objects, 1),
            live_bytes: less(self.live_bytes, version.reserved_bytes),
            retired_bytes: wrapped_sum(self.retired_bytes, version.reserved_bytes),
            retired_memory_bytes: wrapped_sum(self.retired_memory_bytes, version.memory_bytes()),
            ..self
        }
    }

    pub open spec fn pruned(self, bytes: u64) -> LifecycleCounters {
        LifecycleCounters { live_bytes: less(self.live_bytes, bytes), ..self }
    }

    pub open spec fn reclaimed(self, bytes: u64, memory: bool) -> LifecycleCounters {
        LifecycleCounters {
            retired_bytes: less(self.retired_bytes, bytes),
            retired_memory_bytes: if memory {
                less(self.retired_memory_bytes, bytes)
            } else {
                self.retired_memory_bytes
            },
            ..self
        }
    }
}

impl CatalogView {
    /// A catalog that holds nothing.
    pub open spec fn empty(catalog_id: u64, config: ObjectCatalogConfig) -> CatalogView {
        CatalogView {
            catalog_id,
            config,
            index: Map::empty(),
            slots: Map::empty(),
            versions: Map::empty(),
            next_slot: 0,
            counters: LifecycleCounters::zero(),
            fitted: true,
            young: Seq::empty(),
            protected: Seq::empty(),
            soft_pins: Seq::empty(),
            pending: Seq::empty(),
            retired: Seq::empty(),
            empty_slots: Seq::empty(),
            reclaim_debt: 0,
            liveness: LivenessSweep { requested: false, young_remaining: 0, protected_remaining: 0 },
            accounts: no_accounts(),
        }
    }

    /// The figures of the catalog.
    pub open spec fn stats(self) -> ObjectCatalogStats {
        ObjectCatalogStats {
                slots: self.counters.slots,
                claims: self.counters.claims,
                pending_objects: self.counters.pending_objects,
                published_objects: self.counters.published_objects,
                pending_bytes: self.counters.pending_bytes,
                live_bytes: self.counters.live_bytes,
                retired_bytes: self.counters.retired_bytes,
                retired_memory_bytes: self.counters.retired_memory_bytes,
                reclaim_debt: self.reclaim_debt,
                pending_candidates: self.pending.len() as usize,
                soft_pin_candidates: self.soft_pins.len() as usize,
                liveness_scan_remaining: if self.liveness.young_remaining
                    + self.liveness.protected_remaining > usize::MAX {
                    usize::MAX
                } else {
                    (self.liveness.young_remaining + self.liveness.protected_remaining) as usize
                },
                young_candidates: self.young.len() as usize,
                protected_candidates: self.protected.len() as usize,
                retired_candidates: self.retired.len() as usize,
                empty_slot_candidates: self.empty_slots.len() as usize,
            }
    }

    /// Whether a version is the committed or the staged one of its slot.
    pub open spec fn attached(self, slot: u64, id: u64) -> bool {
        self.slots.contains_key(slot) && (self.slots[slot].committed == Some(id)
            || self.slots[slot].staged() == Some(id))
    }

    /// Whether a version waits for its storage to be released.
    pub open spec fn is_retired(self, slot: u64, id: u64) -> bool {
        exists|i: int|
            0 <= i < self.retired.len() && (#[trigger] self.retired[i]).0 == slot
                && self.retired[i].1 == id
    }

    /// What holds of a slot.
    pub open spec fn slot_wf(self, slot: u64) -> bool {
        let s = self.slots[slot];
        &&& slot < self.next_slot
        &&& self.index.contains_key(s.identity@)
        &&& self.index[s.identity@] == slot
        &&& s.next_version_id <= s.next_transaction_id
        &&& s.committed matches Some(id) ==> {
            &&& id < s.next_transaction_id
            &&& self.versions.contains_key((slot, id))
            &&& self.versions[(slot, id)].committed is Some
            &&& self.versions[(slot, id)].committed.unwrap().id < s.next_version_id
        }
        &&& s.active matches Some(active) ==> {
            &&& active.id < s.next_transaction_id
            &&& active.base == s.committed
            &&& s.committed != Some(active.id)
            &&& s.next_version_id < s.next_transaction_id
            &&& active.phase == TransactionPhase::Staged ==> self.versions.contains_key(
                (slot, active.id),
            ) && self.versions[(slot, active.id)].committed is None
            &&& active.phase == TransactionPhase::Claimed ==> !self.versions.contains_key(
                (slot, active.id),
            )
        }
    }

    /// Where the charge of a version stands.
    pub open spec fn charge_wf(self, slot: u64, id: u64) -> bool {
        let version = self.versions[(slot, id)];
        version.accounting matches Some(charge) ==> {
            &&& version.charged() is Some
            &&& !self.attached(slot, id) ==> charge.phase == ChargePhase::Retiring || charge.phase
                == ChargePhase::Released
            &&& self.attached(slot, id) && version.committed is Some ==> charge.phase
                == ChargePhase::Committed
            &&& self.attached(slot, id) && version.committed is None ==> charge.phase
                == ChargePhase::Reserved
        }
    }

    /// What holds of a version: it is either in use in its slot or waits to be
    /// released, so that no storage is forgotten.
    pub open spec fn version_wf(self, slot: u64, id: u64) -> bool {
        &&& slot < self.next_slot
        &&& self.slots.contains_key(slot) ==> id < self.slots[slot].next_transaction_id
            && self.versions[(slot, id)].identity == self.slots[slot].identity
        &&& self.attached(slot, id) || self.is_retired(slot, id)
        &&& self.charge_wf(slot, id)
        &&& self.fitted ==> self.versions[(slot, id)].reserved_bytes == replica_bytes(
            self.versions[(slot, id)].replicas,
        )
    }

    /// What holds of one version that waits to be released: it is not in use, it
    /// waits with the bytes that it reserves, and it waits at least until its
    /// lease is over.
    pub open spec fn waits_well(self, item: WorkItem) -> bool {
        let version = self.versions[(item.0, item.1)];
        &&& self.versions.contains_key((item.0, item.1))
        &&& !self.attached(item.0, item.1)
        &&& item.2 == version.reserved_bytes
        &&& version.committed matches Some(committed) ==> committed.access.lease_until <= item.3
    }

    /// What holds of the versions that wait to be released: each of them waits as
    /// it should, and none waits twice.
    pub open spec fn retired_wf(self) -> bool {
        &&& forall|i: int|
            0 <= i < self.retired.len() ==> self.waits_well(#[trigger] self.retired[i])
        &&& forall|i: int, j: int|
            0 <= i < j < self.retired.len() ==> ((#[trigger] self.retired[i]).0, self.retired[i].1)
                != ((#[trigger] self.retired[j]).0, self.retired[j].1)
    }

    /// What holds of every reachable catalog.
    pub open spec fn wf(self) -> bool {
        &&& self.config.fault() is None
        &&& forall|name: (u64, Seq<char>)| #[trigger]
            self.index.contains_key(name) ==> self.slots.contains_key(self.index[name])
                && self.slots[self.index[name]].identity@ == name
        &&& forall|slot: u64| #[trigger] self.slots.contains_key(slot) ==> self.slot_wf(slot)
        &&& forall|slot: u64, id: u64| #[trigger]
            self.versions.contains_key((slot, id)) ==> self.version_wf(slot, id)
        &&& self.retired_wf()
        &&& counts(self.counters, self.slots, self.versions, self.next_slot, self.fitted)
    }

    pub open spec fn with_slot(self, slot: u64, value: ObjectSlot) -> CatalogView {
        CatalogView { slots: self.slots.insert(slot, value), ..self }
    }

    pub open spec fn with_version(self, slot: u64, id: u64, version: VersionView) -> CatalogView {
        CatalogView { versions: self.versions.insert((slot, id), version), ..self }
    }

    /// The slot of an object, if it has one.
    pub open spec fn find(self, name: (u64, Seq<char>)) -> Option<u64> {
        if self.index.contains_key(name) {
            Some(self.index[name])
        } else {
            None
        }
    }

    /// The slot's committed version.
    pub open spec fn current(self, slot: u64) -> VersionView {
        self.versions[(slot, self.slots[slot].committed.unwrap())]
    }

    /// Whether a slot exists and its committed version is a given one.
    pub open spec fn points_to(self, slot: u64, id: u64) -> bool {
        self.slots.contains_key(slot) && self.slots[slot].committed == Some(id)
    }

    /// The catalog with a note that the slot may be empty.
    pub open spec fn empty_noted(self, slot: u64, now: CatalogTick) -> CatalogView {
        CatalogView {
            empty_slots: self.empty_slots.push(
                (slot, now.later(self.config.empty_slot_grace_ticks).value, 0, 0),
            ),
            ..self
        }
    }

    /// The catalog with a sweep for invalidated replicas asked for.
    pub open spec fn sweep_requested(self) -> CatalogView {
        CatalogView { liveness: LivenessSweep { requested: true, ..self.liveness }, ..self }
    }

    /// What follows the end of a write transaction that leaves the slot as it
    /// was: an empty slot is noted, and a version whose replicas are all gone is
    /// left to the next sweep.
    pub open spec fn after_rollback(self, pool: PoolView, slot: u64, now: CatalogTick) -> CatalogView {
        match self.slots[slot].committed {
            None => self.empty_noted(slot, now),
            Some(id) => if has_live(self.versions[(slot, id)].replicas, pool) {
                self
            } else {
                self.sweep_requested()
            },
        }
    }

    /// What beginning a write comes to: the slot and the transaction.
    pub open spec fn begin_result(self, name: (u64, Seq<char>), mode: WriteMode) -> Result<
        (u64, u64),
        BeginError,
    > {
        if name.1.len() == 0 {
            Err(BeginError::EmptyKey)
        } else if self.counters.retired_bytes >= self.config.max_retired_bytes {
            Err(BeginError::ReclamationBacklog)
        } else {
            match self.find(name) {
                Some(slot) => if self.slots[slot].active is Some {
                    Err(BeginError::WriteInProgress)
                } else if mode == WriteMode::Insert && self.slots[slot].committed is Some {
                    Err(BeginError::AlreadyExists)
                } else if self.slots[slot].next_transaction_id == u64::MAX {
                    Err(BeginError::IdentifiersExhausted)
                } else {
                    Ok((slot, self.slots[slot].next_transaction_id))
                },
                None => if self.next_slot == u64::MAX {
                    Err(BeginError::IdentifiersExhausted)
                } else {
                    Ok((self.next_slot, 1))
                },
            }
        }
    }

    /// The catalog after a write was begun in a slot that exists.
    pub open spec fn begun_in(
        self,
        slot: u64,
        owner: WriteOwner,
        pins: ResolvedObjectPinRequest,
    ) -> CatalogView {
        let s = self.slots[slot];
        CatalogView {
            counters: self.counters.claimed(),
            ..self.with_slot(
                slot,
                ObjectSlot {
                    next_transaction_id: (s.next_transaction_id + 1) as u64,
                    active: Some(
                        ActiveTransaction {
                            id: s.next_transaction_id,
                            owner,
                            base: s.committed,
                            pins,
                            phase: TransactionPhase::Claimed,
                        },
                    ),
                    ..s
                },
            )
        }
    }

    /// The catalog after a write was begun for an object without a slot.
    pub open spec fn begun_new(
        self,
        identity: Arc<ObjectIdentity>,
        owner: WriteOwner,
        pins: ResolvedObjectPinRequest,
    ) -> CatalogView {
        let slot = self.next_slot;
        let next = LifecycleCounters {
            slots: wrapped_sum(self.counters.slots, 1),
            ..self.counters.claimed()
        };
        CatalogView {
            index: self.index.insert(identity@, slot),
            next_slot: (slot + 1) as u64,
            counters: next,
            ..self.with_slot(
                slot,
                ObjectSlot {
                    identity,
                    committed: None,
                    next_transaction_id: 2,
                    next_version_id: 1,
                    active: Some(
                        ActiveTransaction {
                            id: 1,
                            owner,
                            base: None,
                            pins,
                            phase: TransactionPhase::Claimed,
                        },
                    ),
                },
            )
        }
    }

    /// Whether a claim still holds its slot.
    pub open spec fn claim_holds(self, slot: u64, id: u64) -> bool {
        self.slots.contains_key(slot) && (self.slots[slot].active matches Some(active) && active.id
            == id && active.phase == TransactionPhase::Claimed)
    }

    /// The catalog after a claim was dropped.
    pub open spec fn claim_dropped(
        self,
        pool: PoolView,
        slot: u64,
        id: u64,
        started_at: CatalogTick,
    ) -> CatalogView {
        if self.claim_holds(slot, id) {
            CatalogView {
                counters: self.counters.unclaimed(),
                ..self.with_slot(slot, ObjectSlot { active: None, ..self.slots[slot] })
            }.after_rollback(pool, slot, started_at)
        } else {
            self
        }
    }

    /// The catalog after replicas were staged for a claim that holds.
    pub open spec fn staged(
        self,
        slot: u64,
        version: VersionView,
        started_at: CatalogTick,
    ) -> CatalogView {
        let active = self.slots[slot].active.unwrap();
        CatalogView {
            counters: self.counters.staged(version.reserved_bytes),
            fitted: self.fitted && self.counters.held_bytes() + version.reserved_bytes < u64::MAX,
            pending: self.pending.push(
                (
                    slot,
                    active.id,
                    started_at.later(self.config.pending_timeout_ticks).value,
                    0,
                ),
            ),
            ..self.with_slot(
                slot,
                ObjectSlot {
                    active: Some(ActiveTransaction { phase: TransactionPhase::Staged, ..active }),
                    ..self.slots[slot]
                },
            ).with_version(slot, active.id, version)
        }
    }

    /// The catalog after the staged version of a slot was committed. The version
    /// gains a holder: the handle that the writer gets.
    pub open spec fn published(self, slot: u64, commit: ObjectCommit, now: CatalogTick) -> CatalogView {
        let s = self.slots[slot];
        let active = s.active.unwrap();
        let replaced = match active.base {
            Some(base) => Some(self.versions[(slot, base)]),
            None => None,
        };
        let base_access = match replaced {
            Some(old) => Some(old.access()),
            None => None,
        };
        let access = AccessControl::committed(base_access, active.pins, now);
        let version = VersionView {
            committed: Some(CommittedVersion { id: s.next_version_id, commit, access }),
            ..self.versions[(slot, active.id)].pinned()
        };
        let accounts = version.accounts_stepped(self.accounts, ChargeStep::Commit);
        let next = CatalogView {
            counters: self.counters.published(version.reserved_bytes, replaced),
            young: self.young.push((slot, active.id, 0, 0)),
            soft_pins: if access.soft_pin_until != 0 {
                self.soft_pins.push((slot, active.id, access.soft_pin_until, 0))
            } else {
                self.soft_pins
            },
            accounts,
            ..self.with_slot(
                slot,
                ObjectSlot {
                    committed: Some(active.id),
                    next_version_id: (s.next_version_id + 1) as u64,
                    active: None,
                    ..s
                },
            ).with_version(slot, active.id, version.charge_stepped(ChargeStep::Commit))
        };
        match active.base {
            Some(base) => CatalogView {
                retired: next.retired.push(
                    (
                        slot,
                        base,
                        self.versions[(slot, base)].reserved_bytes,
                        self.versions[(slot, base)].access().lease_until,
                    ),
                ),
                accounts: self.versions[(slot, base)].accounts_stepped(
                    next.accounts,
                    ChargeStep::Retire,
                ),
                ..next.with_version(
                    slot,
                    base,
                    self.versions[(slot, base)].charge_stepped(ChargeStep::Retire),
                )
            },
            None => next,
        }
    }

    /// The catalog after the staged version of a slot was given up.
    pub open spec fn abandoned(self, pool: PoolView, slot: u64, now: CatalogTick) -> CatalogView {
        let active = self.slots[slot].active.unwrap();
        let version = self.versions[(slot, active.id)];
        CatalogView {
            counters: self.counters.aborted(version),
            retired: self.retired.push((slot, active.id, version.reserved_bytes, now.value)),
            accounts: version.accounts_stepped(self.accounts, ChargeStep::Abort),
            ..self.with_slot(slot, ObjectSlot { active: None, ..self.slots[slot] }).with_version(
                slot,
                active.id,
                version.charge_stepped(ChargeStep::Abort),
            )
        }.after_rollback(pool, slot, now)
    }

    /// The catalog after the committed version of a slot was taken down.
    pub open spec fn taken_down(self, slot: u64, now: CatalogTick) -> CatalogView {
        let id = self.slots[slot].committed.unwrap();
        let version = self.versions[(slot, id)];
        CatalogView {
            counters: self.counters.unpublished(version),
            retired: self.retired.push(
                (slot, id, version.reserved_bytes, version.free_after(now)),
            ),
            accounts: version.accounts_stepped(self.accounts, ChargeStep::Retire),
            ..self.with_slot(slot, ObjectSlot { committed: None, ..self.slots[slot] }).with_version(
                slot,
                id,
                version.charge_stepped(ChargeStep::Retire),
            )
        }.empty_noted(slot, now)
    }
}

} // verus!
