//! What a step of the collector does to a catalog.

use super::super::reclamation::{
    CatalogTick, CollectBudget, CollectReport, ReclaimFilter, ReclaimTarget,
};
use super::super::replica::{
    all_live, has_live, live_part, replica_bytes, reservations_of, stale_part,
};
use super::super::tenant::quota::{charge_shrunk, less, ChargeStep};
use super::super::tenant::types::TenantResourceClass;
use super::super::write::WriteOwner;
use super::queue::WorkItem;
use super::state::{wrapped_difference, CatalogView, LifecycleCounters, LivenessSweep, VersionView};
use crate::client::lifecycle::capped_sum;
use crate::segment::pool::PoolView;
use crate::segment::reservation::Reservation;
use crate::segment::spec::ReplicaClass;
use vstd::prelude::*;

verus! {

/// How far a collector step has come.
pub struct Sweep {
    pub catalog: CatalogView,
    pub report: CollectReport,
    /// The ranges that the step has freed so far.
    pub freed: Seq<Reservation>,
    /// How many candidates the current pass has looked at.
    pub scanned: nat,
}

/// The next value of a counter that stops at its largest value.
pub open spec fn bumped(count: usize) -> usize {
    if count == usize::MAX {
        usize::MAX
    } else {
        (count + 1) as usize
    }
}

/// A sum that stops at the largest value.
pub open spec fn capped_count(count: usize, more: int) -> usize {
    if count + more > usize::MAX {
        usize::MAX
    } else {
        (count + more) as usize
    }
}

/// The smaller of two numbers.
pub open spec fn lesser(left: nat, right: nat) -> nat {
    if left < right {
        left
    } else {
        right
    }
}

impl CatalogView {
    /// One of the two eviction queues.
    pub open spec fn queue(self, protected: bool) -> Seq<WorkItem> {
        if protected {
            self.protected
        } else {
            self.young
        }
    }

    pub open spec fn with_queue(self, protected: bool, items: Seq<WorkItem>) -> CatalogView {
        if protected {
            CatalogView { protected: items, ..self }
        } else {
            CatalogView { young: items, ..self }
        }
    }

    /// Whether a staged version is still the one that its slot waits for.
    pub open spec fn is_pending(self, slot: u64, id: u64) -> bool {
        self.slots.contains_key(slot) && self.slots[slot].staged() == Some(id)
    }

    /// How many candidates of a queue the liveness sweep has still to look at.
    pub open spec fn sweep_left(self, protected: bool) -> usize {
        if protected {
            self.liveness.protected_remaining
        } else {
            self.liveness.young_remaining
        }
    }

    pub open spec fn with_sweep_left(self, protected: bool, left: usize) -> CatalogView {
        if protected {
            CatalogView {
                liveness: LivenessSweep { protected_remaining: left, ..self.liveness },
                ..self
            }
        } else {
            CatalogView {
                liveness: LivenessSweep { young_remaining: left, ..self.liveness },
                ..self
            }
        }
    }

    /// The catalog at the start of a collector step: a sweep that was asked for
    /// covers at least all current candidates.
    pub open spec fn sweep_begun(self) -> CatalogView {
        if self.liveness.requested {
            CatalogView {
                liveness: LivenessSweep {
                    requested: false,
                    young_remaining: if self.liveness.young_remaining < self.young.len() {
                        self.young.len() as usize
                    } else {
                        self.liveness.young_remaining
                    },
                    protected_remaining: if self.liveness.protected_remaining
                        < self.protected.len() {
                        self.protected.len() as usize
                    } else {
                        self.liveness.protected_remaining
                    },
                },
                ..self
            }
        } else {
            self
        }
    }

    /// The catalog after bytes were asked to be reclaimed.
    pub open spec fn debt_raised(self, bytes: u64) -> CatalogView {
        CatalogView {
            reclaim_debt: if self.reclaim_debt < bytes {
                bytes
            } else {
                self.reclaim_debt
            },
            ..self
        }
    }

    /// Whether as much is retired as was asked to be reclaimed.
    pub open spec fn debt_covered(self) -> bool {
        self.reclaim_debt <= self.counters.retired_bytes
    }

    /// The catalog without the dead replicas of a version that has live ones.
    pub open spec fn pruned(self, pool: PoolView, slot: u64, id: u64) -> CatalogView {
        let version = self.versions[(slot, id)];
        let stale = stale_part(version.replicas, pool);
        let bytes = replica_bytes(stale);
        CatalogView {
            counters: self.counters.pruned(bytes),
            reclaim_debt: less(self.reclaim_debt, bytes),
            accounts: match version.accounting {
                Some(charge) => charge_shrunk(
                    self.accounts,
                    charge,
                    TenantResourceClass::Memory,
                    (version.content.logical_bytes * stale.len()) as u64,
                ),
                None => self.accounts,
            },
            ..self.with_version(
                slot,
                id,
                VersionView {
                    replicas: live_part(version.replicas, pool),
                    reserved_bytes: less(version.reserved_bytes, bytes),
                    ..version
                },
            )
        }
    }
}

/// Whether a reclaim target is about a version.
pub open spec fn filter_matches(filter: ReclaimFilter, version: VersionView) -> bool {
    match filter {
        ReclaimFilter::Any => true,
        ReclaimFilter::Class(class) => version.replicas.len() > 0 && class == ReplicaClass::Memory,
        ReclaimFilter::Scope { namespace, replica_class } => version.accounting is Some
            && version.identity.namespace == namespace && version.replicas.len() > 0
            && replica_class == ReplicaClass::Memory,
    }
}

/// The first open target, from a position on, that is about a version.
pub open spec fn matching_target(debts: Seq<ReclaimTarget>, version: VersionView, from: int) -> Option<int>
    decreases debts.len() - from,
{
    if from < 0 || from >= debts.len() {
        None
    } else if debts[from].bytes > 0 && filter_matches(debts[from].filter, version) {
        Some(from)
    } else {
        matching_target(debts, version, from + 1)
    }
}

/// Whether no target is open.
pub open spec fn all_met(debts: Seq<ReclaimTarget>) -> bool {
    forall|i: int| 0 <= i < debts.len() ==> (#[trigger] debts[i]).bytes == 0
}

impl Sweep {
    /// One soft pin is looked at.
    pub open spec fn soft_pin_step(self, now: CatalogTick) -> Sweep {
        let item = self.catalog.soft_pins[0];
        let next = Sweep {
            catalog: CatalogView {
                soft_pins: self.catalog.soft_pins.drop_first(),
                ..self.catalog
            },
            report: CollectReport {
                scanned_soft_pins: bumped(self.report.scanned_soft_pins),
                ..self.report
            },
            ..self
        };
        let version = next.catalog.versions[(item.0, item.1)];
        if !next.catalog.points_to(item.0, item.1) {
            next
        } else if item.2 > now.value {
            Sweep {
                catalog: CatalogView {
                    soft_pins: next.catalog.soft_pins.push(item),
                    ..next.catalog
                },
                ..next
            }
        } else if version.access().soft_pin_until == item.2 {
            Sweep {
                catalog: next.catalog.with_version(
                    item.0,
                    item.1,
                    version.with_access(
                        super::access::AccessControl { soft_pin_until: 0, ..version.access() },
                    ),
                ),
                report: CollectReport {
                    expired_soft_pins: bumped(next.report.expired_soft_pins),
                    ..next.report
                },
                ..next
            }
        } else {
            next
        }
    }

    pub open spec fn soft_pin_pass(self, n: nat, now: CatalogTick) -> Sweep
        decreases n,
    {
        if n == 0 || self.catalog.soft_pins.len() == 0 {
            self
        } else {
            self.soft_pin_step(now).soft_pin_pass((n - 1) as nat, now)
        }
    }

    /// One candidate is looked at for dead replicas.
    pub open spec fn liveness_step(self, protected: bool, pool: PoolView, now: CatalogTick) -> Sweep {
        let item = self.catalog.queue(protected)[0];
        let catalog = self.catalog.with_queue(
            protected,
            self.catalog.queue(protected).drop_first(),
        ).with_sweep_left(protected, (self.catalog.sweep_left(protected) - 1) as usize);
        let next = Sweep {
            catalog,
            report: CollectReport {
                scanned_candidates: bumped(self.report.scanned_candidates),
                ..self.report
            },
            scanned: self.scanned + 1,
            ..self
        };
        let kept = Sweep {
            catalog: catalog.with_queue(protected, catalog.queue(protected).push(item)),
            ..next
        };
        let version = catalog.versions[(item.0, item.1)];
        if !catalog.points_to(item.0, item.1) {
            next
        } else if all_live(version.replicas, pool) {
            kept
        } else if !has_live(version.replicas, pool) {
            if catalog.slots[item.0].active is Some {
                kept
            } else {
                Sweep {
                    catalog: catalog.taken_down(item.0, now),
                    report: CollectReport {
                        invalidated_published: bumped(next.report.invalidated_published),
                        retired_objects: bumped(next.report.retired_objects),
                        retired_bytes: capped_sum(
                            next.report.retired_bytes,
                            version.reserved_bytes,
                        ),
                        ..next.report
                    },
                    ..next
                }
            }
        } else {
            let stale = stale_part(version.replicas, pool);
            let pruned = catalog.pruned(pool, item.0, item.1);
            Sweep {
                catalog: pruned.with_queue(protected, pruned.queue(protected).push(item)),
                report: CollectReport {
                    pruned_objects: bumped(next.report.pruned_objects),
                    pruned_replicas: capped_count(next.report.pruned_replicas, stale.len() as int),
                    pruned_replica_bytes: capped_sum(
                        next.report.pruned_replica_bytes,
                        replica_bytes(stale),
                    ),
                    ..next.report
                },
                freed: next.freed + reservations_of(stale),
                ..next
            }
        }
    }

    pub open spec fn liveness_round(
        self,
        protected: bool,
        n: nat,
        pool: PoolView,
        now: CatalogTick,
    ) -> Sweep
        decreases n,
    {
        if n == 0 {
            self
        } else if self.catalog.queue(protected).len() == 0 {
            Sweep { catalog: self.catalog.with_sweep_left(protected, 0), ..self }
        } else {
            self.liveness_step(protected, pool, now).liveness_round(
                protected,
                (n - 1) as nat,
                pool,
                now,
            )
        }
    }

    /// Candidates are looked at for dead replicas, the young ones first.
    pub open spec fn liveness_pass(self, budget: nat, pool: PoolView, now: CatalogTick) -> Sweep {
        let start = Sweep { scanned: 0, ..self };
        let young = start.liveness_round(
            false,
            lesser(start.catalog.sweep_left(false) as nat, budget),
            pool,
            now,
        );
        young.liveness_round(
            true,
            lesser(young.catalog.sweep_left(true) as nat, (budget - young.scanned) as nat),
            pool,
            now,
        )
    }

    /// One staged write is looked at.
    pub open spec fn pending_step(self, pool: PoolView, now: CatalogTick) -> Sweep {
        let item = self.catalog.pending[0];
        let catalog = CatalogView { pending: self.catalog.pending.drop_first(), ..self.catalog };
        let next = Sweep { catalog, ..self };
        let version = catalog.versions[(item.0, item.1)];
        let live = all_live(version.replicas, pool);
        if !catalog.versions.contains_key((item.0, item.1)) || version.committed is Some {
            next
        } else if live && item.2 > now.value {
            Sweep {
                catalog: CatalogView { pending: catalog.pending.push(item), ..catalog },
                ..next
            }
        } else if !catalog.is_pending(item.0, item.1) {
            next
        } else {
            Sweep {
                catalog: catalog.abandoned(pool, item.0, now),
                report: if live {
                    CollectReport {
                        expired_pending: bumped(next.report.expired_pending),
                        ..next.report
                    }
                } else {
                    CollectReport {
                        invalidated_pending: bumped(next.report.invalidated_pending),
                        ..next.report
                    }
                },
                ..next
            }
        }
    }

    pub open spec fn pending_pass(self, n: nat, pool: PoolView, now: CatalogTick) -> Sweep
        decreases n,
    {
        if n == 0 || self.catalog.pending.len() == 0 {
            self
        } else {
            self.pending_step(pool, now).pending_pass((n - 1) as nat, pool, now)
        }
    }

    /// A candidate that was taken from a queue is evicted, or put back where it
    /// is protected. Hard-pinned, leased and recently read versions stay, and so
    /// do those that a write is about to replace.
    pub open spec fn evict(self, item: WorkItem, protected: bool, now: CatalogTick) -> Sweep {
        let next = Sweep {
            report: CollectReport {
                scanned_candidates: bumped(self.report.scanned_candidates),
                ..self.report
            },
            ..self
        };
        let catalog = self.catalog;
        let version = catalog.versions[(item.0, item.1)];
        let shielded = Sweep {
            catalog: CatalogView { protected: catalog.protected.push(item), ..catalog },
            ..next
        };
        if !catalog.points_to(item.0, item.1) {
            next
        } else if version.access().pinned(now, catalog.config.allow_evict_soft_pinned_objects) {
            Sweep {
                catalog: catalog.with_queue(protected, catalog.queue(protected).push(item)),
                ..next
            }
        } else if catalog.slots[item.0].active is Some {
            shielded
        } else if version.access().recent {
            Sweep {
                catalog: shielded.catalog.with_version(
                    item.0,
                    item.1,
                    version.with_access(
                        super::access::AccessControl { recent: false, ..version.access() },
                    ),
                ),
                ..shielded
            }
        } else if version.access().leased(now) {
            shielded
        } else {
            Sweep {
                catalog: catalog.taken_down(item.0, now),
                report: CollectReport {
                    retired_objects: bumped(next.report.retired_objects),
                    retired_bytes: capped_sum(next.report.retired_bytes, version.reserved_bytes),
                    ..next.report
                },
                ..next
            }
        }
    }

    /// The bytes that evicting a candidate retires.
    pub open spec fn evicted_bytes(self, item: WorkItem, now: CatalogTick) -> u64 {
        let catalog = self.catalog;
        let version = catalog.versions[(item.0, item.1)];
        if catalog.points_to(item.0, item.1) && !version.access().pinned(
            now,
            catalog.config.allow_evict_soft_pinned_objects,
        ) && catalog.slots[item.0].active is None && !version.access().recent
            && !version.access().leased(now) {
            match version.charged() {
                Some(bytes) => bytes,
                None => version.reserved_bytes,
            }
        } else {
            0
        }
    }

    /// The sweep with the first candidate of a queue taken out.
    pub open spec fn candidate_taken(self, protected: bool) -> Sweep {
        Sweep {
            catalog: self.catalog.with_queue(
                protected,
                self.catalog.queue(protected).drop_first(),
            ),
            scanned: self.scanned + 1,
            ..self
        }
    }

    /// Candidates are evicted until the debt is covered.
    pub open spec fn evict_round(self, protected: bool, n: nat, now: CatalogTick) -> Sweep
        decreases n,
    {
        if n == 0 || self.catalog.debt_covered() || self.catalog.queue(protected).len() == 0 {
            self
        } else {
            self.candidate_taken(protected).evict(
                self.catalog.queue(protected)[0],
                protected,
                now,
            ).evict_round(protected, (n - 1) as nat, now)
        }
    }

    /// Candidates are evicted, the young ones first.
    pub open spec fn evict_pass(self, budget: nat, now: CatalogTick) -> Sweep {
        let start = Sweep { scanned: 0, ..self };
        let young = start.evict_round(false, lesser(start.catalog.young.len(), budget), now);
        young.evict_round(
            true,
            lesser(start.catalog.protected.len(), (budget - young.scanned) as nat),
            now,
        )
    }
}

/// How far an eviction pass for given targets has come.
pub struct ScopedSweep {
    pub sweep: Sweep,
    pub debts: Seq<ReclaimTarget>,
}

impl ScopedSweep {
    /// One candidate is evicted for the first open target that is about it, or
    /// put back.
    pub open spec fn step(self, protected: bool, now: CatalogTick) -> ScopedSweep {
        let item = self.sweep.catalog.queue(protected)[0];
        let next = self.sweep.candidate_taken(protected);
        let passed = Sweep {
            report: CollectReport {
                scanned_candidates: bumped(next.report.scanned_candidates),
                ..next.report
            },
            ..next
        };
        let version = next.catalog.versions[(item.0, item.1)];
        if !next.catalog.points_to(item.0, item.1) {
            ScopedSweep { sweep: passed, ..self }
        } else {
            match matching_target(self.debts, version, 0) {
                None => ScopedSweep {
                    sweep: Sweep {
                        catalog: next.catalog.with_queue(
                            protected,
                            next.catalog.queue(protected).push(item),
                        ),
                        ..passed
                    },
                    ..self
                },
                Some(i) => {
                    let after = next.evict(item, protected, now);
                    let bytes = next.evicted_bytes(item, now);
                    if bytes > 0 {
                        ScopedSweep {
                            sweep: Sweep {
                                report: CollectReport {
                                    scoped_retired_objects: bumped(
                                        after.report.scoped_retired_objects,
                                    ),
                                    scoped_retired_bytes: capped_sum(
                                        after.report.scoped_retired_bytes,
                                        bytes,
                                    ),
                                    ..after.report
                                },
                                ..after
                            },
                            debts: self.debts.update(
                                i,
                                ReclaimTarget {
                                    bytes: less(self.debts[i].bytes, bytes),
                                    ..self.debts[i]
                                },
                            ),
                        }
                    } else {
                        ScopedSweep { sweep: after, ..self }
                    }
                },
            }
        }
    }

    pub open spec fn round(self, protected: bool, n: nat, now: CatalogTick) -> ScopedSweep
        decreases n,
    {
        if n == 0 || all_met(self.debts) || self.sweep.catalog.queue(protected).len() == 0 {
            self
        } else {
            self.step(protected, now).round(protected, (n - 1) as nat, now)
        }
    }
}

/// The targets that are open.
pub open spec fn open_targets(targets: Seq<ReclaimTarget>) -> Seq<ReclaimTarget> {
    targets.filter(|target: ReclaimTarget| target.bytes > 0)
}

impl Sweep {
    /// Candidates are evicted for given targets, the young ones first.
    pub open spec fn scoped_pass(
        self,
        budget: nat,
        targets: Seq<ReclaimTarget>,
        now: CatalogTick,
    ) -> Sweep {
        let start = Sweep { scanned: 0, ..self };
        let debts = open_targets(targets);
        if budget == 0 || debts.len() == 0 {
            start
        } else {
            let young = ScopedSweep { sweep: start, debts }.round(
                false,
                lesser(start.catalog.young.len(), budget),
                now,
            );
            young.round(
                true,
                lesser(start.catalog.protected.len(), (budget - young.sweep.scanned) as nat),
                now,
            ).sweep
        }
    }

    /// One retired version is released, if its lease is over and nobody holds
    /// on to it.
    pub open spec fn reclaim_step(self, now: CatalogTick) -> Sweep {
        let item = self.catalog.retired[0];
        let version = self.catalog.versions[(item.0, item.1)];
        if item.3 > now.value || version.pins > 0 {
            Sweep {
                catalog: CatalogView {
                    retired: self.catalog.retired.drop_first().push(item),
                    ..self.catalog
                },
                ..self
            }
        } else {
            let memory = version.replicas.len() > 0;
            Sweep {
                catalog: CatalogView {
                    retired: self.catalog.retired.drop_first(),
                    versions: self.catalog.versions.remove((item.0, item.1)),
                    counters: self.catalog.counters.reclaimed(item.2, memory),
                    reclaim_debt: less(self.catalog.reclaim_debt, item.2),
                    accounts: version.accounts_stepped(self.catalog.accounts, ChargeStep::Release),
                    ..self.catalog
                },
                report: CollectReport {
                    reclaimed_objects: bumped(self.report.reclaimed_objects),
                    reclaimed_bytes: capped_sum(self.report.reclaimed_bytes, item.2),
                    reclaimed_memory_bytes: if memory {
                        capped_sum(self.report.reclaimed_memory_bytes, item.2)
                    } else {
                        self.report.reclaimed_memory_bytes
                    },
                    ..self.report
                },
                freed: self.freed + reservations_of(version.replicas),
                ..self
            }
        }
    }

    pub open spec fn reclaim_pass(self, n: nat, now: CatalogTick) -> Sweep
        decreases n,
    {
        if n == 0 || self.catalog.retired.len() == 0 {
            self
        } else {
            self.reclaim_step(now).reclaim_pass((n - 1) as nat, now)
        }
    }

    /// One slot that was empty is taken out, if it still is and its grace is
    /// over.
    pub open spec fn empty_step(self, now: CatalogTick) -> Sweep {
        let item = self.catalog.empty_slots[0];
        let catalog = CatalogView {
            empty_slots: self.catalog.empty_slots.drop_first(),
            ..self.catalog
        };
        if item.1 > now.value {
            Sweep {
                catalog: CatalogView { empty_slots: catalog.empty_slots.push(item), ..catalog },
                ..self
            }
        } else if !catalog.slots.contains_key(item.0) || catalog.slots[item.0].committed is Some
            || catalog.slots[item.0].active is Some {
            Sweep { catalog, ..self }
        } else {
            Sweep {
                catalog: CatalogView {
                    index: catalog.index.remove(catalog.slots[item.0].identity@),
                    slots: catalog.slots.remove(item.0),
                    counters: LifecycleCounters {
                        slots: wrapped_difference(catalog.counters.slots, 1),
                        ..catalog.counters
                    },
                    ..catalog
                },
                report: CollectReport {
                    removed_empty_slots: bumped(self.report.removed_empty_slots),
                    ..self.report
                },
                ..self
            }
        }
    }

    pub open spec fn empty_pass(self, n: nat, now: CatalogTick) -> Sweep
        decreases n,
    {
        if n == 0 || self.catalog.empty_slots.len() == 0 {
            self
        } else {
            self.empty_step(now).empty_pass((n - 1) as nat, now)
        }
    }

    /// Eviction, once no liveness sweep is under way: first for the targets,
    /// then for the general debt, within what is left of the budget.
    pub open spec fn eviction_phase(
        self,
        budget: nat,
        targets: Seq<ReclaimTarget>,
        now: CatalogTick,
    ) -> Sweep {
        if self.catalog.sweep_left(false) != 0 || self.catalog.sweep_left(true) != 0 {
            self
        } else {
            let left = if budget < self.scanned {
                0
            } else {
                (budget - self.scanned) as nat
            };
            let scoped = self.scoped_pass(left, targets, now);
            let rest = if left < scoped.scanned {
                0
            } else {
                (left - scoped.scanned) as nat
            };
            scoped.evict_pass(rest, now)
        }
    }
}

impl CatalogView {
    /// A whole collector step.
    #[verifier::opaque]
    pub open spec fn collected(
        self,
        pool: PoolView,
        now: CatalogTick,
        budget: CollectBudget,
        targets: Seq<ReclaimTarget>,
    ) -> Sweep {
        let start = Sweep {
            catalog: self.sweep_begun(),
            report: CollectReport::nothing(),
            freed: Seq::empty(),
            scanned: 0,
        };
        let candidates = budget.max_candidates as nat;
        let unpinned = start.soft_pin_pass(
            lesser(start.catalog.soft_pins.len(), candidates),
            now,
        );
        let checked = unpinned.liveness_pass(candidates, pool, now);
        let expired = checked.pending_pass(
            lesser(checked.catalog.pending.len(), candidates),
            pool,
            now,
        );
        let evicted = expired.eviction_phase(candidates, targets, now);
        let reclaimed = evicted.reclaim_pass(
            lesser(evicted.catalog.retired.len(), budget.max_reclaims as nat),
            now,
        );
        reclaimed.empty_pass(
            lesser(reclaimed.catalog.empty_slots.len(), budget.max_empty_slots as nat),
            now,
        )
    }
}

/// How far revoking the writes of owners has come.
pub struct Revocation {
    pub catalog: CatalogView,
    pub revoked: nat,
}

impl Revocation {
    /// One staged write is given up, if it belongs to one of the owners.
    pub open spec fn step(self, pool: PoolView, owners: Seq<WriteOwner>, now: CatalogTick) -> Revocation {
        let item = self.catalog.pending[0];
        let catalog = CatalogView { pending: self.catalog.pending.drop_first(), ..self.catalog };
        if !catalog.is_pending(item.0, item.1) {
            Revocation { catalog, ..self }
        } else if !owners.contains(catalog.slots[item.0].active.unwrap().owner) {
            Revocation {
                catalog: CatalogView { pending: catalog.pending.push(item), ..catalog },
                ..self
            }
        } else {
            Revocation {
                catalog: catalog.abandoned(pool, item.0, now),
                revoked: self.revoked + 1,
            }
        }
    }

    pub open spec fn pass(
        self,
        n: nat,
        pool: PoolView,
        owners: Seq<WriteOwner>,
        now: CatalogTick,
    ) -> Revocation
        decreases n,
    {
        if n == 0 || self.catalog.pending.len() == 0 {
            self
        } else {
            self.step(pool, owners, now).pass((n - 1) as nat, pool, owners, now)
        }
    }
}

/// The owners whose writes belong to a session.
pub open spec fn session_owners(owners: Seq<WriteOwner>) -> Seq<WriteOwner> {
    owners.filter(|owner: WriteOwner| owner.session_generation != 0)
}

impl CatalogView {
    /// The catalog after the staged writes of owners were given up.
    pub open spec fn revoked(self, pool: PoolView, owners: Seq<WriteOwner>, now: CatalogTick) -> Revocation {
        let start = Revocation { catalog: self, revoked: 0 };
        let sessions = session_owners(owners);
        if sessions.len() == 0 {
            start
        } else {
            start.pass(self.pending.len(), pool, sessions, now)
        }
    }
}

} // verus!
