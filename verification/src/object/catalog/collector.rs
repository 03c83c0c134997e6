//! Incremental transaction expiration, version retirement, and resource
//! reclamation.

use super::super::error::RemoveError;
use super::super::identity::ObjectLookup;
use super::super::reclamation::{
    CatalogTick, CollectBudget, CollectReport, ReclaimFilter, ReclaimTarget,
};
use super::super::replica::{
    all_live, has_live, live_part, stale_part, ReplicaPartition, ReplicaSet,
};
use super::super::tenant::quota::ChargeStep;
use super::super::tenant::types::TenantResourceClass;
use super::super::write::WriteOwner;
use super::access::AccessControl;
use super::queue::WorkItem;
use super::state::{CatalogView, CommittedVersion, TransactionPhase};
use super::sweep::{
    all_met, bumped, filter_matches, lesser, matching_target, open_targets, session_owners,
    Revocation, ScopedSweep, Sweep,
};
use super::upkeep::{
    lemma_pruned, lemma_retired_rotated, lemma_same_core, lemma_slot_gone, lemma_taken_down,
    lemma_version_gone, lemma_version_touched,
};
use super::{ObjectCatalog, ObjectVersion};
use crate::segment::pool::{PoolView, SegmentPool};
use crate::segment::reservation::Reservation;
use crate::segment::spec::ReplicaClass;
use vstd::prelude::*;

verus! {

impl CatalogView {
    /// What removing an object comes to.
    pub open spec fn remove_result(self, name: (u64, Seq<char>), now: CatalogTick, force: bool) -> Result<
        (),
        RemoveError,
    > {
        match self.find(name) {
            None => Err(RemoveError::NotFound),
            Some(slot) => if self.slots[slot].active is Some {
                Err(RemoveError::NotReady)
            } else if self.slots[slot].committed is None {
                Err(RemoveError::NotFound)
            } else if !force && self.current(slot).access().leased(now) {
                Err(
                    RemoveError::Leased {
                        expires_at: CatalogTick { value: self.current(slot).access().lease_until },
                    },
                )
            } else if !force && self.current(slot).access().hard_pinned {
                Err(RemoveError::HardPinned)
            } else {
                Ok(())
            },
        }
    }

    /// The catalog after an object was removed.
    pub open spec fn removed(self, name: (u64, Seq<char>), now: CatalogTick, force: bool) -> CatalogView {
        match self.remove_result(name, now, force) {
            Ok(()) => self.taken_down(self.index[name], now),
            Err(_) => self,
        }
    }
}

fn bump(count: usize) -> (next: usize)
    ensures
        next == bumped(count),
{
    count.saturating_add(1)
}

fn lesser_of(left: usize, right: usize) -> (least: usize)
    ensures
        least == lesser(left as nat, right as nat),
{
    if left < right {
        left
    } else {
        right
    }
}

impl ObjectCatalog {
    /// Removes an object that is neither leased nor hard-pinned.
    pub fn remove(&mut self, lookup: ObjectLookup<'_>, now: CatalogTick) -> (removed: Result<
        (),
        RemoveError,
    >)
        requires
            old(self).wf(),
        ensures
            final(self).wf(),
            removed == old(self)@.remove_result(lookup@, now, false),
            final(self)@ == old(self)@.removed(lookup@, now, false),
    {
        self.remove_with_force(lookup, now, false)
    }

    /// Removes an object, on demand in spite of its lease and its hard pin.
    pub fn remove_with_force(&mut self, lookup: ObjectLookup<'_>, now: CatalogTick, force: bool) -> (removed: Result<
        (),
        RemoveError,
    >)
        requires
            old(self).wf(),
        ensures
            final(self).wf(),
            removed == old(self)@.remove_result(lookup@, now, force),
            final(self)@ == old(self)@.removed(lookup@, now, force),
    {
        let ghost before = self@;
        let number: u64 = match self.lookup_slot(lookup) {
            None => return Err(RemoveError::NotFound),
            Some(number) => number,
        };
        assert(before.index.contains_key(lookup@));
        assert(before.slot_wf(number));
        let (busy, committed) = match self.slot(number) {
            None => return Err(RemoveError::NotFound),
            Some(slot) => (slot.active.is_some(), slot.committed),
        };
        if busy {
            return Err(RemoveError::NotReady);
        }
        let id: u64 = match committed {
            None => return Err(RemoveError::NotFound),
            Some(id) => id,
        };
        if !force {
            let access = self.access_of(number, id);
            if access.is_leased(now) {
                return Err(
                    RemoveError::Leased { expires_at: CatalogTick::new(access.lease_until) },
                );
            }
            if access.hard_pinned {
                return Err(RemoveError::HardPinned);
            }
        }
        self.take_down(number, now);
        Ok(())
    }

    /// The protection of a committed version.
    fn access_of(&self, number: u64, id: u64) -> (access: AccessControl)
        requires
            self@.versions.contains_key((number, id)),
            self@.versions[(number, id)].committed is Some,
        ensures
            access == self@.versions[(number, id)].access(),
    {
        match self.version(number, id) {
            Some(version) => match version.committed {
                Some(committed) => committed.access,
                None => {
                    assert(false);
                    vstd::pervasive::unreached()
                },
            },
            None => {
                assert(false);
                vstd::pervasive::unreached()
            },
        }
    }

    /// Changes the protection of a committed version.
    pub(super) fn set_access(&mut self, number: u64, id: u64, access: AccessControl)
        requires
            old(self).wf(),
            old(self)@.points_to(number, id),
        ensures
            final(self).wf(),
            final(self)@ == old(self)@.with_version(
                number,
                id,
                old(self)@.versions[(number, id)].with_access(access),
            ),
    {
        let ghost before = self@;
        assert(before.slot_wf(number));
        assert(before.attached(number, id));
        let mut version = self.take_version(number, id);
        if let Some(committed) = version.committed {
            version.committed = Some(CommittedVersion { access, ..committed });
        }
        let ghost changed = version@;
        self.put_version(number, id, version);
        proof {
            assert(self@.versions =~= before.versions.insert((number, id), changed));
            assert(before.version_wf(number, id));
            lemma_version_touched(before, number, id, changed);
        }
    }

    /// Takes the committed version of an idle slot down.
    fn take_down(&mut self, number: u64, now: CatalogTick)
        requires
            old(self).wf(),
            old(self)@.slots.contains_key(number),
            old(self)@.slots[number].committed is Some,
            old(self)@.slots[number].active is None,
        ensures
            final(self).wf(),
            final(self)@ == old(self)@.taken_down(number, now),
    {
        let ghost before = self@;
        assert(before.slot_wf(number));
        let mut slot = self.take_slot(number);
        let id: u64 = match slot.committed {
            Some(id) => id,
            None => 0,
        };
        slot.committed = None;
        self.put_slot(number, slot);
        let mut version = self.take_version(number, id);
        let reserved_bytes: u64 = version.reserved_bytes;
        let lease_until: u64 = match version.committed {
            Some(committed) => committed.access.lease_until,
            None => 0,
        };
        let reclaim_after: u64 = if lease_until > now.value {
            lease_until
        } else {
            now.value
        };
        self.counters.on_retire_published(&version);
        version.step_charge(&mut self.ledger, ChargeStep::Retire);
        self.put_version(number, id, version);
        self.retired.push((number, id, reserved_bytes, reclaim_after));
        self.enqueue_empty(number, now);
        proof {
            let goal = before.taken_down(number, now);
            assert(self@.slots =~= goal.slots);
            assert(self@.versions =~= goal.versions);
            lemma_taken_down(before, number, now);
        }
    }

    /// Asks for at least `bytes` to be reclaimed.
    pub fn request_reclaim(&mut self, bytes: u64)
        requires
            old(self).wf(),
        ensures
            final(self).wf(),
            final(self)@ == (CatalogView {
                reclaim_debt: if old(self)@.reclaim_debt < bytes {
                    bytes
                } else {
                    old(self)@.reclaim_debt
                },
                ..old(self)@
            }),
            final(self)@ == old(self)@.debt_raised(bytes),
    {
        let ghost before = self@;
        if self.reclaim_debt < bytes {
            self.reclaim_debt = bytes;
        }
        proof {
            lemma_same_core(before, self@);
        }
    }

    /// Asks for a sweep for replicas whose segments are gone.
    pub fn request_liveness_scan(&mut self)
        requires
            old(self).wf(),
        ensures
            final(self).wf(),
            final(self)@ == old(self)@.sweep_requested(),
    {
        let ghost before = self@;
        self.liveness.requested = true;
        proof {
            lemma_same_core(before, self@);
        }
    }

    /// Looks at one soft pin.
    fn expire_soft_pin(&mut self, now: CatalogTick, report: &mut CollectReport)
        requires
            old(self).wf(),
            old(self)@.soft_pins.len() > 0,
        ensures
            final(self).wf(),
            forall|freed: Seq<Reservation>, scanned: nat|
                (#[trigger] (Sweep {
                    catalog: old(self)@,
                    report: *old(report),
                    freed,
                    scanned,
                }).soft_pin_step(now)) == (Sweep {
                    catalog: final(self)@,
                    report: *final(report),
                    freed,
                    scanned,
                }),
    {
        let ghost before = self@;
        let item = match self.soft_pins.pop() {
            Some(item) => item,
            None => {
                assert(false);
                return ;
            },
        };
        let ghost shorter = self@;
        proof {
            lemma_same_core(before, shorter);
        }
        report.scanned_soft_pins = bump(report.scanned_soft_pins);
        let (number, id, deadline, _) = item;
        if !self.committed_points_to(number, id) {
            return ;
        }
        assert(shorter.slot_wf(number));
        if deadline > now.value {
            self.soft_pins.push(item);
            proof {
                lemma_same_core(shorter, self@);
            }
            return ;
        }
        let access = self.access_of(number, id);
        if access.soft_pin_until == deadline {
            self.set_access(number, id, AccessControl { soft_pin_until: 0, ..access });
            report.expired_soft_pins = bump(report.expired_soft_pins);
        }
    }

    /// Whether a slot exists and its committed version is a given one.
    fn committed_points_to(&self, number: u64, id: u64) -> (points: bool)
        ensures
            points == self@.points_to(number, id),
    {
        match self.slot(number) {
            Some(slot) => slot.committed == Some(id),
            None => false,
        }
    }

    fn expire_soft_pins(&mut self, now: CatalogTick, max_candidates: usize, report: &mut CollectReport)
        requires
            old(self).wf(),
        ensures
            final(self).wf(),
            forall|freed: Seq<Reservation>, scanned: nat|
                (#[trigger] (Sweep {
                    catalog: old(self)@,
                    report: *old(report),
                    freed,
                    scanned,
                }).soft_pin_pass(
                    lesser(old(self)@.soft_pins.len(), max_candidates as nat),
                    now,
                )) == (Sweep { catalog: final(self)@, report: *final(report), freed, scanned }),
    {
        let ghost first = self@;
        let ghost first_report = *report;
        let candidates: usize = lesser_of(self.soft_pins.len(), max_candidates);
        let mut done: usize = 0;
        while done < candidates && self.soft_pins.len() > 0
            invariant
                self.wf(),
                done <= candidates,
                forall|freed: Seq<Reservation>, scanned: nat|
                    (#[trigger] (Sweep {
                        catalog: first,
                        report: first_report,
                        freed,
                        scanned,
                    }).soft_pin_pass(candidates as nat, now)) == (Sweep {
                        catalog: self@,
                        report: *report,
                        freed,
                        scanned,
                    }).soft_pin_pass((candidates - done) as nat, now),
            decreases candidates - done,
        {
            self.expire_soft_pin(now, report);
            done = done + 1;
        }
    }
}

impl ObjectCatalog {
    fn candidates_in(&self, protected: bool) -> (length: usize)
        ensures
            length == self@.queue(protected).len(),
    {
        if protected {
            self.protected.len()
        } else {
            self.young.len()
        }
    }

    /// Takes the first candidate of a queue that has one.
    fn pop_candidate(&mut self, protected: bool) -> (item: WorkItem)
        requires
            old(self).wf(),
            old(self)@.queue(protected).len() > 0,
        ensures
            final(self).wf(),
            item == old(self)@.queue(protected)[0],
            final(self)@ == old(self)@.with_queue(
                protected,
                old(self)@.queue(protected).drop_first(),
            ),
    {
        let ghost before = self@;
        let popped = if protected {
            self.protected.pop()
        } else {
            self.young.pop()
        };
        proof {
            lemma_same_core(before, self@);
        }
        match popped {
            Some(item) => item,
            None => {
                assert(false);
                vstd::pervasive::unreached()
            },
        }
    }

    fn push_candidate(&mut self, protected: bool, item: WorkItem)
        requires
            old(self).wf(),
        ensures
            final(self).wf(),
            final(self)@ == old(self)@.with_queue(
                protected,
                old(self)@.queue(protected).push(item),
            ),
    {
        let ghost before = self@;
        if protected {
            self.protected.push(item);
        } else {
            self.young.push(item);
        }
        proof {
            lemma_same_core(before, self@);
        }
    }

    fn sweep_left(&self, protected: bool) -> (left: usize)
        ensures
            left == self@.sweep_left(protected),
    {
        if protected {
            self.liveness.protected_remaining
        } else {
            self.liveness.young_remaining
        }
    }

    fn set_sweep_left(&mut self, protected: bool, left: usize)
        requires
            old(self).wf(),
        ensures
            final(self).wf(),
            final(self)@ == old(self)@.with_sweep_left(protected, left),
    {
        let ghost before = self@;
        if protected {
            self.liveness.protected_remaining = left;
        } else {
            self.liveness.young_remaining = left;
        }
        proof {
            lemma_same_core(before, self@);
        }
    }

    /// Takes the dead replicas of a committed version out that has live ones
    /// too.
    fn prune(&mut self, pool: &SegmentPool, number: u64, id: u64) -> (stale: ReplicaSet)
        requires
            old(self).wf(),
            pool.wf(),
            old(self)@.points_to(number, id),
            has_live(old(self)@.versions[(number, id)].replicas, pool@),
            !all_live(old(self)@.versions[(number, id)].replicas, pool@),
        ensures
            final(self).wf(),
            stale@ == stale_part(old(self)@.versions[(number, id)].replicas, pool@),
            final(self)@ == old(self)@.pruned(pool@, number, id),
    {
        let ghost before = self@;
        let ghost was = before.versions[(number, id)];
        assert(before.version_wf(number, id));
        let version = self.take_version(number, id);
        let ObjectVersion {
            owner,
            identity,
            content,
            replicas,
            reserved_bytes,
            accounting,
            committed,
            pins,
        } = version;
        let (live, stale) = match replicas.partition_by_liveness(pool) {
            ReplicaPartition::Mixed { live, stale } => (live, stale),
            ReplicaPartition::AllLive(_) => {
                assert(false);
                vstd::pervasive::unreached()
            },
            ReplicaPartition::AllStale(_) => {
                assert(false);
                vstd::pervasive::unreached()
            },
        };
        let stale_bytes: u64 = stale.reserved_bytes();
        proof {
            lemma_live_part_nonempty(was.replicas, pool@);
            let logical = content.logical_bytes as int;
            assert(accounting is Some ==> logical * stale@.len() <= u64::MAX && logical
                * live@.len() <= u64::MAX) by {
                if accounting is Some {
                    assert(logical * was.replicas.len() <= u64::MAX);
                    assert(logical * stale@.len() <= logical * was.replicas.len())
                        by (nonlinear_arith)
                        requires
                            logical >= 0,
                            stale@.len() <= was.replicas.len(),
                    ;
                    assert(logical * live@.len() <= logical * was.replicas.len())
                        by (nonlinear_arith)
                        requires
                            logical >= 0,
                            live@.len() <= was.replicas.len(),
                    ;
                }
            }
        }
        if let Some(charge) = accounting {
            let count: u64 = stale.len() as u64;
            let bytes: u64 = content.logical_bytes * count;
            self.ledger.release_committed_partial(charge, TenantResourceClass::Memory, bytes);
        }
        let changed = ObjectVersion {
            owner,
            identity,
            content,
            replicas: live,
            reserved_bytes: reserved_bytes.saturating_sub(stale_bytes),
            accounting,
            committed,
            pins,
        };
        let ghost changed_view = changed@;
        self.put_version(number, id, changed);
        self.counters.on_prune_published(stale_bytes);
        self.reclaim_debt = self.reclaim_debt.saturating_sub(stale_bytes);
        proof {
            let goal = before.pruned(pool@, number, id);
            assert(self@.versions =~= goal.versions);
            lemma_pruned(before, pool@, number, id);
        }
        stale
    }

    /// Looks at one candidate for dead replicas.
    fn check_liveness(
        &mut self,
        pool: &SegmentPool,
        protected: bool,
        now: CatalogTick,
        report: &mut CollectReport,
        freed: &mut Vec<Reservation>,
    )
        requires
            old(self).wf(),
            pool.wf(),
            old(self)@.queue(protected).len() > 0,
            old(self)@.sweep_left(protected) > 0,
        ensures
            final(self).wf(),
            forall|scanned: nat|
                (#[trigger] (Sweep {
                    catalog: old(self)@,
                    report: *old(report),
                    freed: old(freed)@,
                    scanned,
                }).liveness_step(protected, pool@, now)) == (Sweep {
                    catalog: final(self)@,
                    report: *final(report),
                    freed: final(freed)@,
                    scanned: scanned + 1,
                }),
            final(self)@.sweep_left(protected) == old(self)@.sweep_left(protected) - 1,
    {
        let item = self.pop_candidate(protected);
        let left: usize = self.sweep_left(protected);
        self.set_sweep_left(protected, left - 1);
        report.scanned_candidates = bump(report.scanned_candidates);
        let ghost catalog = self@;
        let (number, id, _, _) = item;
        if !self.committed_points_to(number, id) {
            return ;
        }
        assert(catalog.slot_wf(number));
        let (all, some, bytes) = match self.version(number, id) {
            Some(version) => (
                version.replicas.all_live(pool),
                version.replicas.has_live(pool),
                version.reserved_bytes,
            ),
            None => {
                assert(false);
                return ;
            },
        };
        if all {
            self.push_candidate(protected, item);
            return ;
        }
        if !some {
            let busy = match self.slot(number) {
                Some(slot) => slot.active.is_some(),
                None => false,
            };
            if busy {
                self.push_candidate(protected, item);
                return ;
            }
            self.take_down(number, now);
            report.invalidated_published = bump(report.invalidated_published);
            report.retired_objects = bump(report.retired_objects);
            report.retired_bytes = report.retired_bytes.saturating_add(bytes);
            return ;
        }
        let stale = self.prune(pool, number, id);
        report.pruned_objects = bump(report.pruned_objects);
        report.pruned_replicas = report.pruned_replicas.saturating_add(stale.len());
        report.pruned_replica_bytes = report.pruned_replica_bytes.saturating_add(
            stale.reserved_bytes(),
        );
        stale.append_reclaim_resources(freed);
        self.push_candidate(protected, item);
    }

    /// Looks at candidates of one queue for dead replicas.
    fn check_queue(
        &mut self,
        pool: &SegmentPool,
        protected: bool,
        candidates: usize,
        now: CatalogTick,
        report: &mut CollectReport,
        freed: &mut Vec<Reservation>,
    ) -> (scanned: usize)
        requires
            old(self).wf(),
            pool.wf(),
            candidates <= old(self)@.sweep_left(protected),
        ensures
            final(self).wf(),
            scanned <= candidates,
            forall|before: nat|
                (#[trigger] (Sweep {
                    catalog: old(self)@,
                    report: *old(report),
                    freed: old(freed)@,
                    scanned: before,
                }).liveness_round(protected, candidates as nat, pool@, now)) == (Sweep {
                    catalog: final(self)@,
                    report: *final(report),
                    freed: final(freed)@,
                    scanned: before + scanned as nat,
                }),
    {
        let ghost first = self@;
        let ghost first_report = *report;
        let ghost first_freed = freed@;
        let mut done: usize = 0;
        while done < candidates
            invariant
                self.wf(),
                pool.wf(),
                done <= candidates,
                candidates - done <= self@.sweep_left(protected),
                first == old(self)@,
                first_report == *old(report),
                first_freed == old(freed)@,
                forall|before: nat|
                    (#[trigger] (Sweep {
                        catalog: first,
                        report: first_report,
                        freed: first_freed,
                        scanned: before,
                    }).liveness_round(protected, candidates as nat, pool@, now)) == (Sweep {
                        catalog: self@,
                        report: *report,
                        freed: freed@,
                        scanned: before + done as nat,
                    }).liveness_round(protected, (candidates - done) as nat, pool@, now),
            decreases candidates - done,
        {
            if self.candidates_in(protected) == 0 {
                self.set_sweep_left(protected, 0);
                return done;
            }
            self.check_liveness(pool, protected, now, report, freed);
            done = done + 1;
        }
        done
    }

    fn retire_invalidated_published(
        &mut self,
        pool: &SegmentPool,
        now: CatalogTick,
        max_candidates: usize,
        report: &mut CollectReport,
        freed: &mut Vec<Reservation>,
    ) -> (scanned: usize)
        requires
            old(self).wf(),
            pool.wf(),
        ensures
            final(self).wf(),
            scanned <= max_candidates,
            forall|before: nat|
                (#[trigger] (Sweep {
                    catalog: old(self)@,
                    report: *old(report),
                    freed: old(freed)@,
                    scanned: before,
                }).liveness_pass(max_candidates as nat, pool@, now)) == (Sweep {
                    catalog: final(self)@,
                    report: *final(report),
                    freed: final(freed)@,
                    scanned: scanned as nat,
                }),
    {
        let young: usize = lesser_of(self.sweep_left(false), max_candidates);
        let ghost first = Sweep {
            catalog: self@,
            report: *report,
            freed: freed@,
            scanned: 0,
        };
        let scanned: usize = self.check_queue(pool, false, young, now, report, freed);
        let ghost middle = Sweep {
            catalog: self@,
            report: *report,
            freed: freed@,
            scanned: scanned as nat,
        };
        assert(first.liveness_round(false, young as nat, pool@, now) == middle);
        let protected: usize = lesser_of(self.sweep_left(true), max_candidates - scanned);
        let more: usize = self.check_queue(pool, true, protected, now, report, freed);
        assert(middle.liveness_round(true, protected as nat, pool@, now) == (Sweep {
            catalog: self@,
            report: *report,
            freed: freed@,
            scanned: (scanned + more) as nat,
        }));
        scanned + more
    }

    /// Looks at one staged write.
    fn expire_pending_write(&mut self, pool: &SegmentPool, now: CatalogTick, report: &mut CollectReport)
        requires
            old(self).wf(),
            pool.wf(),
            old(self)@.pending.len() > 0,
        ensures
            final(self).wf(),
            forall|freed: Seq<Reservation>, scanned: nat|
                (#[trigger] (Sweep {
                    catalog: old(self)@,
                    report: *old(report),
                    freed,
                    scanned,
                }).pending_step(pool@, now)) == (Sweep {
                    catalog: final(self)@,
                    report: *final(report),
                    freed,
                    scanned,
                }),
    {
        let ghost before = self@;
        let item = match self.pending.pop() {
            Some(item) => item,
            None => {
                assert(false);
                return ;
            },
        };
        let ghost shorter = self@;
        proof {
            lemma_same_core(before, shorter);
        }
        let (number, id, deadline, _) = item;
        let (committed, live) = match self.version(number, id) {
            Some(version) => (version.committed.is_some(), version.replicas.all_live(pool)),
            None => return ,
        };
        if committed {
            return ;
        }
        if live && deadline > now.value {
            self.pending.push(item);
            proof {
                lemma_same_core(shorter, self@);
            }
            return ;
        }
        if !self.is_pending(number, id) {
            return ;
        }
        self.abandon(pool, number, now);
        if live {
            report.expired_pending = bump(report.expired_pending);
        } else {
            report.invalidated_pending = bump(report.invalidated_pending);
        }
    }

    /// Whether a staged version is still the one that its slot waits for.
    fn is_pending(&self, number: u64, id: u64) -> (pending: bool)
        ensures
            pending == self@.is_pending(number, id),
    {
        match self.slot(number) {
            Some(slot) => match slot.active {
                Some(active) => active.id == id && active.phase == TransactionPhase::Staged,
                None => false,
            },
            None => false,
        }
    }

    fn expire_pending(
        &mut self,
        pool: &SegmentPool,
        now: CatalogTick,
        max_candidates: usize,
        report: &mut CollectReport,
    )
        requires
            old(self).wf(),
            pool.wf(),
        ensures
            final(self).wf(),
            forall|freed: Seq<Reservation>, scanned: nat|
                (#[trigger] (Sweep {
                    catalog: old(self)@,
                    report: *old(report),
                    freed,
                    scanned,
                }).pending_pass(
                    lesser(old(self)@.pending.len(), max_candidates as nat),
                    pool@,
                    now,
                )) == (Sweep { catalog: final(self)@, report: *final(report), freed, scanned }),
    {
        let ghost first = self@;
        let ghost first_report = *report;
        let candidates: usize = lesser_of(self.pending.len(), max_candidates);
        let mut done: usize = 0;
        while done < candidates && self.pending.len() > 0
            invariant
                self.wf(),
                pool.wf(),
                done <= candidates,
                forall|freed: Seq<Reservation>, scanned: nat|
                    (#[trigger] (Sweep {
                        catalog: first,
                        report: first_report,
                        freed,
                        scanned,
                    }).pending_pass(candidates as nat, pool@, now)) == (Sweep {
                        catalog: self@,
                        report: *report,
                        freed,
                        scanned,
                    }).pending_pass((candidates - done) as nat, pool@, now),
            decreases candidates - done,
        {
            self.expire_pending_write(pool, now, report);
            done = done + 1;
        }
    }

    /// Evicts a candidate, or puts it back where it is protected. Returns the
    /// bytes that were retired.
    fn evict_candidate(
        &mut self,
        item: WorkItem,
        from_protected: bool,
        now: CatalogTick,
        report: &mut CollectReport,
    ) -> (retired: u64)
        requires
            old(self).wf(),
        ensures
            final(self).wf(),
            forall|freed: Seq<Reservation>, scanned: nat|
                (#[trigger] (Sweep {
                    catalog: old(self)@,
                    report: *old(report),
                    freed,
                    scanned,
                }).evict(item, from_protected, now)) == (Sweep {
                    catalog: final(self)@,
                    report: *final(report),
                    freed,
                    scanned,
                }),
            forall|freed: Seq<Reservation>, scanned: nat|
                (#[trigger] (Sweep {
                    catalog: old(self)@,
                    report: *old(report),
                    freed,
                    scanned,
                }).evicted_bytes(item, now)) == retired,
    {
        let ghost before = self@;
        report.scanned_candidates = bump(report.scanned_candidates);
        let (number, id, _, _) = item;
        if !self.committed_points_to(number, id) {
            return 0;
        }
        assert(before.slot_wf(number));
        let access = self.access_of(number, id);
        if access.hard_pinned || (access.is_soft_pinned(now)
            && !self.config.allow_evict_soft_pinned_objects) {
            self.push_candidate(from_protected, item);
            return 0;
        }
        let busy = match self.slot(number) {
            Some(slot) => slot.active.is_some(),
            None => false,
        };
        if busy {
            self.push_candidate(true, item);
            return 0;
        }
        if access.recent {
            self.push_candidate(true, item);
            self.set_access(number, id, AccessControl { recent: false, ..access });
            return 0;
        }
        if access.is_leased(now) {
            self.push_candidate(true, item);
            return 0;
        }
        let (bytes, charged) = match self.version(number, id) {
            Some(version) => (version.reserved_bytes, version.charged_bytes()),
            None => (0, None),
        };
        let quota_bytes: u64 = match charged {
            Some(charged) => charged,
            None => bytes,
        };
        self.take_down(number, now);
        report.retired_objects = bump(report.retired_objects);
        report.retired_bytes = report.retired_bytes.saturating_add(bytes);
        quota_bytes
    }

    /// Evicts candidates of one queue until the debt is covered.
    fn evict_queue(
        &mut self,
        protected: bool,
        candidates: usize,
        now: CatalogTick,
        report: &mut CollectReport,
    ) -> (scanned: usize)
        requires
            old(self).wf(),
        ensures
            final(self).wf(),
            scanned <= candidates,
            forall|freed: Seq<Reservation>, before: nat|
                (#[trigger] (Sweep {
                    catalog: old(self)@,
                    report: *old(report),
                    freed,
                    scanned: before,
                }).evict_round(protected, candidates as nat, now)) == (Sweep {
                    catalog: final(self)@,
                    report: *final(report),
                    freed,
                    scanned: before + scanned as nat,
                }),
    {
        let ghost first = self@;
        let ghost first_report = *report;
        let mut done: usize = 0;
        while done < candidates
            invariant
                self.wf(),
                done <= candidates,
                first == old(self)@,
                first_report == *old(report),
                forall|freed: Seq<Reservation>, before: nat|
                    (#[trigger] (Sweep {
                        catalog: first,
                        report: first_report,
                        freed,
                        scanned: before,
                    }).evict_round(protected, candidates as nat, now)) == (Sweep {
                        catalog: self@,
                        report: *report,
                        freed,
                        scanned: before + done as nat,
                    }).evict_round(protected, (candidates - done) as nat, now),
            decreases candidates - done,
        {
            if self.reclaim_debt <= self.counters.retired_bytes || self.candidates_in(protected)
                == 0 {
                return done;
            }
            let ghost was = self@;
            let item = self.pop_candidate(protected);
            let _ = self.evict_candidate(item, protected, now, report);
            done = done + 1;
        }
        done
    }

    fn evict(&mut self, now: CatalogTick, max_candidates: usize, report: &mut CollectReport)
        requires
            old(self).wf(),
        ensures
            final(self).wf(),
            forall|freed: Seq<Reservation>, before: nat|
                ({
                    let after = #[trigger] (Sweep {
                        catalog: old(self)@,
                        report: *old(report),
                        freed,
                        scanned: before,
                    }).evict_pass(max_candidates as nat, now);
                    &&& after.catalog == final(self)@
                    &&& after.report == *final(report)
                    &&& after.freed == freed
                }),
    {
        let ghost first = self@;
        let ghost first_report = *report;
        let young: usize = lesser_of(self.young.len(), max_candidates);
        let protected: usize = self.protected.len();
        let scanned: usize = self.evict_queue(false, young, now, report);
        let ghost middle = self@;
        let ghost middle_report = *report;
        let rest: usize = lesser_of(protected, max_candidates - scanned);
        let _ = self.evict_queue(true, rest, now, report);
        proof {
            assert forall|freed: Seq<Reservation>, before: nat| ({
                let after = #[trigger] (Sweep {
                    catalog: first,
                    report: first_report,
                    freed,
                    scanned: before,
                }).evict_pass(max_candidates as nat, now);
                &&& after.catalog == self@
                &&& after.report == *report
                &&& after.freed == freed
            }) by {
                let start = Sweep { catalog: first, report: first_report, freed, scanned: 0 };
                assert(start.evict_round(false, young as nat, now) == (Sweep {
                    catalog: middle,
                    report: middle_report,
                    freed,
                    scanned: 0 + scanned as nat,
                }));
                let after = (Sweep {
                    catalog: middle,
                    report: middle_report,
                    freed,
                    scanned: scanned as nat,
                }).evict_round(true, rest as nat, now);
                assert(after.catalog == self@);
            }
        }
    }
}

/// Where some replicas live, the live ones are some, and the dead ones are the
/// rest.
proof fn lemma_live_part_nonempty(replicas: Seq<super::super::replica::ReplicaLease>, pool: PoolView)
    requires
        has_live(replicas, pool),
    ensures
        live_part(replicas, pool).len() > 0,
        live_part(replicas, pool).len() <= replicas.len(),
        stale_part(replicas, pool).len() <= replicas.len(),
{
    let keep = |replica: super::super::replica::ReplicaLease| replica.lives(pool);
    let drop = |replica: super::super::replica::ReplicaLease| !replica.lives(pool);
    let i = choose|i: int| 0 <= i < replicas.len() && (#[trigger] replicas[i]).lives(pool);
    replicas.lemma_filter_contains(keep, i);
    replicas.lemma_filter_len(keep);
    replicas.lemma_filter_len(drop);
    assert(live_part(replicas, pool).contains(replicas[i]));
}

/// Whether a reclaim target is about a version.
fn target_matches(filter: ReclaimFilter, version: &ObjectVersion) -> (matches: bool)
    ensures
        matches == filter_matches(filter, version@),
{
    match filter {
        ReclaimFilter::Any => true,
        ReclaimFilter::Class(class) => version.replicas.len() > 0 && class == ReplicaClass::Memory,
        ReclaimFilter::Scope { namespace, replica_class } => version.accounting.is_some()
            && version.identity.namespace == namespace && version.replicas.len() > 0
            && replica_class == ReplicaClass::Memory,
    }
}

/// The first open target that is about a version.
fn find_target(debts: &Vec<ReclaimTarget>, version: &ObjectVersion) -> (found: Option<usize>)
    ensures
        match found {
            Some(i) => i < debts@.len() && matching_target(debts@, version@, 0) == Some(i as int),
            None => matching_target(debts@, version@, 0) is None,
        },
{
    let mut i: usize = 0;
    while i < debts.len()
        invariant
            i <= debts@.len(),
            matching_target(debts@, version@, 0) == matching_target(debts@, version@, i as int),
        decreases debts@.len() - i,
    {
        if debts[i].bytes > 0 && target_matches(debts[i].filter, version) {
            return Some(i);
        }
        i = i + 1;
    }
    None
}

/// Whether no target is open.
fn targets_met(debts: &Vec<ReclaimTarget>) -> (met: bool)
    ensures
        met == all_met(debts@),
{
    let mut i: usize = 0;
    while i < debts.len()
        invariant
            i <= debts@.len(),
            forall|j: int| 0 <= j < i ==> (#[trigger] debts@[j]).bytes == 0,
        decreases debts@.len() - i,
    {
        if debts[i].bytes != 0 {
            assert(debts@[i as int].bytes != 0);
            return false;
        }
        i = i + 1;
    }
    true
}

/// The targets that are open.
fn collect_open_targets(targets: &[ReclaimTarget]) -> (debts: Vec<ReclaimTarget>)
    ensures
        debts@ == open_targets(targets@),
{
    let ghost all = targets@;
    let ghost keep = |target: ReclaimTarget| target.bytes > 0;
    let mut debts: Vec<ReclaimTarget> = Vec::new();
    let mut i: usize = 0;
    proof {
        assert(all.take(0) =~= Seq::empty());
        reveal(Seq::filter);
        assert(all.take(0).filter(keep) =~= debts@);
    }
    while i < targets.len()
        invariant
            all == targets@,
            keep == (|target: ReclaimTarget| target.bytes > 0),
            i <= all.len(),
            debts@ == all.take(i as int).filter(keep),
        decreases all.len() - i,
    {
        proof {
            assert(all.take(i + 1).drop_last() =~= all.take(i as int));
            assert(all.take(i + 1).last() == all[i as int]);
            reveal(Seq::filter);
        }
        if targets[i].bytes > 0 {
            debts.push(targets[i]);
        }
        i = i + 1;
    }
    assert(all.take(i as int) =~= all);
    debts
}

impl ObjectCatalog {
    /// Evicts one candidate for the first open target that is about it.
    fn evict_for_targets(
        &mut self,
        protected: bool,
        debts: &mut Vec<ReclaimTarget>,
        now: CatalogTick,
        report: &mut CollectReport,
    )
        requires
            old(self).wf(),
            old(self)@.queue(protected).len() > 0,
        ensures
            final(self).wf(),
            forall|freed: Seq<Reservation>, scanned: nat|
                (#[trigger] (ScopedSweep {
                    sweep: Sweep {
                        catalog: old(self)@,
                        report: *old(report),
                        freed,
                        scanned,
                    },
                    debts: old(debts)@,
                }).step(protected, now)) == (ScopedSweep {
                    sweep: Sweep {
                        catalog: final(self)@,
                        report: *final(report),
                        freed,
                        scanned: scanned + 1,
                    },
                    debts: final(debts)@,
                }),
    {
        let item = self.pop_candidate(protected);
        let ghost catalog = self@;
        let (number, id, _, _) = item;
        if !self.committed_points_to(number, id) {
            report.scanned_candidates = bump(report.scanned_candidates);
            return ;
        }
        assert(catalog.slot_wf(number));
        let target = match self.version(number, id) {
            Some(version) => find_target(debts, version),
            None => {
                assert(false);
                None
            },
        };
        match target {
            None => {
                report.scanned_candidates = bump(report.scanned_candidates);
                self.push_candidate(protected, item);
            },
            Some(i) => {
                let retired: u64 = self.evict_candidate(item, protected, now, report);
                if retired > 0 {
                    let target = debts[i];
                    debts.set(
                        i,
                        ReclaimTarget { bytes: target.bytes.saturating_sub(retired), ..target },
                    );
                    report.scoped_retired_objects = bump(report.scoped_retired_objects);
                    report.scoped_retired_bytes = report.scoped_retired_bytes.saturating_add(
                        retired,
                    );
                }
            },
        }
    }

    /// Evicts candidates of one queue for given targets.
    fn evict_queue_for_targets(
        &mut self,
        protected: bool,
        candidates: usize,
        debts: &mut Vec<ReclaimTarget>,
        now: CatalogTick,
        report: &mut CollectReport,
    ) -> (scanned: usize)
        requires
            old(self).wf(),
        ensures
            final(self).wf(),
            scanned <= candidates,
            forall|freed: Seq<Reservation>, before: nat|
                (#[trigger] (ScopedSweep {
                    sweep: Sweep {
                        catalog: old(self)@,
                        report: *old(report),
                        freed,
                        scanned: before,
                    },
                    debts: old(debts)@,
                }).round(protected, candidates as nat, now)) == (ScopedSweep {
                    sweep: Sweep {
                        catalog: final(self)@,
                        report: *final(report),
                        freed,
                        scanned: before + scanned as nat,
                    },
                    debts: final(debts)@,
                }),
    {
        let ghost first = self@;
        let ghost first_report = *report;
        let ghost first_debts = debts@;
        let mut done: usize = 0;
        while done < candidates
            invariant
                self.wf(),
                done <= candidates,
                first == old(self)@,
                first_report == *old(report),
                first_debts == old(debts)@,
                forall|freed: Seq<Reservation>, before: nat|
                    (#[trigger] (ScopedSweep {
                        sweep: Sweep {
                            catalog: first,
                            report: first_report,
                            freed,
                            scanned: before,
                        },
                        debts: first_debts,
                    }).round(protected, candidates as nat, now)) == (ScopedSweep {
                        sweep: Sweep {
                            catalog: self@,
                            report: *report,
                            freed,
                            scanned: before + done as nat,
                        },
                        debts: debts@,
                    }).round(protected, (candidates - done) as nat, now),
            decreases candidates - done,
        {
            if targets_met(debts) || self.candidates_in(protected) == 0 {
                return done;
            }
            self.evict_for_targets(protected, debts, now, report);
            done = done + 1;
        }
        done
    }

    fn evict_scoped(
        &mut self,
        now: CatalogTick,
        max_candidates: usize,
        targets: &[ReclaimTarget],
        report: &mut CollectReport,
    ) -> (scanned: usize)
        requires
            old(self).wf(),
        ensures
            final(self).wf(),
            scanned <= max_candidates,
            forall|freed: Seq<Reservation>, before: nat|
                (#[trigger] (Sweep {
                    catalog: old(self)@,
                    report: *old(report),
                    freed,
                    scanned: before,
                }).scoped_pass(max_candidates as nat, targets@, now)) == (Sweep {
                    catalog: final(self)@,
                    report: *final(report),
                    freed,
                    scanned: scanned as nat,
                }),
    {
        let mut debts = collect_open_targets(targets);
        if max_candidates == 0 || debts.len() == 0 {
            return 0;
        }
        let ghost first = self@;
        let ghost first_report = *report;
        let ghost first_debts = debts@;
        let young: usize = lesser_of(self.young.len(), max_candidates);
        let protected: usize = self.protected.len();
        let scanned: usize = self.evict_queue_for_targets(false, young, &mut debts, now, report);
        let ghost middle = self@;
        let ghost middle_report = *report;
        let ghost middle_debts = debts@;
        let rest: usize = lesser_of(protected, max_candidates - scanned);
        let more: usize = self.evict_queue_for_targets(true, rest, &mut debts, now, report);
        proof {
            assert forall|freed: Seq<Reservation>, before: nat|
                (#[trigger] (Sweep {
                    catalog: first,
                    report: first_report,
                    freed,
                    scanned: before,
                }).scoped_pass(max_candidates as nat, targets@, now)) == (Sweep {
                catalog: self@,
                report: *report,
                freed,
                scanned: (scanned + more) as nat,
            }) by {
                let start = ScopedSweep {
                    sweep: Sweep { catalog: first, report: first_report, freed, scanned: 0 },
                    debts: first_debts,
                };
                let half = ScopedSweep {
                    sweep: Sweep {
                        catalog: middle,
                        report: middle_report,
                        freed,
                        scanned: scanned as nat,
                    },
                    debts: middle_debts,
                };
                assert(start.round(false, young as nat, now) == half);
                assert(half.round(true, rest as nat, now).sweep == (Sweep {
                    catalog: self@,
                    report: *report,
                    freed,
                    scanned: (scanned + more) as nat,
                }));
            }
        }
        scanned + more
    }

    /// Releases one retired version, if nothing protects it any more.
    fn reclaim_version(
        &mut self,
        now: CatalogTick,
        report: &mut CollectReport,
        freed: &mut Vec<Reservation>,
    )
        requires
            old(self).wf(),
            old(self)@.retired.len() > 0,
        ensures
            final(self).wf(),
            forall|scanned: nat|
                (#[trigger] (Sweep {
                    catalog: old(self)@,
                    report: *old(report),
                    freed: old(freed)@,
                    scanned,
                }).reclaim_step(now)) == (Sweep {
                    catalog: final(self)@,
                    report: *final(report),
                    freed: final(freed)@,
                    scanned,
                }),
    {
        let ghost before = self@;
        let item = match self.retired.pop() {
            Some(item) => item,
            None => {
                assert(false);
                return ;
            },
        };
        assert(before.versions.contains_key((before.retired[0].0, before.retired[0].1)));
        let (number, id, reserved_bytes, reclaim_after) = item;
        let held = match self.version(number, id) {
            Some(version) => version.pins > 0,
            None => true,
        };
        if reclaim_after > now.value || held {
            self.retired.push(item);
            proof {
                lemma_retired_rotated(before, self@);
            }
            return ;
        }
        let mut version = self.take_version(number, id);
        let ghost was = version@;
        version.step_charge(&mut self.ledger, ChargeStep::Release);
        let memory = version.replicas.len() > 0;
        version.replicas.append_reclaim_resources(freed);
        self.counters.on_reclaim(reserved_bytes, memory);
        self.reclaim_debt = self.reclaim_debt.saturating_sub(reserved_bytes);
        report.reclaimed_objects = bump(report.reclaimed_objects);
        report.reclaimed_bytes = report.reclaimed_bytes.saturating_add(reserved_bytes);
        if memory {
            report.reclaimed_memory_bytes = report.reclaimed_memory_bytes.saturating_add(
                reserved_bytes,
            );
        }
        proof {
            lemma_version_gone(before, self@);
        }
    }

    fn reclaim(
        &mut self,
        now: CatalogTick,
        max_reclaims: usize,
        report: &mut CollectReport,
        freed: &mut Vec<Reservation>,
    )
        requires
            old(self).wf(),
        ensures
            final(self).wf(),
            forall|scanned: nat|
                (#[trigger] (Sweep {
                    catalog: old(self)@,
                    report: *old(report),
                    freed: old(freed)@,
                    scanned,
                }).reclaim_pass(
                    lesser(old(self)@.retired.len(), max_reclaims as nat),
                    now,
                )) == (Sweep {
                    catalog: final(self)@,
                    report: *final(report),
                    freed: final(freed)@,
                    scanned,
                }),
    {
        let ghost first = self@;
        let ghost first_report = *report;
        let ghost first_freed = freed@;
        let retired_objects: usize = lesser_of(self.retired.len(), max_reclaims);
        let mut done: usize = 0;
        while done < retired_objects && self.retired.len() > 0
            invariant
                self.wf(),
                done <= retired_objects,
                forall|scanned: nat|
                    (#[trigger] (Sweep {
                        catalog: first,
                        report: first_report,
                        freed: first_freed,
                        scanned,
                    }).reclaim_pass(retired_objects as nat, now)) == (Sweep {
                        catalog: self@,
                        report: *report,
                        freed: freed@,
                        scanned,
                    }).reclaim_pass((retired_objects - done) as nat, now),
            decreases retired_objects - done,
        {
            self.reclaim_version(now, report, freed);
            done = done + 1;
        }
    }

    /// Takes one slot out that is still empty.
    fn clean_empty_slot(&mut self, now: CatalogTick, report: &mut CollectReport)
        requires
            old(self).wf(),
            old(self)@.empty_slots.len() > 0,
        ensures
            final(self).wf(),
            forall|freed: Seq<Reservation>, scanned: nat|
                (#[trigger] (Sweep {
                    catalog: old(self)@,
                    report: *old(report),
                    freed,
                    scanned,
                }).empty_step(now)) == (Sweep {
                    catalog: final(self)@,
                    report: *final(report),
                    freed,
                    scanned,
                }),
    {
        let ghost before = self@;
        let item = match self.empty_slots.pop() {
            Some(item) => item,
            None => {
                assert(false);
                return ;
            },
        };
        let ghost shorter = self@;
        proof {
            lemma_same_core(before, shorter);
        }
        let (number, deadline, _, _) = item;
        if deadline > now.value {
            self.empty_slots.push(item);
            proof {
                lemma_same_core(shorter, self@);
            }
            return ;
        }
        let empty = match self.slot(number) {
            Some(slot) => slot.committed.is_none() && slot.active.is_none(),
            None => false,
        };
        if !empty {
            return ;
        }
        let slot = self.take_slot(number);
        self.index.remove(&slot.identity);
        self.counters.slots = self.counters.slots.wrapping_sub(1);
        report.removed_empty_slots = bump(report.removed_empty_slots);
        proof {
            lemma_slot_gone(shorter, self@, number);
        }
    }

    fn clean_empty_slots(&mut self, now: CatalogTick, max_empty_slots: usize, report: &mut CollectReport)
        requires
            old(self).wf(),
        ensures
            final(self).wf(),
            forall|freed: Seq<Reservation>, scanned: nat|
                (#[trigger] (Sweep {
                    catalog: old(self)@,
                    report: *old(report),
                    freed,
                    scanned,
                }).empty_pass(
                    lesser(old(self)@.empty_slots.len(), max_empty_slots as nat),
                    now,
                )) == (Sweep { catalog: final(self)@, report: *final(report), freed, scanned }),
    {
        let ghost first = self@;
        let ghost first_report = *report;
        let candidates: usize = lesser_of(self.empty_slots.len(), max_empty_slots);
        let mut done: usize = 0;
        while done < candidates && self.empty_slots.len() > 0
            invariant
                self.wf(),
                done <= candidates,
                forall|freed: Seq<Reservation>, scanned: nat|
                    (#[trigger] (Sweep {
                        catalog: first,
                        report: first_report,
                        freed,
                        scanned,
                    }).empty_pass(candidates as nat, now)) == (Sweep {
                        catalog: self@,
                        report: *report,
                        freed,
                        scanned,
                    }).empty_pass((candidates - done) as nat, now),
            decreases candidates - done,
        {
            self.clean_empty_slot(now, report);
            done = done + 1;
        }
    }

    /// Extends a liveness sweep that was asked for to all current candidates.
    fn begin_liveness_sweep(&mut self)
        requires
            old(self).wf(),
        ensures
            final(self).wf(),
            final(self)@ == old(self)@.sweep_begun(),
    {
        let ghost before = self@;
        if self.liveness.requested {
            self.liveness.requested = false;
            let young: usize = self.young.len();
            if self.liveness.young_remaining < young {
                self.liveness.young_remaining = young;
            }
            let protected: usize = self.protected.len();
            if self.liveness.protected_remaining < protected {
                self.liveness.protected_remaining = protected;
            }
        }
        proof {
            lemma_same_core(before, self@);
        }
    }

    /// Runs one bounded step of the collector.
    pub fn collect_step(&mut self, pool: &mut SegmentPool, now: CatalogTick, budget: CollectBudget) -> (report: CollectReport)
        requires
            old(self).wf(),
            old(pool).wf(),
        ensures
            final(self).wf(),
            final(pool).wf(),
            ({
                let after = old(self)@.collected(old(pool)@, now, budget, Seq::empty());
                &&& final(self)@ == after.catalog
                &&& report == after.report
                &&& old(pool)@.released_all(final(pool)@, after.freed)
            }),
    {
        let none: [ReclaimTarget; 0] = [];
        assert(none@ =~= Seq::empty());
        self.collect_step_with_targets(pool, now, budget, &none)
    }

    /// Runs one bounded step of the collector that first evicts for given
    /// targets.
    pub fn collect_step_with_targets(
        &mut self,
        pool: &mut SegmentPool,
        now: CatalogTick,
        budget: CollectBudget,
        targets: &[ReclaimTarget],
    ) -> (report: CollectReport)
        requires
            old(self).wf(),
            old(pool).wf(),
        ensures
            final(self).wf(),
            final(pool).wf(),
            ({
                let after = old(self)@.collected(old(pool)@, now, budget, targets@);
                &&& final(self)@ == after.catalog
                &&& report == after.report
                &&& old(pool)@.released_all(final(pool)@, after.freed)
            }),
    {
        let mut freed: Vec<Reservation> = Vec::new();
        let report = self.collect(pool, now, budget, targets, &mut freed);
        pool.release_batch(freed);
        report
    }

    /// Runs one bounded step of the collector and hands the ranges over that it
    /// frees.
    fn collect(
        &mut self,
        pool: &SegmentPool,
        now: CatalogTick,
        budget: CollectBudget,
        targets: &[ReclaimTarget],
        freed: &mut Vec<Reservation>,
    ) -> (report: CollectReport)
        requires
            old(self).wf(),
            pool.wf(),
            old(freed)@ == Seq::<Reservation>::empty(),
        ensures
            final(self).wf(),
            ({
                let after = old(self)@.collected(pool@, now, budget, targets@);
                &&& final(self)@ == after.catalog
                &&& report == after.report
                &&& final(freed)@ == after.freed
            }),
    {
        proof {
            reveal(CatalogView::collected);
        }
        let mut report = CollectReport::default();
        self.begin_liveness_sweep();
        let candidates: usize = budget.max_candidates;
        let ghost start = Sweep { catalog: self@, report, freed: freed@, scanned: 0 };
        self.expire_soft_pins(now, candidates, &mut report);
        let ghost unpinned = Sweep { catalog: self@, report, freed: freed@, scanned: 0 };
        assert(start.soft_pin_pass(
            lesser(start.catalog.soft_pins.len(), candidates as nat),
            now,
        ) == unpinned);
        let scanned: usize = self.retire_invalidated_published(
            pool,
            now,
            candidates,
            &mut report,
            freed,
        );
        let ghost checked = Sweep {
            catalog: self@,
            report,
            freed: freed@,
            scanned: scanned as nat,
        };
        assert(unpinned.liveness_pass(candidates as nat, pool@, now) == checked);
        self.expire_pending(pool, now, candidates, &mut report);
        let ghost expired = Sweep {
            catalog: self@,
            report,
            freed: freed@,
            scanned: scanned as nat,
        };
        assert(checked.pending_pass(
            lesser(checked.catalog.pending.len(), candidates as nat),
            pool@,
            now,
        ) == expired);
        let ghost mut last_scanned: nat = scanned as nat;
        if self.liveness.young_remaining == 0 && self.liveness.protected_remaining == 0 {
            let left: usize = candidates.saturating_sub(scanned);
            let scoped: usize = self.evict_scoped(now, left, targets, &mut report);
            let ghost after_scoped = Sweep {
                catalog: self@,
                report,
                freed: freed@,
                scanned: scoped as nat,
            };
            assert(expired.scoped_pass(left as nat, targets@, now) == after_scoped);
            let rest: usize = left.saturating_sub(scoped);
            self.evict(now, rest, &mut report);
            proof {
                last_scanned = after_scoped.evict_pass(rest as nat, now).scanned;
            }
        }
        let ghost evicted = Sweep { catalog: self@, report, freed: freed@, scanned: last_scanned };
        assert(expired.eviction_phase(candidates as nat, targets@, now) == evicted);
        self.reclaim(now, budget.max_reclaims, &mut report, freed);
        let ghost reclaimed = Sweep {
            catalog: self@,
            report,
            freed: freed@,
            scanned: last_scanned,
        };
        assert(evicted.reclaim_pass(
            lesser(evicted.catalog.retired.len(), budget.max_reclaims as nat),
            now,
        ) == reclaimed);
        self.clean_empty_slots(now, budget.max_empty_slots, &mut report);
        report
    }

    /// Gives up the staged writes of the owners that belong to a session, and
    /// counts them.
    pub fn revoke_pending_owners(
        &mut self,
        pool: &SegmentPool,
        owners: &[WriteOwner],
        now: CatalogTick,
    ) -> (revoked: usize)
        requires
            old(self).wf(),
            pool.wf(),
        ensures
            final(self).wf(),
            final(self)@ == old(self)@.revoked(pool@, owners@, now).catalog,
            revoked == old(self)@.revoked(pool@, owners@, now).revoked,
    {
        let sessions = owners_of_sessions(owners);
        if sessions.len() == 0 {
            return 0;
        }
        let ghost goal = self@.revoked(pool@, owners@, now);
        let candidates: usize = self.pending.len();
        let mut done: usize = 0;
        let mut revoked: usize = 0;
        while done < candidates && self.pending.len() > 0
            invariant
                self.wf(),
                pool.wf(),
                sessions@ == session_owners(owners@),
                revoked <= done <= candidates,
                goal == (Revocation { catalog: self@, revoked: revoked as nat }).pass(
                    (candidates - done) as nat,
                    pool@,
                    sessions@,
                    now,
                ),
            decreases candidates - done,
        {
            let given_up = self.revoke_pending_write(pool, &sessions, now, Ghost(revoked as nat));
            done = done + 1;
            if given_up {
                revoked = revoked + 1;
            }
        }
        revoked
    }

    /// Gives one staged write up, if it belongs to one of the owners.
    fn revoke_pending_write(
        &mut self,
        pool: &SegmentPool,
        owners: &Vec<WriteOwner>,
        now: CatalogTick,
        revoked: Ghost<nat>,
    ) -> (given_up: bool)
        requires
            old(self).wf(),
            pool.wf(),
            old(self)@.pending.len() > 0,
        ensures
            final(self).wf(),
            (Revocation { catalog: old(self)@, revoked: revoked@ }).step(pool@, owners@, now) == (
            Revocation {
                catalog: final(self)@,
                revoked: if given_up {
                    revoked@ + 1
                } else {
                    revoked@
                },
            }),
    {
        let ghost before = self@;
        let item = match self.pending.pop() {
            Some(item) => item,
            None => {
                assert(false);
                return false;
            },
        };
        let ghost shorter = self@;
        proof {
            lemma_same_core(before, shorter);
        }
        let (number, id, _, _) = item;
        if !self.is_pending(number, id) {
            return false;
        }
        let owner = match self.slot(number) {
            Some(slot) => match slot.active {
                Some(active) => active.owner,
                None => {
                    assert(false);
                    return false;
                },
            },
            None => {
                assert(false);
                return false;
            },
        };
        if !names_owner(owners, owner) {
            self.pending.push(item);
            proof {
                lemma_same_core(shorter, self@);
            }
            return false;
        }
        self.abandon(pool, number, now);
        true
    }
}

/// Whether a list of owners names an owner.
fn names_owner(owners: &Vec<WriteOwner>, owner: WriteOwner) -> (named: bool)
    ensures
        named == owners@.contains(owner),
{
    let mut i: usize = 0;
    while i < owners.len()
        invariant
            i <= owners@.len(),
            forall|j: int| 0 <= j < i ==> owners@[j] != owner,
        decreases owners@.len() - i,
    {
        if owners[i] == owner {
            return true;
        }
        i = i + 1;
    }
    false
}

/// The owners whose writes belong to a session.
fn owners_of_sessions(owners: &[WriteOwner]) -> (sessions: Vec<WriteOwner>)
    ensures
        sessions@ == session_owners(owners@),
{
    let ghost all = owners@;
    let ghost keep = |owner: WriteOwner| owner.session_generation != 0;
    let mut sessions: Vec<WriteOwner> = Vec::new();
    let mut i: usize = 0;
    proof {
        assert(all.take(0) =~= Seq::empty());
        reveal(Seq::filter);
        assert(all.take(0).filter(keep) =~= sessions@);
    }
    while i < owners.len()
        invariant
            all == owners@,
            keep == (|owner: WriteOwner| owner.session_generation != 0),
            i <= all.len(),
            sessions@ == all.take(i as int).filter(keep),
        decreases all.len() - i,
    {
        proof {
            assert(all.take(i + 1).drop_last() =~= all.take(i as int));
            assert(all.take(i + 1).last() == all[i as int]);
            reveal(Seq::filter);
        }
        if owners[i].session_generation != 0 {
            sessions.push(owners[i]);
        }
        i = i + 1;
    }
    assert(all.take(i as int) =~= all);
    sessions
}

} // verus!
