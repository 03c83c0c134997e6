//! What the catalog promises as a whole.

use super::super::config::ResolvedObjectPinRequest;
use super::super::error::LookupError;
use super::super::reclamation::{CatalogTick, CollectBudget, CollectReport, ReclaimTarget};
use super::super::replica::{all_live, has_live, live_part, ReplicaLease};
use super::super::write::{ObjectCommit, WriteOwner};
use super::queue::WorkItem;
use super::state::{CatalogView, ObjectSlot, VersionView};
use super::sweep::{
    all_met, bumped, lesser, matching_target, open_targets, ScopedSweep, Sweep,
};
use super::upkeep::{
    lemma_abandoned, lemma_pruned, lemma_retired_rotated, lemma_same_core, lemma_slot_gone, lemma_taken_down,
    lemma_version_gone, lemma_version_touched,
};
use crate::segment::pool::PoolView;
use super::tally::{counts, lemma_tally, marked, shifts, weighs, Mark, Weight};
use vstd::prelude::*;

verus! {

/// Beginning a write leaves every object readable that was readable, and finds
/// the same version of it.
pub proof fn law_begin_keeps_objects_readable(
    catalog: CatalogView,
    pool: PoolView,
    slot: u64,
    owner: WriteOwner,
    pins: ResolvedObjectPinRequest,
    name: (u64, Seq<char>),
)
    requires
        catalog.wf(),
        catalog.slots.contains_key(slot),
        catalog.slots[slot].active is None,
        catalog.get_result(pool, name) is Ok,
    ensures
        catalog.begun_in(slot, owner, pins).get_result(pool, name) == catalog.get_result(
            pool,
            name,
        ),
{
    assert(catalog.index.contains_key(name));
}

/// Staging a write leaves every object readable that was readable, and finds
/// the same version of it: an upsert leaves the previous version readable until
/// it is committed.
pub proof fn law_stage_keeps_objects_readable(
    catalog: CatalogView,
    pool: PoolView,
    slot: u64,
    version: VersionView,
    started_at: CatalogTick,
    name: (u64, Seq<char>),
)
    requires
        catalog.wf(),
        catalog.slots.contains_key(slot),
        catalog.slots[slot].is_claimed(),
        catalog.get_result(pool, name) is Ok,
    ensures
        catalog.staged(slot, version, started_at).get_result(pool, name) == catalog.get_result(
            pool,
            name,
        ),
{
    assert(catalog.index.contains_key(name));
    assert(catalog.slot_wf(slot));
}

/// An object that was never committed is not readable while its first write is
/// claimed or staged.
pub proof fn law_insert_is_invisible_until_commit(
    catalog: CatalogView,
    pool: PoolView,
    name: (u64, Seq<char>),
)
    requires
        catalog.wf(),
        catalog.find(name) is Some,
        catalog.slots[catalog.index[name]].committed is None,
        catalog.slots[catalog.index[name]].active is Some,
    ensures
        catalog.get_result(pool, name) == Err::<(u64, u64), LookupError>(LookupError::NotReady),
{
}

/// After a commit a lookup finds the version that was committed, with the
/// metadata it was committed with, and the slot is free for the next write.
pub proof fn law_get_after_commit(
    catalog: CatalogView,
    pool: PoolView,
    slot: u64,
    commit: ObjectCommit,
    now: CatalogTick,
)
    requires
        catalog.wf(),
        catalog.slots.contains_key(slot),
        catalog.slots[slot].staged() is Some,
        all_live(catalog.versions[(slot, catalog.slots[slot].staged().unwrap())].replicas, pool),
    ensures
        ({
            let id = catalog.slots[slot].staged().unwrap();
            let after = catalog.published(slot, commit, now);
            &&& after.get_result(pool, catalog.slots[slot].identity@) == Ok::<
                (u64, u64),
                LookupError,
            >((slot, id))
            &&& after.versions[(slot, id)].committed.unwrap().commit == commit
            &&& after.versions[(slot, id)].content == catalog.versions[(slot, id)].content
            &&& after.versions[(slot, id)].replicas == catalog.versions[(slot, id)].replicas
            &&& after.slots[slot].active is None
        }),
{
    let id = catalog.slots[slot].staged().unwrap();
    let after = catalog.published(slot, commit, now);
    assert(catalog.slot_wf(slot));
    assert(after.index.contains_key(catalog.slots[slot].identity@));
    assert(after.slots[slot].committed == Some(id));
    let replicas = catalog.versions[(slot, id)].replicas;
    assert(after.versions[(slot, id)].replicas == replicas);
    assert(replicas[0].lives(pool));
    assert(has_live(replicas, pool));
}

/// Giving a staged write up leaves the committed version of the object as it
/// was and the slot free for the next write.
pub proof fn law_abort_restores_slot(
    catalog: CatalogView,
    pool: PoolView,
    slot: u64,
    now: CatalogTick,
)
    requires
        catalog.wf(),
        catalog.slots.contains_key(slot),
        catalog.slots[slot].staged() is Some,
    ensures
        ({
            let after = catalog.abandoned(pool, slot, now);
            &&& after.slots[slot] == (ObjectSlot { active: None, ..catalog.slots[slot] })
            &&& catalog.slots[slot].committed matches Some(id) ==> after.versions[(slot, id)]
                == catalog.versions[(slot, id)]
        }),
{
    assert(catalog.slot_wf(slot));
}

/// Dropping a claim leaves every version as it was and the slot free for the
/// next write.
pub proof fn law_drop_claim_restores_slot(
    catalog: CatalogView,
    pool: PoolView,
    slot: u64,
    id: u64,
    started_at: CatalogTick,
)
    requires
        catalog.wf(),
        catalog.claim_holds(slot, id),
    ensures
        ({
            let after = catalog.claim_dropped(pool, slot, id, started_at);
            &&& after.slots[slot] == (ObjectSlot { active: None, ..catalog.slots[slot] })
            &&& after.versions == catalog.versions
        }),
{
}

/// Committing the same transaction again with the same metadata succeeds, and
/// with other metadata is refused.
pub proof fn law_commit_is_idempotent(
    catalog: CatalogView,
    pool: PoolView,
    slot: u64,
    commit: ObjectCommit,
    other: ObjectCommit,
    now: CatalogTick,
)
    requires
        catalog.wf(),
        catalog.slots.contains_key(slot),
        catalog.slots[slot].staged() is Some,
    ensures
        ({
            let id = catalog.slots[slot].staged().unwrap();
            let after = catalog.published(slot, commit, now);
            &&& after.commit_path(pool, catalog.catalog_id, slot, id, commit)
                == super::write::CommitPath::Repeats
            &&& other != commit ==> after.commit_path(pool, catalog.catalog_id, slot, id, other)
                == super::write::CommitPath::Fails(
                super::super::error::CommitError::CommitConflict,
            )
            &&& after.abort_result(catalog.catalog_id, slot, id) == Err::<
                (),
                super::super::error::AbortError,
            >(super::super::error::AbortError::AlreadyCommitted)
        }),
{
    assert(catalog.slot_wf(slot));
}

/// A committed version that is leased or hard-pinned and can still be read.
pub open spec fn is_shielded(
    catalog: CatalogView,
    slot: u64,
    id: u64,
    pool: PoolView,
    now: CatalogTick,
) -> bool {
    let version = catalog.versions[(slot, id)];
    &&& catalog.points_to(slot, id)
    &&& has_live(version.replicas, pool)
    &&& version.access().hard_pinned || version.access().leased(now)
}

/// A version that somebody holds on to.
pub open spec fn is_held(catalog: CatalogView, slot: u64, id: u64) -> bool {
    catalog.versions.contains_key((slot, id)) && catalog.versions[(slot, id)].pins > 0
}

/// A version that nobody holds on to and whose lease, if it was ever published, is
/// over.
pub open spec fn is_idle(version: VersionView, now: CatalogTick) -> bool {
    &&& version.pins == 0
    &&& version.committed is Some ==> version.access().lease_until <= now.value
}

/// A version is released only where it is idle, and else stays in store with its
/// holders and its lease. None is added.
pub open spec fn outlives(
    before: CatalogView,
    after: CatalogView,
    slot: u64,
    id: u64,
    now: CatalogTick,
) -> bool {
    let was = before.versions[(slot, id)];
    let is = after.versions[(slot, id)];
    if after.versions.contains_key((slot, id)) {
        &&& before.versions.contains_key((slot, id))
        &&& is.pins == was.pins
        &&& is.committed is Some == was.committed is Some
        &&& is.committed is Some ==> is.access().lease_until == was.access().lease_until
    } else {
        before.versions.contains_key((slot, id)) ==> is_idle(was, now)
    }
}

/// What every step of the collector keeps: the catalog's order, shielded
/// versions in place, held versions in store, and all versions that are not idle.
pub open spec fn keeps(before: CatalogView, after: CatalogView, pool: PoolView, now: CatalogTick) -> bool {
    &&& after.wf()
    &&& forall|slot: u64, id: u64| #[trigger]
        is_shielded(before, slot, id, pool, now) ==> is_shielded(after, slot, id, pool, now)
    &&& forall|slot: u64, id: u64| #[trigger]
        is_held(before, slot, id) ==> is_held(after, slot, id)
    &&& forall|slot: u64, id: u64| #[trigger] outlives(before, after, slot, id, now)
}

/// Steps that keep what they should can follow each other.
pub proof fn lemma_keeps_chain(
    first: CatalogView,
    second: CatalogView,
    third: CatalogView,
    pool: PoolView,
    now: CatalogTick,
)
    requires
        keeps(first, second, pool, now),
        keeps(second, third, pool, now),
    ensures
        keeps(first, third, pool, now),
{
    assert forall|slot: u64, id: u64| #[trigger]
        is_shielded(first, slot, id, pool, now) implies is_shielded(third, slot, id, pool, now) by {
        assert(is_shielded(second, slot, id, pool, now));
    }
    assert forall|slot: u64, id: u64| #[trigger] is_held(first, slot, id) implies is_held(
        third,
        slot,
        id,
    ) by {
        assert(is_held(second, slot, id));
    }
    assert forall|slot: u64, id: u64| #[trigger] outlives(first, third, slot, id, now) by {
        assert(outlives(first, second, slot, id, now));
        assert(outlives(second, third, slot, id, now));
    }
}

/// A step that touches only queues keeps what it should.
pub proof fn lemma_same_core_keeps(
    before: CatalogView,
    after: CatalogView,
    pool: PoolView,
    now: CatalogTick,
)
    requires
        before.wf(),
        after.config == before.config,
        after.index == before.index,
        after.slots == before.slots,
        after.versions == before.versions,
        after.next_slot == before.next_slot,
        after.retired == before.retired,
        after.counters == before.counters,
        after.fitted == before.fitted,
    ensures
        keeps(before, after, pool, now),
{
    lemma_same_core(before, after);
}

/// A change of one version that leaves it live, and leaves its holders, its hard
/// pin and its lease, keeps what it should.
proof fn lemma_touch_keeps(
    before: CatalogView,
    after: CatalogView,
    slot: u64,
    id: u64,
    version: VersionView,
    pool: PoolView,
    now: CatalogTick,
)
    requires
        before.wf(),
        after.wf(),
        after.config == before.config,
        after.index == before.index,
        after.slots == before.slots,
        after.versions == before.versions.insert((slot, id), version),
        before.versions.contains_key((slot, id)),
        before.versions[(slot, id)].committed is Some,
        version.committed is Some,
        version.identity == before.versions[(slot, id)].identity,
        version.content == before.versions[(slot, id)].content,
        version.pins == before.versions[(slot, id)].pins,
        has_live(before.versions[(slot, id)].replicas, pool) ==> has_live(version.replicas, pool),
        version.access().hard_pinned == before.versions[(slot, id)].access().hard_pinned,
        version.access().lease_until == before.versions[(slot, id)].access().lease_until,
    ensures
        keeps(before, after, pool, now),
{
}

/// A change of the protection of one version that leaves its hard pin and its
/// lease keeps what it should.
proof fn lemma_access_keeps(
    before: CatalogView,
    slot: u64,
    id: u64,
    version: VersionView,
    pool: PoolView,
    now: CatalogTick,
)
    requires
        before.wf(),
        before.points_to(slot, id),
        version == before.versions[(slot, id)].with_access(version.access()),
        version.access().hard_pinned == before.versions[(slot, id)].access().hard_pinned,
        version.access().lease_until == before.versions[(slot, id)].access().lease_until,
    ensures
        keeps(before, before.with_version(slot, id, version), pool, now),
{
    assert(before.slot_wf(slot));
    assert(before.attached(slot, id));
    assert(before.version_wf(slot, id));
    lemma_version_touched(before, slot, id, version);
    lemma_touch_keeps(
        before,
        before.with_version(slot, id, version),
        slot,
        id,
        version,
        pool,
        now,
    );
}

/// Taking down a version that is not shielded keeps what it should.
proof fn lemma_take_down_keeps(
    before: CatalogView,
    slot: u64,
    pool: PoolView,
    now: CatalogTick,
)
    requires
        before.wf(),
        before.slots.contains_key(slot),
        before.slots[slot].committed is Some,
        before.slots[slot].active is None,
        !is_shielded(before, slot, before.slots[slot].committed.unwrap(), pool, now),
    ensures
        keeps(before, before.taken_down(slot, now), pool, now),
{
    lemma_taken_down(before, slot, now);
    let after = before.taken_down(slot, now);
    assert forall|k: u64, t: u64| #[trigger]
        is_shielded(before, k, t, pool, now) implies is_shielded(after, k, t, pool, now) by {
        assert(k != slot);
    }
}

/// Giving a staged write up keeps what it should.
proof fn lemma_abandon_keeps(before: CatalogView, slot: u64, pool: PoolView, now: CatalogTick)
    requires
        before.wf(),
        before.slots.contains_key(slot),
        before.slots[slot].staged() is Some,
    ensures
        keeps(before, before.abandoned(pool, slot, now), pool, now),
{
    lemma_abandoned(before, pool, slot, now);
    assert(before.slot_wf(slot));
}

pub proof fn lemma_soft_pin_pass_keeps(s: Sweep, n: nat, pool: PoolView, now: CatalogTick)
    requires
        s.catalog.wf(),
    ensures
        keeps(s.catalog, s.soft_pin_pass(n, now).catalog, pool, now),
        s.soft_pin_pass(n, now).report.scanned_candidates == s.report.scanned_candidates,
        s.soft_pin_pass(n, now).report.reclaimed_objects == s.report.reclaimed_objects,
        s.soft_pin_pass(n, now).report.removed_empty_slots == s.report.removed_empty_slots,
        s.soft_pin_pass(n, now).report.scanned_soft_pins <= s.report.scanned_soft_pins + n,
    decreases n,
{
    if n > 0 && s.catalog.soft_pins.len() > 0 {
        let item = s.catalog.soft_pins[0];
        let shorter = CatalogView { soft_pins: s.catalog.soft_pins.drop_first(), ..s.catalog };
        let next = s.soft_pin_step(now);
        lemma_same_core_keeps(s.catalog, shorter, pool, now);
        if shorter.points_to(item.0, item.1) {
            assert(shorter.slot_wf(item.0));
            let version = shorter.versions[(item.0, item.1)];
            if item.2 > now.value {
                lemma_same_core_keeps(shorter, next.catalog, pool, now);
                lemma_keeps_chain(s.catalog, shorter, next.catalog, pool, now);
            } else if version.access().soft_pin_until == item.2 {
                assert(shorter.version_wf(item.0, item.1));
                lemma_access_keeps(
                    shorter,
                    item.0,
                    item.1,
                    next.catalog.versions[(item.0, item.1)],
                    pool,
                    now,
                );
                lemma_keeps_chain(s.catalog, shorter, next.catalog, pool, now);
            }
        }
        assert(keeps(s.catalog, next.catalog, pool, now));
        lemma_soft_pin_pass_keeps(next, (n - 1) as nat, pool, now);
        lemma_keeps_chain(
            s.catalog,
            next.catalog,
            s.soft_pin_pass(n, now).catalog,
            pool,
            now,
        );
    }
}

/// The live replicas of a version that has some are live.
proof fn lemma_live_part_lives(replicas: Seq<ReplicaLease>, pool: PoolView)
    requires
        has_live(replicas, pool),
    ensures
        has_live(live_part(replicas, pool), pool),
        0 < live_part(replicas, pool).len() <= replicas.len(),
{
    let keep = |replica: ReplicaLease| replica.lives(pool);
    let i = choose|i: int| 0 <= i < replicas.len() && (#[trigger] replicas[i]).lives(pool);
    replicas.lemma_filter_contains(keep, i);
    replicas.lemma_filter_len(keep);
    let live = live_part(replicas, pool);
    assert(live.contains(replicas[i]));
    let j = choose|j: int| 0 <= j < live.len() && live[j] == replicas[i];
    assert(live[j].lives(pool));
}

pub proof fn lemma_liveness_step_keeps(s: Sweep, protected: bool, pool: PoolView, now: CatalogTick)
    requires
        s.catalog.wf(),
        s.catalog.queue(protected).len() > 0,
    ensures
        keeps(s.catalog, s.liveness_step(protected, pool, now).catalog, pool, now),
        s.liveness_step(protected, pool, now).report.scanned_candidates
            == bumped(s.report.scanned_candidates),
        s.liveness_step(protected, pool, now).report.reclaimed_objects
            == s.report.reclaimed_objects,
        s.liveness_step(protected, pool, now).report.removed_empty_slots
            == s.report.removed_empty_slots,
        s.liveness_step(protected, pool, now).report.scanned_soft_pins
            == s.report.scanned_soft_pins,
        s.liveness_step(protected, pool, now).scanned == s.scanned + 1,
{
    let item = s.catalog.queue(protected)[0];
    let catalog = s.catalog.with_queue(
        protected,
        s.catalog.queue(protected).drop_first(),
    ).with_sweep_left(protected, (s.catalog.sweep_left(protected) - 1) as usize);
    let next = s.liveness_step(protected, pool, now);
    lemma_same_core_keeps(s.catalog, catalog, pool, now);
    if catalog.points_to(item.0, item.1) {
        assert(catalog.slot_wf(item.0));
        let version = catalog.versions[(item.0, item.1)];
        if all_live(version.replicas, pool) || (!has_live(version.replicas, pool)
            && catalog.slots[item.0].active is Some) {
            lemma_same_core_keeps(catalog, next.catalog, pool, now);
        } else if !has_live(version.replicas, pool) {
            lemma_take_down_keeps(catalog, item.0, pool, now);
        } else {
            lemma_live_part_lives(version.replicas, pool);
            assert(catalog.version_wf(item.0, item.1));
            let pruned = catalog.pruned(pool, item.0, item.1);
            lemma_pruned(catalog, pool, item.0, item.1);
            lemma_touch_keeps(
                catalog,
                pruned,
                item.0,
                item.1,
                pruned.versions[(item.0, item.1)],
                pool,
                now,
            );
            lemma_same_core_keeps(pruned, next.catalog, pool, now);
            lemma_keeps_chain(catalog, pruned, next.catalog, pool, now);
        }
        lemma_keeps_chain(s.catalog, catalog, next.catalog, pool, now);
    }
}

pub proof fn lemma_liveness_round_keeps(
    s: Sweep,
    protected: bool,
    n: nat,
    pool: PoolView,
    now: CatalogTick,
)
    requires
        s.catalog.wf(),
    ensures
        keeps(s.catalog, s.liveness_round(protected, n, pool, now).catalog, pool, now),
        s.liveness_round(protected, n, pool, now).report.reclaimed_objects
            == s.report.reclaimed_objects,
        s.liveness_round(protected, n, pool, now).report.removed_empty_slots
            == s.report.removed_empty_slots,
        s.liveness_round(protected, n, pool, now).report.scanned_soft_pins
            == s.report.scanned_soft_pins,
        s.scanned <= s.liveness_round(protected, n, pool, now).scanned <= s.scanned + n,
        s.report.scanned_candidates <= s.scanned ==> s.liveness_round(
            protected,
            n,
            pool,
            now,
        ).report.scanned_candidates <= s.liveness_round(protected, n, pool, now).scanned,
    decreases n,
{
    let end = s.liveness_round(protected, n, pool, now);
    if n > 0 {
        if s.catalog.queue(protected).len() == 0 {
            lemma_same_core_keeps(s.catalog, end.catalog, pool, now);
        } else {
            let next = s.liveness_step(protected, pool, now);
            lemma_liveness_step_keeps(s, protected, pool, now);
            lemma_liveness_round_keeps(next, protected, (n - 1) as nat, pool, now);
            lemma_keeps_chain(s.catalog, next.catalog, end.catalog, pool, now);
        }
    }
}

pub proof fn lemma_pending_pass_keeps(s: Sweep, n: nat, pool: PoolView, now: CatalogTick)
    requires
        s.catalog.wf(),
    ensures
        keeps(s.catalog, s.pending_pass(n, pool, now).catalog, pool, now),
        s.pending_pass(n, pool, now).report.scanned_candidates == s.report.scanned_candidates,
        s.pending_pass(n, pool, now).report.reclaimed_objects == s.report.reclaimed_objects,
        s.pending_pass(n, pool, now).report.removed_empty_slots == s.report.removed_empty_slots,
        s.pending_pass(n, pool, now).report.scanned_soft_pins == s.report.scanned_soft_pins,
        s.pending_pass(n, pool, now).scanned == s.scanned,
    decreases n,
{
    if n > 0 && s.catalog.pending.len() > 0 {
        let item = s.catalog.pending[0];
        let catalog = CatalogView { pending: s.catalog.pending.drop_first(), ..s.catalog };
        let next = s.pending_step(pool, now);
        lemma_same_core_keeps(s.catalog, catalog, pool, now);
        let version = catalog.versions[(item.0, item.1)];
        let live = all_live(version.replicas, pool);
        if catalog.versions.contains_key((item.0, item.1)) && version.committed is None {
            if live && item.2 > now.value {
                lemma_same_core_keeps(catalog, next.catalog, pool, now);
                lemma_keeps_chain(s.catalog, catalog, next.catalog, pool, now);
            } else if catalog.is_pending(item.0, item.1) {
                lemma_abandon_keeps(catalog, item.0, pool, now);
                lemma_keeps_chain(s.catalog, catalog, next.catalog, pool, now);
            }
        }
        assert(keeps(s.catalog, next.catalog, pool, now));
        lemma_pending_pass_keeps(next, (n - 1) as nat, pool, now);
        lemma_keeps_chain(
            s.catalog,
            next.catalog,
            s.pending_pass(n, pool, now).catalog,
            pool,
            now,
        );
    }
}

pub proof fn lemma_evict_keeps(s: Sweep, item: WorkItem, protected: bool, pool: PoolView, now: CatalogTick)
    requires
        s.catalog.wf(),
    ensures
        keeps(s.catalog, s.evict(item, protected, now).catalog, pool, now),
        s.evict(item, protected, now).report.scanned_candidates == bumped(
            s.report.scanned_candidates,
        ),
        s.evict(item, protected, now).report.reclaimed_objects == s.report.reclaimed_objects,
        s.evict(item, protected, now).report.removed_empty_slots == s.report.removed_empty_slots,
        s.evict(item, protected, now).report.scanned_soft_pins == s.report.scanned_soft_pins,
        s.evict(item, protected, now).scanned == s.scanned,
{
    let catalog = s.catalog;
    let next = s.evict(item, protected, now);
    if catalog.points_to(item.0, item.1) {
        assert(catalog.slot_wf(item.0));
        let version = catalog.versions[(item.0, item.1)];
        let pinned = version.access().pinned(now, catalog.config.allow_evict_soft_pinned_objects);
        if pinned || catalog.slots[item.0].active is Some {
            lemma_same_core_keeps(catalog, next.catalog, pool, now);
        } else if version.access().recent {
            assert(catalog.version_wf(item.0, item.1));
            let shielded = CatalogView { protected: catalog.protected.push(item), ..catalog };
            lemma_same_core_keeps(catalog, shielded, pool, now);
            assert(shielded.version_wf(item.0, item.1));
            lemma_access_keeps(
                shielded,
                item.0,
                item.1,
                next.catalog.versions[(item.0, item.1)],
                pool,
                now,
            );
            lemma_keeps_chain(catalog, shielded, next.catalog, pool, now);
        } else if version.access().leased(now) {
            lemma_same_core_keeps(catalog, next.catalog, pool, now);
        } else {
            lemma_take_down_keeps(catalog, item.0, pool, now);
        }
    } else {
        lemma_same_core_keeps(catalog, next.catalog, pool, now);
    }
}

pub proof fn lemma_evict_round_keeps(s: Sweep, protected: bool, n: nat, pool: PoolView, now: CatalogTick)
    requires
        s.catalog.wf(),
    ensures
        keeps(s.catalog, s.evict_round(protected, n, now).catalog, pool, now),
        s.evict_round(protected, n, now).report.reclaimed_objects == s.report.reclaimed_objects,
        s.evict_round(protected, n, now).report.removed_empty_slots
            == s.report.removed_empty_slots,
        s.evict_round(protected, n, now).report.scanned_soft_pins == s.report.scanned_soft_pins,
        s.scanned <= s.evict_round(protected, n, now).scanned <= s.scanned + n,
        s.evict_round(protected, n, now).report.scanned_candidates - s.report.scanned_candidates
            <= s.evict_round(protected, n, now).scanned - s.scanned,
    decreases n,
{
    if n > 0 && !s.catalog.debt_covered() && s.catalog.queue(protected).len() > 0 {
        let taken = s.candidate_taken(protected);
        let item = s.catalog.queue(protected)[0];
        let next = taken.evict(item, protected, now);
        lemma_same_core_keeps(s.catalog, taken.catalog, pool, now);
        lemma_evict_keeps(taken, item, protected, pool, now);
        lemma_keeps_chain(s.catalog, taken.catalog, next.catalog, pool, now);
        lemma_evict_round_keeps(next, protected, (n - 1) as nat, pool, now);
        lemma_keeps_chain(
            s.catalog,
            next.catalog,
            s.evict_round(protected, n, now).catalog,
            pool,
            now,
        );
    } else {
        lemma_same_core_keeps(s.catalog, s.catalog, pool, now);
    }
}

pub proof fn lemma_scoped_step_keeps(s: ScopedSweep, protected: bool, pool: PoolView, now: CatalogTick)
    requires
        s.sweep.catalog.wf(),
        s.sweep.catalog.queue(protected).len() > 0,
    ensures
        keeps(s.sweep.catalog, s.step(protected, now).sweep.catalog, pool, now),
        s.step(protected, now).sweep.report.scanned_candidates == bumped(
            s.sweep.report.scanned_candidates,
        ),
        s.step(protected, now).sweep.report.reclaimed_objects == s.sweep.report.reclaimed_objects,
        s.step(protected, now).sweep.report.removed_empty_slots
            == s.sweep.report.removed_empty_slots,
        s.step(protected, now).sweep.report.scanned_soft_pins == s.sweep.report.scanned_soft_pins,
        s.step(protected, now).sweep.scanned == s.sweep.scanned + 1,
{
    let item = s.sweep.catalog.queue(protected)[0];
    let taken = s.sweep.candidate_taken(protected);
    let next = s.step(protected, now).sweep;
    lemma_same_core_keeps(s.sweep.catalog, taken.catalog, pool, now);
    if taken.catalog.points_to(item.0, item.1) {
        let version = taken.catalog.versions[(item.0, item.1)];
        if matching_target(s.debts, version, 0) is None {
            lemma_same_core_keeps(taken.catalog, next.catalog, pool, now);
        } else {
            lemma_evict_keeps(taken, item, protected, pool, now);
        }
        lemma_keeps_chain(s.sweep.catalog, taken.catalog, next.catalog, pool, now);
    }
}

pub proof fn lemma_scoped_round_keeps(
    s: ScopedSweep,
    protected: bool,
    n: nat,
    pool: PoolView,
    now: CatalogTick,
)
    requires
        s.sweep.catalog.wf(),
    ensures
        keeps(s.sweep.catalog, s.round(protected, n, now).sweep.catalog, pool, now),
        s.round(protected, n, now).sweep.report.reclaimed_objects
            == s.sweep.report.reclaimed_objects,
        s.round(protected, n, now).sweep.report.removed_empty_slots
            == s.sweep.report.removed_empty_slots,
        s.round(protected, n, now).sweep.report.scanned_soft_pins
            == s.sweep.report.scanned_soft_pins,
        s.sweep.scanned <= s.round(protected, n, now).sweep.scanned <= s.sweep.scanned + n,
        s.round(protected, n, now).sweep.report.scanned_candidates
            - s.sweep.report.scanned_candidates <= s.round(protected, n, now).sweep.scanned
            - s.sweep.scanned,
    decreases n,
{
    if n > 0 && !all_met(s.debts) && s.sweep.catalog.queue(protected).len() > 0 {
        let next = s.step(protected, now);
        lemma_scoped_step_keeps(s, protected, pool, now);
        lemma_scoped_round_keeps(next, protected, (n - 1) as nat, pool, now);
        lemma_keeps_chain(
            s.sweep.catalog,
            next.sweep.catalog,
            s.round(protected, n, now).sweep.catalog,
            pool,
            now,
        );
    } else {
        lemma_same_core_keeps(s.sweep.catalog, s.sweep.catalog, pool, now);
    }
}

pub proof fn lemma_reclaim_step_keeps(s: Sweep, pool: PoolView, now: CatalogTick)
    requires
        s.catalog.wf(),
        s.catalog.retired.len() > 0,
    ensures
        keeps(s.catalog, s.reclaim_step(now).catalog, pool, now),
        s.reclaim_step(now).report.scanned_candidates == s.report.scanned_candidates,
        s.reclaim_step(now).report.reclaimed_objects <= s.report.reclaimed_objects + 1,
        s.reclaim_step(now).report.removed_empty_slots == s.report.removed_empty_slots,
        s.reclaim_step(now).report.scanned_soft_pins == s.report.scanned_soft_pins,
{
    let item = s.catalog.retired[0];
    let version = s.catalog.versions[(item.0, item.1)];
    let after = s.reclaim_step(now).catalog;
    if item.3 > now.value || version.pins > 0 {
        lemma_retired_rotated(s.catalog, after);
    } else {
        lemma_version_gone(s.catalog, after);
        assert forall|slot: u64, id: u64| #[trigger]
            is_shielded(s.catalog, slot, id, pool, now) implies is_shielded(
            after,
            slot,
            id,
            pool,
            now,
        ) by {
            assert(s.catalog.attached(slot, id));
            assert(!s.catalog.attached(s.catalog.retired[0].0, s.catalog.retired[0].1));
        }
    }
}

proof fn lemma_reclaim_pass_keeps(s: Sweep, n: nat, pool: PoolView, now: CatalogTick)
    requires
        s.catalog.wf(),
    ensures
        keeps(s.catalog, s.reclaim_pass(n, now).catalog, pool, now),
        s.reclaim_pass(n, now).report.scanned_candidates == s.report.scanned_candidates,
        s.reclaim_pass(n, now).report.reclaimed_objects <= s.report.reclaimed_objects + n,
        s.reclaim_pass(n, now).report.removed_empty_slots == s.report.removed_empty_slots,
        s.reclaim_pass(n, now).report.scanned_soft_pins == s.report.scanned_soft_pins,
    decreases n,
{
    if n > 0 && s.catalog.retired.len() > 0 {
        let next = s.reclaim_step(now);
        lemma_reclaim_step_keeps(s, pool, now);
        lemma_reclaim_pass_keeps(next, (n - 1) as nat, pool, now);
        lemma_keeps_chain(s.catalog, next.catalog, s.reclaim_pass(n, now).catalog, pool, now);
    } else {
        lemma_same_core_keeps(s.catalog, s.catalog, pool, now);
    }
}

proof fn lemma_empty_pass_keeps(s: Sweep, n: nat, pool: PoolView, now: CatalogTick)
    requires
        s.catalog.wf(),
    ensures
        keeps(s.catalog, s.empty_pass(n, now).catalog, pool, now),
        s.empty_pass(n, now).report.scanned_candidates == s.report.scanned_candidates,
        s.empty_pass(n, now).report.reclaimed_objects == s.report.reclaimed_objects,
        s.empty_pass(n, now).report.removed_empty_slots <= s.report.removed_empty_slots + n,
        s.empty_pass(n, now).report.scanned_soft_pins == s.report.scanned_soft_pins,
    decreases n,
{
    if n > 0 && s.catalog.empty_slots.len() > 0 {
        let item = s.catalog.empty_slots[0];
        let catalog = CatalogView { empty_slots: s.catalog.empty_slots.drop_first(), ..s.catalog };
        let next = s.empty_step(now);
        lemma_same_core_keeps(s.catalog, catalog, pool, now);
        if item.1 > now.value {
            lemma_same_core_keeps(catalog, next.catalog, pool, now);
        } else if catalog.slots.contains_key(item.0) && catalog.slots[item.0].committed is None
            && catalog.slots[item.0].active is None {
            lemma_slot_gone(catalog, next.catalog, item.0);
        }
        assert(keeps(catalog, next.catalog, pool, now));
        lemma_keeps_chain(s.catalog, catalog, next.catalog, pool, now);
        lemma_empty_pass_keeps(next, (n - 1) as nat, pool, now);
        lemma_keeps_chain(s.catalog, next.catalog, s.empty_pass(n, now).catalog, pool, now);
    } else {
        lemma_same_core_keeps(s.catalog, s.catalog, pool, now);
    }
}

/// What a whole collector step keeps, and how much it does at most.
proof fn lemma_collected(
    catalog: CatalogView,
    pool: PoolView,
    now: CatalogTick,
    budget: CollectBudget,
    targets: Seq<ReclaimTarget>,
)
    requires
        catalog.wf(),
    ensures
        ({
            let after = catalog.collected(pool, now, budget, targets);
            &&& keeps(catalog, after.catalog, pool, now)
            &&& after.report.scanned_candidates <= budget.max_candidates
            &&& after.report.scanned_soft_pins <= budget.max_candidates
            &&& after.report.reclaimed_objects <= budget.max_reclaims
            &&& after.report.removed_empty_slots <= budget.max_empty_slots
        }),
{
    reveal(CatalogView::collected);
    let start = Sweep {
        catalog: catalog.sweep_begun(),
        report: CollectReport::nothing(),
        freed: Seq::empty(),
        scanned: 0,
    };
    let candidates = budget.max_candidates as nat;
    lemma_same_core_keeps(catalog, start.catalog, pool, now);
    let n = lesser(start.catalog.soft_pins.len(), candidates);
    let unpinned = start.soft_pin_pass(n, now);
    lemma_soft_pin_pass_keeps(start, n, pool, now);
    lemma_keeps_chain(catalog, start.catalog, unpinned.catalog, pool, now);
    let fresh = Sweep { scanned: 0, ..unpinned };
    let n = lesser(fresh.catalog.sweep_left(false) as nat, candidates);
    let young = fresh.liveness_round(false, n, pool, now);
    lemma_liveness_round_keeps(fresh, false, n, pool, now);
    lemma_keeps_chain(catalog, unpinned.catalog, young.catalog, pool, now);
    let n = lesser(young.catalog.sweep_left(true) as nat, (candidates - young.scanned) as nat);
    let checked = young.liveness_round(true, n, pool, now);
    lemma_liveness_round_keeps(young, true, n, pool, now);
    lemma_keeps_chain(catalog, young.catalog, checked.catalog, pool, now);
    assert(checked == unpinned.liveness_pass(candidates, pool, now));
    let n = lesser(checked.catalog.pending.len(), candidates);
    let expired = checked.pending_pass(n, pool, now);
    lemma_pending_pass_keeps(checked, n, pool, now);
    lemma_keeps_chain(catalog, checked.catalog, expired.catalog, pool, now);
    let evicted = expired.eviction_phase(candidates, targets, now);
    assert(expired.scanned <= candidates);
    assert(expired.report.scanned_candidates <= expired.scanned);
    if expired.catalog.sweep_left(false) == 0 && expired.catalog.sweep_left(true) == 0 {
        let left = (candidates - expired.scanned) as nat;
        let scoped = expired.scoped_pass(left, targets, now);
        let begin = Sweep { scanned: 0, ..expired };
        let debts = open_targets(targets);
        if left == 0 || debts.len() == 0 {
            assert(scoped == begin);
        } else {
            let first = ScopedSweep { sweep: begin, debts };
            let n = lesser(begin.catalog.young.len(), left);
            let half = first.round(false, n, now);
            lemma_scoped_round_keeps(first, false, n, pool, now);
            lemma_keeps_chain(catalog, expired.catalog, half.sweep.catalog, pool, now);
            let n = lesser(begin.catalog.protected.len(), (left - half.sweep.scanned) as nat);
            lemma_scoped_round_keeps(half, true, n, pool, now);
            lemma_keeps_chain(
                catalog,
                half.sweep.catalog,
                half.round(true, n, now).sweep.catalog,
                pool,
                now,
            );
            assert(scoped == half.round(true, n, now).sweep);
        }
        assert(keeps(catalog, scoped.catalog, pool, now));
        assert(scoped.scanned <= left);
        assert(scoped.report.scanned_candidates - expired.report.scanned_candidates
            <= scoped.scanned);
        let rest = (left - scoped.scanned) as nat;
        let again = Sweep { scanned: 0, ..scoped };
        let n = lesser(again.catalog.young.len(), rest);
        let half = again.evict_round(false, n, now);
        lemma_evict_round_keeps(again, false, n, pool, now);
        lemma_keeps_chain(catalog, scoped.catalog, half.catalog, pool, now);
        let n = lesser(again.catalog.protected.len(), (rest - half.scanned) as nat);
        lemma_evict_round_keeps(half, true, n, pool, now);
        assert(evicted == half.evict_round(true, n, now));
        lemma_keeps_chain(catalog, half.catalog, evicted.catalog, pool, now);
    }
    assert(keeps(catalog, evicted.catalog, pool, now));
    assert(evicted.report.scanned_candidates <= candidates);
    let n = lesser(evicted.catalog.retired.len(), budget.max_reclaims as nat);
    let reclaimed = evicted.reclaim_pass(n, now);
    lemma_reclaim_pass_keeps(evicted, n, pool, now);
    lemma_keeps_chain(catalog, evicted.catalog, reclaimed.catalog, pool, now);
    let n = lesser(reclaimed.catalog.empty_slots.len(), budget.max_empty_slots as nat);
    lemma_empty_pass_keeps(reclaimed, n, pool, now);
    lemma_keeps_chain(
        catalog,
        reclaimed.catalog,
        reclaimed.empty_pass(n, now).catalog,
        pool,
        now,
    );
}

/// A collector step never takes down a committed version that can still be read
/// and is leased or hard-pinned.
pub proof fn law_collector_spares_shielded_objects(
    catalog: CatalogView,
    pool: PoolView,
    now: CatalogTick,
    budget: CollectBudget,
    targets: Seq<ReclaimTarget>,
    slot: u64,
    id: u64,
)
    requires
        catalog.wf(),
        is_shielded(catalog, slot, id, pool, now),
    ensures
        is_shielded(catalog.collected(pool, now, budget, targets).catalog, slot, id, pool, now),
{
    lemma_collected(catalog, pool, now, budget, targets);
}

/// A collector step never releases a version that a handle or a transaction
/// token holds on to.
pub proof fn law_collector_keeps_held_versions(
    catalog: CatalogView,
    pool: PoolView,
    now: CatalogTick,
    budget: CollectBudget,
    targets: Seq<ReclaimTarget>,
    slot: u64,
    id: u64,
)
    requires
        catalog.wf(),
        is_held(catalog, slot, id),
    ensures
        is_held(catalog.collected(pool, now, budget, targets).catalog, slot, id),
{
    lemma_collected(catalog, pool, now, budget, targets);
}

/// A collector step keeps a catalog in order, and does no more than its budget
/// allows.
pub proof fn law_collector_stays_within_budget(
    catalog: CatalogView,
    pool: PoolView,
    now: CatalogTick,
    budget: CollectBudget,
    targets: Seq<ReclaimTarget>,
)
    requires
        catalog.wf(),
    ensures
        ({
            let after = catalog.collected(pool, now, budget, targets);
            &&& after.catalog.wf()
            &&& after.report.scanned_candidates <= budget.max_candidates
            &&& after.report.scanned_soft_pins <= budget.max_candidates
            &&& after.report.reclaimed_objects <= budget.max_reclaims
            &&& after.report.removed_empty_slots <= budget.max_empty_slots
        }),
{
    lemma_collected(catalog, pool, now, budget, targets);
}

/// A collector step releases only what is idle: a version that is gone afterwards
/// had no holder left, and where it was published its lease was over.
pub proof fn law_collector_releases_only_idle_versions(
    catalog: CatalogView,
    pool: PoolView,
    now: CatalogTick,
    budget: CollectBudget,
    targets: Seq<ReclaimTarget>,
    slot: u64,
    id: u64,
)
    requires
        catalog.wf(),
        catalog.versions.contains_key((slot, id)),
        !catalog.collected(pool, now, budget, targets).catalog.versions.contains_key((slot, id)),
    ensures
        catalog.versions[(slot, id)].pins == 0,
        catalog.versions[(slot, id)].committed is Some ==> catalog.versions[(
            slot,
            id,
        )].access().lease_until <= now.value,
{
    lemma_collected(catalog, pool, now, budget, targets);
    assert(outlives(
        catalog,
        catalog.collected(pool, now, budget, targets).catalog,
        slot,
        id,
        now,
    ));
}

/// The step that releases storage releases only what is retired, whose lease is
/// over and which nobody holds on to; everything else stays in store.
pub proof fn law_only_idle_retired_versions_are_released(
    s: Sweep,
    now: CatalogTick,
    slot: u64,
    id: u64,
)
    requires
        s.catalog.wf(),
        s.catalog.retired.len() > 0,
        s.catalog.versions.contains_key((slot, id)),
        !s.reclaim_step(now).catalog.versions.contains_key((slot, id)),
    ensures
        !s.catalog.attached(slot, id),
        s.catalog.is_retired(slot, id),
        s.catalog.versions[(slot, id)].pins == 0,
        s.catalog.versions[(slot, id)].committed is Some ==> s.catalog.versions[(
            slot,
            id,
        )].access().lease_until <= now.value,
{
    let item = s.catalog.retired[0];
    assert(s.catalog.retired[0].0 == slot && s.catalog.retired[0].1 == id);
    assert(!s.catalog.attached(s.catalog.retired[0].0, s.catalog.retired[0].1));
}

/// The counters say what the catalog holds: the slots, those with a committed
/// version, with a claim and with a staged write; and, as long as the bytes of all
/// versions have fitted, the bytes of the committed, staged and retired versions.
pub proof fn law_counters_say_what_there_is(catalog: CatalogView)
    requires
        catalog.wf(),
    ensures
        catalog.counters.slots == catalog.slots.dom().len(),
        catalog.counters.published_objects == marked(catalog.slots, Mark::Published),
        catalog.counters.claims == marked(catalog.slots, Mark::Claimed),
        catalog.counters.pending_objects == marked(catalog.slots, Mark::Staged),
        catalog.fitted ==> {
            &&& catalog.counters.live_bytes == weighs(
                catalog.slots,
                catalog.versions,
                Weight::Live,
            )
            &&& catalog.counters.pending_bytes == weighs(
                catalog.slots,
                catalog.versions,
                Weight::Pending,
            )
            &&& catalog.counters.retired_bytes == weighs(
                catalog.slots,
                catalog.versions,
                Weight::Retired,
            )
            &&& catalog.counters.retired_memory_bytes == weighs(
                catalog.slots,
                catalog.versions,
                Weight::RetiredMemory,
            )
        },
{
    reveal(counts);
}

/// Replacing an object gives it a greater version number and leaves the number of
/// objects and slots as they were. The bytes of the new version move from the
/// staged to the live ones, those of the old one from the live to the retired.
pub proof fn law_replacing_advances_the_version(
    catalog: CatalogView,
    slot: u64,
    commit: ObjectCommit,
    now: CatalogTick,
)
    requires
        catalog.wf(),
        catalog.fitted,
        catalog.slots.contains_key(slot),
        catalog.slots[slot].staged() is Some,
        catalog.slots[slot].committed is Some,
    ensures
        ({
            let after = catalog.published(slot, commit, now);
            let new = catalog.versions[(slot, catalog.slots[slot].staged().unwrap())];
            let old = catalog.current(slot);
            &&& after.slots[slot].committed == catalog.slots[slot].staged()
            &&& after.current(slot).committed.unwrap().id > old.committed.unwrap().id
            &&& after.counters.slots == catalog.counters.slots
            &&& after.counters.published_objects == catalog.counters.published_objects
            &&& after.counters.live_bytes == catalog.counters.live_bytes + new.reserved_bytes
                - old.reserved_bytes
            &&& after.counters.pending_objects == catalog.counters.pending_objects - 1
            &&& after.counters.pending_bytes == catalog.counters.pending_bytes
                - new.reserved_bytes
            &&& after.counters.retired_bytes == catalog.counters.retired_bytes
                + old.reserved_bytes
        }),
{
    let id = catalog.slots[slot].staged().unwrap();
    let base = catalog.slots[slot].committed.unwrap();
    assert(catalog.slot_wf(slot));
    lemma_tally(catalog, catalog, slot, id, base);
    reveal(counts);
    assert(shifts(catalog, catalog, Weight::Live, (slot, id), (slot, base)));
    assert(shifts(catalog, catalog, Weight::Pending, (slot, id), (slot, base)));
    assert(marked(catalog.slots, Mark::Staged) >= 1);
}

/// An object that is leased or hard-pinned is not removed unless the removal is
/// forced, and a forced removal of a committed, idle object succeeds.
pub proof fn law_removal_respects_protection(
    catalog: CatalogView,
    name: (u64, Seq<char>),
    now: CatalogTick,
)
    requires
        catalog.wf(),
        catalog.find(name) is Some,
        catalog.slots[catalog.index[name]].active is None,
        catalog.slots[catalog.index[name]].committed is Some,
    ensures
        ({
            let access = catalog.current(catalog.index[name]).access();
            &&& access.leased(now) || access.hard_pinned <==> catalog.remove_result(
                name,
                now,
                false,
            ) is Err
            &&& catalog.remove_result(name, now, true) is Ok
        }),
{
}

/// Whether two catalogs are the same catalog at different times.
pub open spec fn same_catalog(before: CatalogView, after: CatalogView) -> bool {
    after.catalog_id == before.catalog_id && after.config == before.config
}

proof fn lemma_soft_pin_ids(s: Sweep, n: nat, now: CatalogTick)
    ensures
        same_catalog(s.catalog, s.soft_pin_pass(n, now).catalog),
    decreases n,
{
    if n > 0 && s.catalog.soft_pins.len() > 0 {
        lemma_soft_pin_ids(s.soft_pin_step(now), (n - 1) as nat, now);
    }
}

proof fn lemma_liveness_ids(s: Sweep, protected: bool, n: nat, pool: PoolView, now: CatalogTick)
    ensures
        same_catalog(s.catalog, s.liveness_round(protected, n, pool, now).catalog),
    decreases n,
{
    if n > 0 && s.catalog.queue(protected).len() > 0 {
        lemma_liveness_ids(
            s.liveness_step(protected, pool, now),
            protected,
            (n - 1) as nat,
            pool,
            now,
        );
    }
}

proof fn lemma_pending_ids(s: Sweep, n: nat, pool: PoolView, now: CatalogTick)
    ensures
        same_catalog(s.catalog, s.pending_pass(n, pool, now).catalog),
    decreases n,
{
    if n > 0 && s.catalog.pending.len() > 0 {
        lemma_pending_ids(s.pending_step(pool, now), (n - 1) as nat, pool, now);
    }
}

proof fn lemma_scoped_ids(s: ScopedSweep, protected: bool, n: nat, now: CatalogTick)
    ensures
        same_catalog(s.sweep.catalog, s.round(protected, n, now).sweep.catalog),
    decreases n,
{
    if n > 0 && !all_met(s.debts) && s.sweep.catalog.queue(protected).len() > 0 {
        lemma_scoped_ids(s.step(protected, now), protected, (n - 1) as nat, now);
    }
}

proof fn lemma_evict_ids(s: Sweep, protected: bool, n: nat, now: CatalogTick)
    ensures
        same_catalog(s.catalog, s.evict_round(protected, n, now).catalog),
    decreases n,
{
    if n > 0 && !s.catalog.debt_covered() && s.catalog.queue(protected).len() > 0 {
        let next = s.candidate_taken(protected).evict(
            s.catalog.queue(protected)[0],
            protected,
            now,
        );
        lemma_evict_ids(next, protected, (n - 1) as nat, now);
    }
}

proof fn lemma_reclaim_ids(s: Sweep, n: nat, now: CatalogTick)
    ensures
        same_catalog(s.catalog, s.reclaim_pass(n, now).catalog),
    decreases n,
{
    if n > 0 && s.catalog.retired.len() > 0 {
        lemma_reclaim_ids(s.reclaim_step(now), (n - 1) as nat, now);
    }
}

proof fn lemma_empty_ids(s: Sweep, n: nat, now: CatalogTick)
    ensures
        same_catalog(s.catalog, s.empty_pass(n, now).catalog),
    decreases n,
{
    if n > 0 && s.catalog.empty_slots.len() > 0 {
        lemma_empty_ids(s.empty_step(now), (n - 1) as nat, now);
    }
}

/// A collector step leaves a catalog's number and configuration alone.
pub proof fn lemma_collected_ids(
    catalog: CatalogView,
    pool: PoolView,
    now: CatalogTick,
    budget: CollectBudget,
    targets: Seq<ReclaimTarget>,
)
    ensures
        same_catalog(catalog, catalog.collected(pool, now, budget, targets).catalog),
{
    reveal(CatalogView::collected);
    let start = Sweep {
        catalog: catalog.sweep_begun(),
        report: CollectReport::nothing(),
        freed: Seq::empty(),
        scanned: 0,
    };
    let candidates = budget.max_candidates as nat;
    let n = lesser(start.catalog.soft_pins.len(), candidates);
    let unpinned = start.soft_pin_pass(n, now);
    lemma_soft_pin_ids(start, n, now);
    let fresh = Sweep { scanned: 0, ..unpinned };
    let n = lesser(fresh.catalog.sweep_left(false) as nat, candidates);
    let young = fresh.liveness_round(false, n, pool, now);
    lemma_liveness_ids(fresh, false, n, pool, now);
    let n = lesser(young.catalog.sweep_left(true) as nat, (candidates - young.scanned) as nat);
    let checked = young.liveness_round(true, n, pool, now);
    lemma_liveness_ids(young, true, n, pool, now);
    let n = lesser(checked.catalog.pending.len(), candidates);
    let expired = checked.pending_pass(n, pool, now);
    lemma_pending_ids(checked, n, pool, now);
    let evicted = expired.eviction_phase(candidates, targets, now);
    if expired.catalog.sweep_left(false) == 0 && expired.catalog.sweep_left(true) == 0 {
        let left = if candidates < expired.scanned {
            0
        } else {
            (candidates - expired.scanned) as nat
        };
        let scoped = expired.scoped_pass(left, targets, now);
        let begin = Sweep { scanned: 0, ..expired };
        let debts = open_targets(targets);
        if left != 0 && debts.len() != 0 {
            let first = ScopedSweep { sweep: begin, debts };
            let n = lesser(begin.catalog.young.len(), left);
            let half = first.round(false, n, now);
            lemma_scoped_ids(first, false, n, now);
            let n = lesser(begin.catalog.protected.len(), (left - half.sweep.scanned) as nat);
            lemma_scoped_ids(half, true, n, now);
        }
        let rest = if left < scoped.scanned {
            0
        } else {
            (left - scoped.scanned) as nat
        };
        let again = Sweep { scanned: 0, ..scoped };
        let n = lesser(again.catalog.young.len(), rest);
        let half = again.evict_round(false, n, now);
        lemma_evict_ids(again, false, n, now);
        let n = lesser(again.catalog.protected.len(), (rest - half.scanned) as nat);
        lemma_evict_ids(half, true, n, now);
    }
    let n = lesser(evicted.catalog.retired.len(), budget.max_reclaims as nat);
    let reclaimed = evicted.reclaim_pass(n, now);
    lemma_reclaim_ids(evicted, n, now);
    let n = lesser(reclaimed.catalog.empty_slots.len(), budget.max_empty_slots as nat);
    lemma_empty_ids(reclaimed, n, now);
}

} // verus!
