//! What maintenance rounds and ends of writes promise of an object store.

use super::catalog::laws::lemma_same_core_keeps;
use super::catalog::rounds::law_collector_takes_down_lost_objects;
use super::catalog::state::CatalogView;
use super::config::{ObjectCatalogConfig, ResolvedObjectPinRequest};
use super::error::ObjectManagerError;
use super::eviction::{law_watermarks_scale, lemma_part_of};
use super::identity::ObjectIdentity;
use super::manager::{
    access_fault, selected_names, shortfall_of, AllocationShortfall, ManagerView, ObjectPutPlan,
    PreparedPut, PutRequest, PutTry, ReplicaSelector, Store,
};
use super::reclamation::{CatalogTick, CollectBudget, CollectReport, ReclaimFilter, ReclaimTarget};
use super::replica::numbered;
use super::write::WriteOwner;
use crate::segment::placement::PlacementError;
use crate::segment::pool::PoolView;
use crate::segment::reservation::Reservation;
use crate::segment::spec::ReplicaClass;
use vstd::prelude::*;

verus! {

/// Eviction is stopped by a round only at the low watermark: where it was under way,
/// or more than the high share of the memory was used when the round began, and more
/// than the low share is used after the round, it is still under way, and the next
/// round asks for the use less the low share. It ends where no more than the low share
/// is used, and does not start between the two shares.
pub proof fn law_maintenance_evicts_to_the_low_watermark(
    store: Store,
    after: Store,
    now: CatalogTick,
    budget: CollectBudget,
    targets: Seq<ReclaimTarget>,
    report: CollectReport,
    next_targets: Seq<ReclaimTarget>,
)
    requires
        store.manager.wf(),
        store.maintained(after, now, budget, targets, report),
        store.manager.eviction is Some,
        store.pool.space_of(ReplicaClass::Memory).capacity_bytes > 0,
        after.pool.space_of(ReplicaClass::Memory).capacity_bytes > 0,
    ensures
        ({
            let was = store.manager.eviction.unwrap();
            let ended = after.manager.eviction.unwrap();
            let before = store.pool.space_of(ReplicaClass::Memory);
            let space = after.pool.space_of(ReplicaClass::Memory);
            let low_before = (before.capacity_bytes * was.config.low_watermark_ppm) / 1_000_000;
            let high_before = (before.capacity_bytes * was.config.high_watermark_ppm) / 1_000_000;
            let low = (space.capacity_bytes * was.config.low_watermark_ppm) / 1_000_000;
            let target = after.manager.pressed_targets(after.pool, next_targets).last();
            let under_way = before.used_bytes > high_before || (was.watermark_active
                && before.used_bytes > low_before);
            &&& after.manager.eviction is Some
            &&& ended.config == was.config
            &&& after.manager.pressed_targets(after.pool, next_targets).len() == next_targets.len()
                + 1
            &&& forall|i: int|
                0 <= i < next_targets.len() ==> #[trigger] after.manager.pressed_targets(
                    after.pool,
                    next_targets,
                )[i] == next_targets[i]
            &&& target.filter == ReclaimFilter::Class(ReplicaClass::Memory)
            &&& under_way && space.used_bytes > low ==> {
                &&& ended.watermark_active
                &&& target.bytes >= space.used_bytes - low
                &&& ended.allocation_reclaim_bytes == 0 ==> target.bytes == space.used_bytes - low
            }
            &&& space.used_bytes <= low ==> !ended.watermark_active
            &&& !under_way ==> !ended.watermark_active
        }),
{
    let was = store.manager.eviction.unwrap();
    let before = store.pool.space_of(ReplicaClass::Memory);
    let space = after.pool.space_of(ReplicaClass::Memory);
    lemma_part_of(before.capacity_bytes, was.config.low_watermark_ppm);
    lemma_part_of(before.capacity_bytes, was.config.high_watermark_ppm);
    lemma_part_of(space.capacity_bytes, was.config.low_watermark_ppm);
    law_watermarks_scale(
        before.capacity_bytes,
        before.capacity_bytes,
        was.config.low_watermark_ppm,
        was.config.high_watermark_ppm,
    );
}

/// Without eviction a round is given no targets of its own, and with it the round's
/// own target covers what failed allocations lacked.
pub proof fn law_failed_allocations_press(
    store: Store,
    shortfall: AllocationShortfall,
    targets: Seq<ReclaimTarget>,
)
    ensures
        store.manager.eviction is None ==> store.manager.pressed_targets(store.pool, targets)
            == targets,
        store.manager.eviction is Some ==> ({
            let pressed = store.failure_noted(shortfall).manager.pressed_targets(
                store.pool,
                targets,
            );
            &&& pressed.len() == targets.len() + 1
            &&& pressed.last().bytes >= shortfall.reclaim_bytes
            &&& pressed.last().filter == ReclaimFilter::Class(ReplicaClass::Memory)
        }),
{
}

/// What an allocation lacks: a whole request lacks every replica that was not placed,
/// one that takes what it gets lacks a single replica.
pub proof fn law_shortfall(plan: ObjectPutPlan, requested: usize, allocated: usize)
    requires
        allocated <= requested,
    ensures
        ({
            let bytes = plan.placement.allocation.bytes;
            let lack = shortfall_of(plan, requested, allocated);
            &&& lack.allocation_bytes == bytes
            &&& plan.placement.fulfillment is BestEffort ==> lack.reclaim_bytes == bytes
            &&& plan.placement.fulfillment is AllOrNothing && bytes * (requested - allocated)
                <= u64::MAX ==> lack.reclaim_bytes == bytes * (requested - allocated)
            &&& plan.placement.fulfillment is AllOrNothing && bytes * (requested - allocated)
                > u64::MAX ==> lack.reclaim_bytes == u64::MAX
        }),
{
}

/// A write is tried again only where a replica fits after the round that the failed
/// try brought about, and where that round changed something: it reclaimed memory,
/// less is used, or a larger range is free.
pub proof fn law_retry_needs_room(
    store: Store,
    after: Store,
    shortfall: AllocationShortfall,
    now: CatalogTick,
)
    requires
        store.manager.eviction is Some,
        store.evicted_for(after, shortfall, now, true),
    ensures
        ({
            let before = store.pool.space_of(ReplicaClass::Memory);
            let space = after.pool.space_of(ReplicaClass::Memory);
            &&& space.largest_free_region_bytes >= shortfall.allocation_bytes
            &&& exists|report: CollectReport|
                {
                    &&& #[trigger] store.failure_noted(shortfall).maintained(
                        after,
                        now,
                        store.manager.eviction.unwrap().config.allocation_failure_budget,
                        Seq::empty(),
                        report,
                    )
                    &&& report.reclaimed_memory_bytes > 0 || space.used_bytes < before.used_bytes
                        || space.largest_free_region_bytes > before.largest_free_region_bytes
                }
        }),
{
    let report = choose|report: CollectReport|
        {
            &&& #[trigger] store.failure_noted(shortfall).maintained(
                after,
                now,
                store.manager.eviction.unwrap().config.allocation_failure_budget,
                Seq::empty(),
                report,
            )
            &&& true == store.made_room(after, shortfall, report)
        };
    assert(store.failure_noted(shortfall).maintained(
        after,
        now,
        store.manager.eviction.unwrap().config.allocation_failure_budget,
        Seq::empty(),
        report,
    ));
}

/// Only the session that began a write may end it, and only with a selector that
/// speaks of memory replicas; who asks is looked at first.
pub proof fn law_only_the_owner_ends_a_write(
    actual: WriteOwner,
    has_replica: bool,
    owner: WriteOwner,
    selector: ReplicaSelector,
)
    ensures
        ({
            let fault = access_fault(actual, has_replica, owner, selector);
            &&& actual != owner ==> fault == Some(ObjectManagerError::IllegalOwner)
            &&& fault is None ==> actual == owner && has_replica
            &&& actual == owner && has_replica && selector == ReplicaSelector::All ==> fault is None
            &&& actual == owner && has_replica && selector == ReplicaSelector::Class(
                ReplicaClass::Memory,
            ) ==> fault is None
            &&& (selector matches ReplicaSelector::Class(class) ==> class != ReplicaClass::Memory
                ==> fault is Some)
        }),
{
}

/// The end of a write. Another session than the one that began it can neither finish
/// nor revoke it; what is not there is not found; a write that is staged for this
/// session with a replica can be revoked, whoever's committed version it would
/// replace; a version that is committed cannot be revoked. What is refused changes
/// nothing.
pub proof fn law_writes_end_for_their_owners(
    catalog: CatalogView,
    pool: PoolView,
    name: (u64, Seq<char>),
    owner: WriteOwner,
    now: CatalogTick,
)
    requires
        catalog.wf(),
    ensures
        ({
            let there = catalog.index.contains_key(name);
            let slot = catalog.slots[catalog.index[name]];
            let staged = slot.staged();
            let version = catalog.versions[(catalog.index[name], staged.unwrap())];
            let finish = catalog.finish_result(pool, name, owner, ReplicaSelector::All);
            let revoke = catalog.revoke_result(pool, name, owner, ReplicaSelector::All);
            &&& !there ==> finish is Err && revoke == Err::<(), ObjectManagerError>(
                ObjectManagerError::NotFound,
            )
            &&& there && staged is Some && version.owner != owner ==> finish == Err::<
                (),
                ObjectManagerError,
            >(ObjectManagerError::IllegalOwner) && revoke == Err::<(), ObjectManagerError>(
                ObjectManagerError::IllegalOwner,
            )
            &&& there && staged is Some && version.owner == owner && version.replicas.len() > 0
                ==> revoke is Ok
            &&& revoke is Ok ==> there && staged is Some && version.owner == owner
            &&& finish is Err ==> catalog.finished(pool, name, owner, ReplicaSelector::All, now)
                == catalog
            &&& revoke is Err ==> catalog.write_revoked(
                pool,
                name,
                owner,
                ReplicaSelector::All,
                now,
            ) == catalog
            &&& revoke is Ok ==> ({
                let after = catalog.write_revoked(pool, name, owner, ReplicaSelector::All, now);
                &&& after.slots[catalog.index[name]].active is None
                &&& after.slots[catalog.index[name]].committed == slot.committed
                &&& after.retired == catalog.retired.push(
                    (catalog.index[name], staged.unwrap(), version.reserved_bytes, now.value),
                )
            })
        }),
{
    if catalog.index.contains_key(name) {
        assert(catalog.slot_wf(catalog.index[name]));
    }
}

/// Where a try places too little and nothing can be evicted, the write fails for want of
/// replicas, and the claim is given up with it.
pub proof fn law_without_eviction_a_short_try_fails(
    store: Store,
    after: Store,
    request: PutRequest,
    retries: nat,
    generation: Option<u64>,
    attempt: PutTry,
    outcome: Result<PreparedPut, ObjectManagerError>,
)
    requires
        store.tried(after, request, retries, generation, attempt, outcome),
        store.manager.eviction is None,
    ensures
        attempt.placed matches Ok(set) ==> set@.len() == 0 ==> outcome == Err::<
            PreparedPut,
            ObjectManagerError,
        >(ObjectManagerError::NoAvailableReplicas),
        attempt.placed matches Err(PlacementError::InsufficientReplicas { requested, allocated })
            ==> outcome == Err::<PreparedPut, ObjectManagerError>(
            ObjectManagerError::NoAvailableReplicas,
        ),
        attempt.placed is Err ==> outcome is Err,
        after.pool == attempt.pool || outcome is Err,
        outcome matches Ok(put) ==> attempt.placed is Ok && put.claim == attempt.claim
            && put.replicas@.len() == attempt.placed->Ok_0@.len() && put.replicas@.len() > 0
            && after.manager.catalog == attempt.claimed,
{
    reveal(Store::tried);
}

/// Tries end: where as many were made as are allowed, a try that places too little is
/// the last one.
pub proof fn law_tries_are_bounded(
    store: Store,
    after: Store,
    request: PutRequest,
    retries: nat,
    generation: Option<u64>,
    attempt: PutTry,
    outcome: Result<PreparedPut, ObjectManagerError>,
)
    requires
        store.tried(after, request, retries, generation, attempt, outcome),
        store.manager.eviction is Some,
        retries >= store.manager.eviction.unwrap().config.allocation_retry_limit,
        attempt.placed is Err && attempt.placed->Err_0 is InsufficientReplicas || (attempt.placed
            is Ok && attempt.placed->Ok_0@.len() == 0),
    ensures
        outcome == Err::<PreparedPut, ObjectManagerError>(ObjectManagerError::NoAvailableReplicas),
{
    reveal(Store::tried);
}

/// Replicas of an object are numbered from one on, in the order in which they were
/// placed.
pub proof fn law_replicas_are_numbered(reservations: Seq<Reservation>, i: int)
    requires
        0 <= i < reservations.len() <= u32::MAX,
    ensures
        numbered(reservations).len() == reservations.len(),
        numbered(reservations)[i].id.value == i + 1,
        numbered(reservations)[i].reservation == reservations[i],
{
}

/// A plan is taken where it stores something, asks for replicas of the object's own
/// length, and asks for pins that the catalog grants.
pub proof fn law_plans_that_are_taken(plan: ObjectPutPlan, config: ObjectCatalogConfig)
    ensures
        plan.checked(config) is Ok <==> plan.content.logical_bytes > 0
            && plan.placement.allocation.bytes == plan.content.logical_bytes
            && plan.placement.replicas.count > 0 && config.resolved(plan.pins) is Ok,
        plan.checked(config) is Err ==> plan.checked(config) == Err::<
            ResolvedObjectPinRequest,
            ObjectManagerError,
        >(ObjectManagerError::InvalidPlan),
        plan.checked(config) is Ok ==> plan.checked(config)->Ok_0.with_hard_pin
            == plan.pins.with_hard_pin,
{
}

/// Removals change slots of their own names only, and only by taking down what is
/// committed there.
proof fn lemma_removed_all(
    catalog: CatalogView,
    names: Seq<(u64, Seq<char>)>,
    now: CatalogTick,
    force: bool,
    name: (u64, Seq<char>),
)
    requires
        catalog.wf(),
        catalog.index.contains_key(name),
    ensures
        ({
            let after = catalog.removed_all(names, now, force);
            let slot = catalog.index[name];
            let id = catalog.slots[slot].committed.unwrap();
            &&& after.index == catalog.index
            &&& after.slots.dom() == catalog.slots.dom()
            &&& after.slots[slot].active == catalog.slots[slot].active
            &&& after.slots[slot].committed == catalog.slots[slot].committed
                || after.slots[slot].committed is None
            &&& after.versions[(slot, id)].committed == catalog.versions[(slot, id)].committed
            &&& !names.contains(name) ==> after.slots[slot] == catalog.slots[slot]
                && after.versions[(slot, id)] == catalog.versions[(slot, id)]
        }),
    decreases names.len(),
{
    if names.len() > 0 {
        let fewer = names.drop_last();
        let last = names.last();
        lemma_removed_all(catalog, fewer, now, force, name);
        let before = catalog.removed_all(fewer, now, force);
        assert(catalog.slots[catalog.index[name]].identity@ == name);
        if catalog.index.contains_key(last) {
            lemma_removed_all(catalog, fewer, now, force, last);
            assert(catalog.slots[catalog.index[last]].identity@ == last);
        }
        if fewer.contains(name) {
            let k = choose|k: int| 0 <= k < fewer.len() && fewer[k] == name;
            assert(names[k] == name);
        }
        assert(names[names.len() - 1] == last);
        let after = catalog.removed_all(names, now, force);
        assert(after == before.removed(last, now, force));
        assert(after.slots.dom() =~= catalog.slots.dom());
    }
}

/// Removing several objects removes each of them that is committed, that no write is
/// about to replace and, unless it is forced, that is neither leased nor hard-pinned.
/// Objects that are not named stay as they were.
pub proof fn law_removing_several(
    catalog: CatalogView,
    names: Seq<(u64, Seq<char>)>,
    now: CatalogTick,
    force: bool,
    name: (u64, Seq<char>),
)
    requires
        catalog.wf(),
        catalog.index.contains_key(name),
    ensures
        ({
            let after = catalog.removed_all(names, now, force);
            let slot = catalog.index[name];
            let held = catalog.slots[slot];
            let access = catalog.versions[(slot, held.committed.unwrap())].committed.unwrap().access;
            &&& !names.contains(name) ==> after.slots[slot] == held
            &&& names.contains(name) && held.active is None && (force || (access.lease_until
                <= now.value && !access.hard_pinned)) ==> after.slots[slot].committed is None
            &&& held.active is Some ==> after.slots[slot].committed == held.committed
            &&& held.committed is Some && !force && (access.lease_until > now.value
                || access.hard_pinned) ==> after.slots[slot].committed == held.committed
        }),
    decreases names.len(),
{
    let slot = catalog.index[name];
    let held = catalog.slots[slot];
    let id = held.committed.unwrap();
    lemma_removed_all(catalog, names, now, force, name);
    if names.len() > 0 {
        let fewer = names.drop_last();
        let last = names.last();
        law_removing_several(catalog, fewer, now, force, name);
        lemma_removed_all(catalog, fewer, now, force, name);
        let before = catalog.removed_all(fewer, now, force);
        let after = catalog.removed_all(names, now, force);
        assert(after == before.removed(last, now, force));
        assert(catalog.slots[slot].identity@ == name);
        if catalog.index.contains_key(last) {
            assert(catalog.slots[catalog.index[last]].identity@ == last);
        }
        if names.contains(name) && last != name {
            let k = choose|k: int| 0 <= k < names.len() && names[k] == name;
            assert(fewer[k] == name);
        }
    }
}

/// The names that a selection comes to are those of the objects that are selected.
pub proof fn law_selected_names(
    identities: Seq<ObjectIdentity>,
    selected: Seq<bool>,
    name: (u64, Seq<char>),
)
    requires
        identities.len() <= selected.len(),
    ensures
        selected_names(identities, selected).contains(name) <==> exists|i: int|
            0 <= i < identities.len() && selected[i] && (#[trigger] identities[i])@ == name,
        selected_names(identities, selected).len() <= identities.len(),
    decreases identities.len(),
{
    if identities.len() > 0 {
        let fewer = identities.drop_last();
        let last = identities.len() - 1;
        law_selected_names(fewer, selected, name);
        let before = selected_names(fewer, selected);
        let after = selected_names(identities, selected);
        if before.contains(name) {
            let k = choose|k: int| 0 <= k < before.len() && before[k] == name;
            assert(after[k] == name);
            let i = choose|i: int|
                0 <= i < fewer.len() && selected[i] && (#[trigger] fewer[i])@ == name;
            assert(identities[i] == fewer[i]);
        }
        if selected[last] && identities[last]@ == name {
            assert(after[after.len() - 1] == name);
        }
        if after.contains(name) && !before.contains(name) {
            let k = choose|k: int| 0 <= k < after.len() && after[k] == name;
            assert(k == after.len() - 1);
            assert(identities[last]@ == name && selected[last]);
        }
        if exists|i: int|
            0 <= i < identities.len() && selected[i] && (#[trigger] identities[i])@ == name {
            let i = choose|i: int|
                0 <= i < identities.len() && selected[i] && (#[trigger] identities[i])@ == name;
            if i < last {
                assert(fewer[i] == identities[i]);
            }
        }
    }
}

/// Asking whether an object is there leaves its pins as they were and takes nothing
/// down; what it finds is leased as by a read.
pub proof fn law_probing(catalog: CatalogView, pool: PoolView, name: (u64, Seq<char>), now: CatalogTick)
    requires
        catalog.wf(),
        catalog.could_be_read(pool, name),
    ensures
        ({
            let after = catalog.probed(pool, name, now);
            let slot = catalog.index[name];
            let id = catalog.slots[slot].committed.unwrap();
            let was = catalog.versions[(slot, id)];
            let version = after.versions[(slot, id)];
            let end = version.committed.unwrap().access.lease_until;
            let ttl = catalog.config.lease_ttl_ticks;
            &&& after.slots == catalog.slots
            &&& after.index == catalog.index
            &&& after.retired == catalog.retired
            &&& was.pins < u64::MAX ==> version.pins == was.pins
            &&& version.committed.unwrap().access.recent
            &&& end >= was.committed.unwrap().access.lease_until
            &&& end == was.committed.unwrap().access.lease_until || end == now.value + ttl || end
                == u64::MAX
            &&& after.could_be_read(pool, name)
        }),
{
    assert(catalog.slot_wf(catalog.index[name]));
}

/// A round after segments were lost takes down what was on them: where the pool was
/// invalidated since the last round, a young candidate of which no replica is left, and
/// that no write is about to replace, is not committed any more after the round, as far
/// as the budget reaches. The round notes what it has seen.
pub proof fn law_maintenance_notices_lost_segments(
    store: Store,
    after: Store,
    now: CatalogTick,
    budget: CollectBudget,
    targets: Seq<ReclaimTarget>,
    report: CollectReport,
    i: int,
)
    requires
        store.manager.wf(),
        store.maintained(after, now, budget, targets, report),
        store.manager.observed_epoch != store.pool.invalidation_epoch,
        store.manager.catalog.young.len() <= usize::MAX,
        store.manager.catalog.protected.len() <= usize::MAX,
        0 <= i < store.manager.catalog.young.len(),
        i < budget.max_candidates,
        store.manager.catalog.slots[store.manager.catalog.young[i].0].active is None,
        forall|k: int|
            0 <= k < store.manager.catalog.versions[(
                store.manager.catalog.young[i].0,
                store.manager.catalog.young[i].1,
            )].replicas.len() ==> !store.pool.is_live(
                (#[trigger] store.manager.catalog.versions[(
                    store.manager.catalog.young[i].0,
                    store.manager.catalog.young[i].1,
                )].replicas[k]).reservation,
            ),
    ensures
        ({
            let item = store.manager.catalog.young[i];
            let slots = after.manager.catalog.slots;
            &&& !(slots.contains_key(item.0) && slots[item.0].committed == Some(item.1))
            &&& after.manager.observed_epoch == store.pool.invalidation_epoch
        }),
{
    let catalog = store.manager.noticed(store.pool);
    lemma_same_core_keeps(store.manager.catalog, catalog, store.pool, now);
    law_collector_takes_down_lost_objects(
        catalog,
        store.pool,
        now,
        budget,
        store.manager.pressed_targets(store.pool, targets),
        false,
        i,
    );
}

/// A write is given up after a failed try only where no replica fits even after the
/// round that followed, or where that round changed nothing, or was kept from working.
pub proof fn law_giving_up_needs_a_reason(
    store: Store,
    after: Store,
    shortfall: AllocationShortfall,
    now: CatalogTick,
)
    requires
        store.manager.eviction is Some,
        store.evicted_for(after, shortfall, now, false),
    ensures
        ({
            let before = store.pool.space_of(ReplicaClass::Memory);
            let space = after.pool.space_of(ReplicaClass::Memory);
            exists|report: CollectReport|
                {
                    &&& #[trigger] store.failure_noted(shortfall).maintained(
                        after,
                        now,
                        store.manager.eviction.unwrap().config.allocation_failure_budget,
                        Seq::empty(),
                        report,
                    )
                    &&& report.busy || space.largest_free_region_bytes < shortfall.allocation_bytes
                        || (report.reclaimed_memory_bytes == 0 && space.used_bytes
                        >= before.used_bytes && space.largest_free_region_bytes
                        <= before.largest_free_region_bytes)
                }
        }),
{
    let report = choose|report: CollectReport|
        {
            &&& #[trigger] store.failure_noted(shortfall).maintained(
                after,
                now,
                store.manager.eviction.unwrap().config.allocation_failure_budget,
                Seq::empty(),
                report,
            )
            &&& false == store.made_room(after, shortfall, report)
        };
    assert(store.failure_noted(shortfall).maintained(
        after,
        now,
        store.manager.eviction.unwrap().config.allocation_failure_budget,
        Seq::empty(),
        report,
    ));
}

/// Tries are counted, those that were made again and those of them that succeeded; and
/// counting them changes nothing else of the controller.
pub proof fn law_retries_are_counted(manager: ManagerView, success: bool)
    requires
        manager.eviction is Some,
    ensures
        ({
            let was = manager.eviction.unwrap();
            let counted = manager.retry_counted(success).eviction.unwrap();
            &&& counted.watermark_active == was.watermark_active
            &&& counted.allocation_reclaim_bytes == was.allocation_reclaim_bytes
            &&& counted.config == was.config
            &&& !success && was.stats.allocation_retries < u64::MAX
                ==> counted.stats.allocation_retries == was.stats.allocation_retries + 1
                && counted.stats.allocation_retry_successes == was.stats.allocation_retry_successes
            &&& success && was.stats.allocation_retry_successes < u64::MAX
                ==> counted.stats.allocation_retry_successes
                == was.stats.allocation_retry_successes + 1 && counted.stats.allocation_retries
                == was.stats.allocation_retries
        }),
{
}

} // verus!
