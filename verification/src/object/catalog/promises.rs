//! What reading, writing and evicting promise, field by field.

use super::super::config::{ResolvedObjectPinRequest, SoftPinAction};
use super::super::content::ObjectContent;
use super::super::error::{
    AbortError, BeginError, CommitError, LookupError, RemoveError, StageError,
};
use super::super::reclamation::CatalogTick;
use super::super::replica::{
    all_live, has_live, live_part, replica_bytes, stale_part, ReplicaLease,
};
use super::super::tenant::quota::QuotaReservationGuard;
use super::super::tenant::types::TenantResourceClass;
use super::super::write::{ObjectCommit, WriteMode, WriteOwner};
use super::queue::WorkItem;
use super::read::ObjectRead;
use super::state::{CatalogView, TransactionPhase};
use super::sweep::Sweep;
use super::write::{first_dead, first_small, replica_fault, CommitPath, WriteClaim};
use crate::client::lifecycle::RegistryView;
use crate::segment::pool::PoolView;
use vstd::prelude::*;

verus! {

/// A lookup finds exactly what is committed and has a replica whose segment is
/// mounted. An object whose first write is under way is not ready; any other is not
/// found.
pub proof fn law_lookup_finds_what_can_be_read(
    catalog: CatalogView,
    pool: PoolView,
    name: (u64, Seq<char>),
)
    requires
        catalog.wf(),
    ensures
        ({
            let slot = catalog.index[name];
            let there = catalog.index.contains_key(name);
            let id = catalog.slots[slot].committed;
            let replicas = catalog.versions[(slot, id.unwrap())].replicas;
            &&& catalog.get_result(pool, name) is Ok <==> there && id is Some && exists|k: int|
                0 <= k < replicas.len() && pool.is_live((#[trigger] replicas[k]).reservation)
            &&& catalog.get_result(pool, name) matches Ok(found) ==> found.0 == slot && Some(
                found.1,
            ) == id
            &&& catalog.get_result(pool, name) == Err::<(u64, u64), LookupError>(
                LookupError::NotReady,
            ) <==> there && id is None && catalog.slots[slot].active is Some
            &&& catalog.get_result(pool, name) is Err ==> catalog.get_result(pool, name) == Err::<
                (u64, u64),
                LookupError,
            >(LookupError::NotReady) || catalog.get_result(pool, name) == Err::<
                (u64, u64),
                LookupError,
            >(LookupError::NotFound)
        }),
{
    let slot = catalog.index[name];
    let replicas = catalog.versions[(slot, catalog.slots[slot].committed.unwrap())].replicas;
    if has_live(replicas, pool) {
        let k = choose|k: int| 0 <= k < replicas.len() && (#[trigger] replicas[k]).lives(pool);
        assert(pool.is_live(replicas[k].reservation));
    }
    if exists|k: int| 0 <= k < replicas.len() && pool.is_live((#[trigger] replicas[k]).reservation) {
        let k = choose|k: int|
            0 <= k < replicas.len() && pool.is_live((#[trigger] replicas[k]).reservation);
        assert(replicas[k].lives(pool));
    }
}

/// A lookup of a committed object leases it: the lease then runs at least as long
/// as the refresh period from now on and never ends earlier than before, and where
/// it is extended it runs for the whole lease period. A lease that already runs
/// that long stays. The version counts as read, keeps its pins, and is held once
/// more where it was found. Nothing else changes.
pub proof fn law_lookup_leases_what_it_finds(
    catalog: CatalogView,
    pool: PoolView,
    name: (u64, Seq<char>),
    now: CatalogTick,
)
    requires
        catalog.wf(),
        catalog.index.contains_key(name),
        catalog.slots[catalog.index[name]].committed is Some,
    ensures
        ({
            let slot = catalog.index[name];
            let key = (slot, catalog.slots[slot].committed.unwrap());
            let was = catalog.versions[key];
            let after = catalog.after_get(pool, name, now);
            let is = after.versions[key];
            let soon = now.value + catalog.config.lease_refresh_ticks;
            let end = now.value + catalog.config.lease_ttl_ticks;
            let old_end = was.committed.unwrap().access.lease_until;
            let new_end = is.committed.unwrap().access.lease_until;
            &&& is.committed is Some
            &&& new_end >= old_end
            &&& new_end >= soon || new_end == u64::MAX
            &&& new_end == old_end || new_end == end || (new_end == u64::MAX && end > u64::MAX)
            &&& old_end >= soon ==> new_end == old_end
            &&& is.committed.unwrap().access.recent
            &&& is.committed.unwrap().access.hard_pinned
                == was.committed.unwrap().access.hard_pinned
            &&& is.committed.unwrap().access.soft_pin_until
                == was.committed.unwrap().access.soft_pin_until
            &&& is.committed.unwrap().id == was.committed.unwrap().id
            &&& is.committed.unwrap().commit == was.committed.unwrap().commit
            &&& is.replicas == was.replicas && is.content == was.content && is.owner == was.owner
            &&& is.reserved_bytes == was.reserved_bytes && is.identity == was.identity
            &&& was.pins < u64::MAX ==> is.pins == was.pins + if catalog.get_result(
                pool,
                name,
            ) is Ok {
                1int
            } else {
                0
            }
            &&& after == (CatalogView { versions: catalog.versions.insert(key, is), ..catalog })
        }),
{
    assert(catalog.slot_wf(catalog.index[name]));
}

/// A lookup of a name that nothing is committed under changes nothing.
pub proof fn law_vain_lookup_changes_nothing(
    catalog: CatalogView,
    pool: PoolView,
    name: (u64, Seq<char>),
    now: CatalogTick,
)
    requires
        !catalog.index.contains_key(name) || catalog.slots[catalog.index[name]].committed is None,
    ensures
        catalog.after_get(pool, name, now) == catalog,
{
}

/// A committed version carries the pins over: it is hard-pinned where the write
/// asked for it or the version that it replaces was. Its soft pin ends where the
/// write said: none after a disabling write, the asked period from now after an
/// enabling one, and after any other what is left of the replaced version's. It is
/// not leased and was not read. It waits among the young candidates, and a soft pin
/// is noted for its end.
pub proof fn law_commit_carries_pins_over(
    catalog: CatalogView,
    slot: u64,
    commit: ObjectCommit,
    now: CatalogTick,
)
    requires
        catalog.wf(),
        catalog.slots.contains_key(slot),
        catalog.slots[slot].staged() is Some,
    ensures
        ({
            let active = catalog.slots[slot].active.unwrap();
            let before = catalog.slots[slot].committed;
            let old = catalog.versions[(slot, before.unwrap())].committed.unwrap().access;
            let after = catalog.published(slot, commit, now);
            let new = after.versions[(slot, active.id)].committed.unwrap().access;
            let end = now.value + active.pins.soft_pin.ttl_ticks;
            &&& after.slots[slot].committed == Some(active.id)
            &&& after.versions[(slot, active.id)].committed is Some
            &&& before is Some && old.hard_pinned ==> new.hard_pinned
            &&& active.pins.with_hard_pin ==> new.hard_pinned
            &&& new.hard_pinned ==> active.pins.with_hard_pin || (before is Some
                && old.hard_pinned)
            &&& active.pins.soft_pin.action == SoftPinAction::Disable ==> new.soft_pin_until == 0
            &&& active.pins.soft_pin.action == SoftPinAction::Enable
                && active.pins.soft_pin.ttl_ticks > 0 ==> new.soft_pin_until == end || (end
                > u64::MAX && new.soft_pin_until == u64::MAX)
            &&& active.pins.soft_pin.action == SoftPinAction::Enable
                && active.pins.soft_pin.ttl_ticks == 0 ==> new.soft_pin_until == 0
            &&& active.pins.soft_pin.action == SoftPinAction::Preserve && before is Some
                && old.soft_pin_until > now.value ==> new.soft_pin_until == old.soft_pin_until
            &&& active.pins.soft_pin.action == SoftPinAction::Preserve && (before is None
                || old.soft_pin_until <= now.value) ==> new.soft_pin_until == 0
            &&& new.lease_until == 0
            &&& !new.recent
            &&& after.young == catalog.young.push((slot, active.id, 0, 0))
            &&& after.protected == catalog.protected
            &&& new.soft_pin_until != 0 ==> after.soft_pins.len() == catalog.soft_pins.len() + 1
                && after.soft_pins.last().0 == slot && after.soft_pins.last().1 == active.id
                && after.soft_pins.last().2 == new.soft_pin_until
            &&& new.soft_pin_until == 0 ==> after.soft_pins == catalog.soft_pins
        }),
{
    assert(catalog.slot_wf(slot));
}

/// A version that is replaced is retired: it waits for its storage to be released
/// until its own lease is over, and no longer.
pub proof fn law_replaced_version_is_retired(
    catalog: CatalogView,
    slot: u64,
    commit: ObjectCommit,
    now: CatalogTick,
)
    requires
        catalog.wf(),
        catalog.slots.contains_key(slot),
        catalog.slots[slot].staged() is Some,
    ensures
        ({
            let after = catalog.published(slot, commit, now);
            match catalog.slots[slot].committed {
                Some(old) => {
                    let version = catalog.versions[(slot, old)];
                    &&& after.retired == catalog.retired.push(
                        (
                            slot,
                            old,
                            version.reserved_bytes,
                            version.committed.unwrap().access.lease_until,
                        ),
                    )
                    &&& after.versions[(slot, old)].replicas == version.replicas
                    &&& after.versions[(slot, old)].pins == version.pins
                },
                None => after.retired == catalog.retired,
            }
        }),
{
    assert(catalog.slot_wf(slot));
}

/// A write begins where the name is not empty, no other write of the object is
/// under way, an insert finds nothing committed, less is retired than may be, and
/// numbers are left; and nowhere else.
pub proof fn law_write_begins_where_it_may(
    catalog: CatalogView,
    name: (u64, Seq<char>),
    mode: WriteMode,
)
    requires
        catalog.wf(),
    ensures
        ({
            let there = catalog.index.contains_key(name);
            let slot = catalog.slots[catalog.index[name]];
            let begun = catalog.begin_result(name, mode);
            &&& begun is Ok ==> name.1.len() > 0 && catalog.counters.retired_bytes
                < catalog.config.max_retired_bytes && (there ==> slot.active is None)
            &&& begun is Ok && there && slot.committed is Some ==> mode == WriteMode::Upsert
            &&& begun is Ok && there ==> begun->Ok_0.0 == catalog.index[name] && begun->Ok_0.1
                >= slot.next_transaction_id
            &&& begun is Ok && !there ==> !catalog.slots.contains_key(begun->Ok_0.0)
            &&& begun is Err && name.1.len() > 0 && catalog.counters.retired_bytes
                < catalog.config.max_retired_bytes ==> {
                ||| there && slot.active is Some && begun == Err::<(u64, u64), BeginError>(
                    BeginError::WriteInProgress,
                )
                ||| there && slot.committed is Some && mode == WriteMode::Insert && begun == Err::<
                    (u64, u64),
                    BeginError,
                >(BeginError::AlreadyExists)
                ||| begun == Err::<(u64, u64), BeginError>(BeginError::IdentifiersExhausted) && ((
                there && slot.next_transaction_id == u64::MAX) || (!there && catalog.next_slot
                    == u64::MAX))
            }
            &&& name.1.len() == 0 ==> begun == Err::<(u64, u64), BeginError>(BeginError::EmptyKey)
            &&& name.1.len() > 0 && catalog.counters.retired_bytes
                >= catalog.config.max_retired_bytes ==> begun == Err::<(u64, u64), BeginError>(
                BeginError::ReclamationBacklog,
            )
        }),
{
    if catalog.slots.contains_key(catalog.next_slot) {
        assert(catalog.slot_wf(catalog.next_slot));
    }
}

/// A staged write waits for its commit as long as the configuration says, counted
/// from its start.
pub proof fn law_staged_write_waits_for_its_commit(
    catalog: CatalogView,
    slot: u64,
    version: super::state::VersionView,
    started_at: CatalogTick,
)
    requires
        catalog.slots.contains_key(slot),
        catalog.slots[slot].active is Some,
    ensures
        ({
            let after = catalog.staged(slot, version, started_at);
            let end = started_at.value + catalog.config.pending_timeout_ticks;
            let item = after.pending.last();
            &&& after.pending.len() == catalog.pending.len() + 1
            &&& after.pending.drop_last() == catalog.pending
            &&& item.0 == slot && item.1 == catalog.slots[slot].active.unwrap().id
            &&& item.2 == end || (end > u64::MAX && item.2 == u64::MAX)
        }),
{
    let after = catalog.staged(slot, version, started_at);
    assert(after.pending.drop_last() =~= catalog.pending);
}

/// What protects a version from eviction: a hard pin, a soft pin that runs and that
/// eviction heeds, a write that is about to replace it, a read since the collector
/// last looked, or a lease that runs.
pub open spec fn is_spared(catalog: CatalogView, slot: u64, id: u64, now: CatalogTick) -> bool {
    let access = catalog.versions[(slot, id)].committed.unwrap().access;
    ||| access.hard_pinned
    ||| access.soft_pin_until > now.value && !catalog.config.allow_evict_soft_pinned_objects
    ||| catalog.slots[slot].active is Some
    ||| access.recent
    ||| access.lease_until > now.value
}

/// Whether a version stays where it is and differs at most in whether it counts as
/// read.
pub open spec fn stays_in_place(before: CatalogView, after: CatalogView, slot: u64, id: u64) -> bool {
    let was = before.versions[(slot, id)];
    let is = after.versions[(slot, id)];
    &&& after.slots == before.slots
    &&& after.index == before.index
    &&& after.retired == before.retired
    &&& after.versions.contains_key((slot, id))
    &&& is.committed is Some
    &&& is.committed.unwrap().id == was.committed.unwrap().id
    &&& is.committed.unwrap().commit == was.committed.unwrap().commit
    &&& is.committed.unwrap().access.lease_until == was.committed.unwrap().access.lease_until
    &&& is.committed.unwrap().access.soft_pin_until
        == was.committed.unwrap().access.soft_pin_until
    &&& is.committed.unwrap().access.hard_pinned == was.committed.unwrap().access.hard_pinned
    &&& is.replicas == was.replicas
    &&& is.content == was.content
    &&& is.pins == was.pins
    &&& after.versions == before.versions.insert((slot, id), is)
}

/// A candidate that something protects is never evicted: it stays the committed
/// version of its slot and waits in a queue for another look, at the end. A pinned
/// one goes back to its own queue, any other to the protected one. One that was read
/// gets a second chance: it is protected and counts as unread from then on.
pub proof fn law_spared_candidate_stays(
    s: Sweep,
    item: WorkItem,
    protected: bool,
    now: CatalogTick,
)
    requires
        s.catalog.wf(),
        s.catalog.slots.contains_key(item.0),
        s.catalog.slots[item.0].committed == Some(item.1),
        is_spared(s.catalog, item.0, item.1, now),
    ensures
        ({
            let after = s.evict(item, protected, now);
            let access = s.catalog.versions[(item.0, item.1)].committed.unwrap().access;
            let pinned = access.hard_pinned || (access.soft_pin_until > now.value
                && !s.catalog.config.allow_evict_soft_pinned_objects);
            &&& stays_in_place(s.catalog, after.catalog, item.0, item.1)
            &&& after.report.retired_objects == s.report.retired_objects
            &&& after.report.retired_bytes == s.report.retired_bytes
            &&& after.freed == s.freed
            &&& pinned && protected || !pinned ==> after.catalog.protected
                == s.catalog.protected.push(item) && after.catalog.young == s.catalog.young
            &&& pinned && !protected ==> after.catalog.young == s.catalog.young.push(item)
                && after.catalog.protected == s.catalog.protected
            &&& !pinned && s.catalog.slots[item.0].active is None && access.recent
                ==> !after.catalog.versions[(item.0, item.1)].committed.unwrap().access.recent
            &&& pinned || s.catalog.slots[item.0].active is Some
                ==> after.catalog.versions[(item.0, item.1)].committed.unwrap().access.recent
                == access.recent
        }),
{
    let after = s.evict(item, protected, now);
    assert(s.catalog.slot_wf(item.0));
    let is = after.catalog.versions[(item.0, item.1)];
    assert(after.catalog.versions =~= s.catalog.versions.insert((item.0, item.1), is));
}

/// A candidate that nothing protects is evicted: its slot has no committed version
/// any more, so that it can no longer be read; its storage waits to be released
/// from now on, with the bytes that it takes; and it is looked at no further.
pub proof fn law_idle_candidate_is_evicted(
    s: Sweep,
    item: WorkItem,
    protected: bool,
    pool: PoolView,
    now: CatalogTick,
)
    requires
        s.catalog.wf(),
        s.catalog.slots.contains_key(item.0),
        s.catalog.slots[item.0].committed == Some(item.1),
        !is_spared(s.catalog, item.0, item.1, now),
    ensures
        ({
            let after = s.evict(item, protected, now);
            let was = s.catalog.versions[(item.0, item.1)];
            &&& after.catalog.slots[item.0].committed is None
            &&& after.catalog.get_result(pool, s.catalog.slots[item.0].identity@) is Err
            &&& after.catalog.retired == s.catalog.retired.push(
                (item.0, item.1, was.reserved_bytes, now.value),
            )
            &&& after.catalog.versions[(item.0, item.1)].replicas == was.replicas
            &&& after.catalog.versions[(item.0, item.1)].pins == was.pins
            &&& after.catalog.young == s.catalog.young
            &&& after.catalog.protected == s.catalog.protected
            &&& s.report.retired_objects < usize::MAX ==> after.report.retired_objects
                == s.report.retired_objects + 1
            &&& s.report.retired_bytes + was.reserved_bytes <= u64::MAX
                ==> after.report.retired_bytes == s.report.retired_bytes + was.reserved_bytes
            &&& forall|other: u64|
                other != item.0 && s.catalog.slots.contains_key(other)
                    ==> #[trigger] after.catalog.slots[other] == s.catalog.slots[other]
        }),
{
    assert(s.catalog.slot_wf(item.0));
}

/// A candidate whose version is not the committed one any more is looked at no
/// further, and nothing else changes.
pub proof fn law_outdated_candidate_is_dropped(
    s: Sweep,
    item: WorkItem,
    protected: bool,
    now: CatalogTick,
)
    requires
        !s.catalog.slots.contains_key(item.0) || s.catalog.slots[item.0].committed != Some(item.1),
    ensures
        s.evict(item, protected, now).catalog == s.catalog,
{
}

/// A removal succeeds exactly where the object is committed, no write of it is under
/// way, and, unless it is forced, it is neither leased nor hard-pinned. The reason
/// for a refusal is the first of these that fails; a lease is refused with its end.
pub proof fn law_removal_is_refused_for_a_reason(
    catalog: CatalogView,
    name: (u64, Seq<char>),
    now: CatalogTick,
    force: bool,
)
    requires
        catalog.wf(),
    ensures
        ({
            let there = catalog.index.contains_key(name);
            let slot = catalog.slots[catalog.index[name]];
            let access = catalog.versions[(
                catalog.index[name],
                slot.committed.unwrap(),
            )].committed.unwrap().access;
            let removed = catalog.remove_result(name, now, force);
            &&& removed is Ok <==> there && slot.active is None && slot.committed is Some && (force
                || (access.lease_until <= now.value && !access.hard_pinned))
            &&& !there || (slot.active is None && slot.committed is None) ==> removed == Err::<
                (),
                RemoveError,
            >(RemoveError::NotFound)
            &&& there && slot.active is Some ==> removed == Err::<(), RemoveError>(
                RemoveError::NotReady,
            )
            &&& there && slot.active is None && slot.committed is Some && !force
                && access.lease_until > now.value ==> (removed matches Err(
                RemoveError::Leased { expires_at },
            ) && expires_at.value == access.lease_until)
            &&& there && slot.active is None && slot.committed is Some && !force
                && access.lease_until <= now.value && access.hard_pinned ==> removed == Err::<
                (),
                RemoveError,
            >(RemoveError::HardPinned)
        }),
{
}

/// A removal takes the committed version away and retires it, until its lease is
/// over at the least, and changes nothing of any other object; one that is refused
/// changes nothing.
pub proof fn law_removal_retires(
    catalog: CatalogView,
    name: (u64, Seq<char>),
    now: CatalogTick,
    force: bool,
)
    requires
        catalog.wf(),
    ensures
        ({
            let after = catalog.removed(name, now, force);
            let slot = catalog.index[name];
            let id = catalog.slots[slot].committed.unwrap();
            let was = catalog.versions[(slot, id)];
            let lease = was.committed.unwrap().access.lease_until;
            &&& catalog.remove_result(name, now, force) is Err ==> after == catalog
            &&& catalog.remove_result(name, now, force) is Ok ==> {
                &&& after.slots[slot].committed is None
                &&& after.slots[slot].active is None
                &&& after.index == catalog.index
                &&& after.retired.len() == catalog.retired.len() + 1
                &&& after.retired.drop_last() == catalog.retired
                &&& after.retired.last().0 == slot && after.retired.last().1 == id
                &&& after.retired.last().2 == was.reserved_bytes
                &&& after.retired.last().3 == if lease > now.value {
                    lease
                } else {
                    now.value
                }
                &&& after.versions[(slot, id)].replicas == was.replicas
                &&& after.versions[(slot, id)].pins == was.pins
                &&& forall|other: u64|
                    other != slot && catalog.slots.contains_key(other)
                        ==> #[trigger] after.slots[other] == catalog.slots[other]
            }
        }),
{
    let after = catalog.removed(name, now, force);
    if catalog.remove_result(name, now, force) is Ok {
        assert(catalog.slot_wf(catalog.index[name]));
        assert(after.retired.drop_last() =~= catalog.retired);
    }
}

/// What a replica must be for a write to be staged: every replica is of an attachment
/// that is still there, and each has room for the object. Where one is not, the
/// refusal names it.
pub proof fn law_replicas_are_looked_at(replicas: Seq<ReplicaLease>, pool: PoolView, bytes: u64)
    ensures
        ({
            let fault = replica_fault(replicas, pool, bytes);
            &&& fault is None <==> replicas.len() > 0 && forall|i: int|
                0 <= i < replicas.len() ==> pool.is_live((#[trigger] replicas[i]).reservation)
                    && replicas[i].reservation.allocation.requested_bytes >= bytes
            &&& replicas.len() == 0 ==> fault == Some(StageError::NoReplicas)
            &&& fault matches Some(StageError::ReplicaInvalidated { replica }) ==> exists|i: int|
                0 <= i < replicas.len() && (#[trigger] replicas[i]).id == replica && !pool.is_live(
                    replicas[i].reservation,
                )
            &&& fault matches Some(StageError::ReplicaTooSmall { replica, required_bytes, capacity_bytes })
                ==> required_bytes == bytes && capacity_bytes < bytes && exists|i: int|
                0 <= i < replicas.len() && (#[trigger] replicas[i]).id == replica
                    && replicas[i].reservation.allocation.requested_bytes == capacity_bytes
        }),
{
    lemma_first_dead(replicas, pool, 0);
    lemma_first_small(replicas, bytes, 0);
}

proof fn lemma_first_dead(replicas: Seq<ReplicaLease>, pool: PoolView, from: int)
    requires
        0 <= from,
    ensures
        match first_dead(replicas, pool, from) {
            Some(i) => from <= i < replicas.len() && !pool.is_live(replicas[i].reservation),
            None => forall|i: int|
                from <= i < replicas.len() ==> pool.is_live((#[trigger] replicas[i]).reservation),
        },
    decreases replicas.len() - from,
{
    if from < replicas.len() {
        lemma_first_dead(replicas, pool, from + 1);
    }
}

proof fn lemma_first_small(replicas: Seq<ReplicaLease>, bytes: u64, from: int)
    requires
        0 <= from,
    ensures
        match first_small(replicas, bytes, from) {
            Some(i) => from <= i < replicas.len()
                && replicas[i].reservation.allocation.requested_bytes < bytes,
            None => forall|i: int|
                from <= i < replicas.len() ==> (
                #[trigger] replicas[i]).reservation.allocation.requested_bytes >= bytes,
        },
    decreases replicas.len() - from,
{
    if from < replicas.len() {
        lemma_first_small(replicas, bytes, from + 1);
    }
}

/// A write is staged only for the session that holds its claim, while that session is
/// active, in the catalog that gave out the claim, and with something to store.
pub proof fn law_staging_needs_the_claim(
    catalog: CatalogView,
    pool: PoolView,
    sessions: RegistryView,
    claim: WriteClaim,
    content: ObjectContent,
    replicas: Seq<ReplicaLease>,
)
    requires
        catalog.stage_fault(pool, sessions, claim, content, replicas) is None,
    ensures
        content.logical_bytes > 0,
        replicas.len() > 0,
        claim.catalog_id == catalog.catalog_id,
        catalog.slots.contains_key(claim.slot),
        catalog.slots[claim.slot].active is Some,
        catalog.slots[claim.slot].active.unwrap().id == claim.id.value,
        catalog.slots[claim.slot].active.unwrap().owner == claim.admission.owner,
        catalog.slots[claim.slot].active.unwrap().phase == TransactionPhase::Claimed,
        claim.admission.is_admitted(sessions),
{
}

/// How a commit comes out. It publishes where the write is staged under this number
/// and every replica of it is there; a commit that is repeated succeeds without an
/// effect, and one that differs from the first is refused. Other catalogs' writes,
/// writes that are gone and writes that only are claimed are refused. A refused commit
/// changes nothing.
pub proof fn law_commits(
    catalog: CatalogView,
    pool: PoolView,
    catalog_id: u64,
    slot: u64,
    id: u64,
    commit: ObjectCommit,
    now: CatalogTick,
)
    requires
        catalog.wf(),
    ensures
        ({
            let path = catalog.commit_path(pool, catalog_id, slot, id, commit);
            let after = catalog.after_commit(pool, catalog_id, slot, id, commit, now);
            let there = catalog.slots.contains_key(slot);
            let active = catalog.slots[slot].active;
            let version = catalog.versions[(slot, id)];
            let whole = version.replicas.len() > 0 && forall|k: int|
                0 <= k < version.replicas.len() ==> pool.is_live(
                    (#[trigger] version.replicas[k]).reservation,
                );
            &&& path is Fails ==> after == catalog
            &&& catalog_id != catalog.catalog_id ==> path is Fails
            &&& !there ==> path is Fails
            &&& path is Publishes <==> catalog_id == catalog.catalog_id && there && active is Some
                && active.unwrap().id == id && active.unwrap().phase != TransactionPhase::Claimed
                && whole
            &&& path is Publishes ==> after.slots[slot].committed == Some(id)
                && after.slots[slot].active is None && after.versions[(slot, id)].committed is Some
                && after.versions[(slot, id)].committed.unwrap().commit == commit
            &&& path is Repeats <==> catalog_id == catalog.catalog_id && there && active is None
                && catalog.slots[slot].committed == Some(id) && version.committed.unwrap().commit
                == commit
            &&& path is Repeats ==> after.slots == catalog.slots && after.retired
                == catalog.retired && after.versions[(slot, id)].committed == version.committed
            &&& catalog_id == catalog.catalog_id && there && active is None
                && catalog.slots[slot].committed == Some(id) && version.committed.unwrap().commit
                != commit ==> path == CommitPath::Fails(CommitError::CommitConflict)
        }),
{
    let version = catalog.versions[(slot, id)];
    if catalog.slots.contains_key(slot) {
        assert(catalog.slot_wf(slot));
    }
    if all_live(version.replicas, pool) {
        assert forall|k: int| 0 <= k < version.replicas.len() implies pool.is_live(
            (#[trigger] version.replicas[k]).reservation,
        ) by {
            assert(version.replicas[k].lives(pool));
        }
    } else if version.replicas.len() > 0 {
        let k = choose|k: int|
            0 <= k < version.replicas.len() && !(#[trigger] version.replicas[k]).lives(pool);
        assert(!pool.is_live(version.replicas[k].reservation));
    }
}

/// Only a staged write can be aborted, under its own number and in its own catalog; a
/// committed one cannot.
pub proof fn law_aborts(catalog: CatalogView, catalog_id: u64, slot: u64, id: u64)
    ensures
        ({
            let result = catalog.abort_result(catalog_id, slot, id);
            let there = catalog_id == catalog.catalog_id && catalog.slots.contains_key(slot);
            let active = catalog.slots[slot].active;
            &&& result is Ok <==> there && active is Some && active.unwrap().id == id
                && active.unwrap().phase != TransactionPhase::Claimed
            &&& there && active is None && catalog.slots[slot].committed == Some(id) ==> result
                == Err::<(), AbortError>(AbortError::AlreadyCommitted)
            &&& catalog_id != catalog.catalog_id ==> result == Err::<(), AbortError>(
                AbortError::ForeignCatalog,
            )
        }),
{
}

/// A held charge grows only as far as the tenant is promised, and shrinks always; the
/// demand moves by the difference.
pub proof fn law_charges_are_resized(catalog: CatalogView, guard: QuotaReservationGuard, bytes: u64)
    requires
        guard.class == TenantResourceClass::Memory,
    ensures
        ({
            let account = catalog.accounts[guard.tenant].memory;
            let after = catalog.resized(guard, bytes).accounts[guard.tenant].memory;
            let result = catalog.resize_result(guard, bytes);
            &&& result is Ok <==> bytes <= guard.bytes || account.demand + (bytes - guard.bytes)
                <= account.effective
            &&& bytes > guard.bytes && result is Ok ==> after.demand == account.demand + (bytes
                - guard.bytes)
            &&& bytes <= guard.bytes && guard.bytes <= account.demand ==> after.demand
                == account.demand - (guard.bytes - bytes)
            &&& result is Err ==> catalog.resized(guard, bytes) == catalog
            &&& after.used == account.used && after.effective == account.effective
        }),
{
}

/// The bytes of replicas add up.
pub proof fn law_replica_bytes_add_up(replicas: Seq<ReplicaLease>, more: ReplicaLease)
    ensures
        replica_bytes(Seq::empty()) == 0,
        replica_bytes(replicas) + more.reservation.allocation.reserved_bytes <= u64::MAX
            ==> replica_bytes(replicas.push(more)) == replica_bytes(replicas)
            + more.reservation.allocation.reserved_bytes,
        replica_bytes(replicas) + more.reservation.allocation.reserved_bytes > u64::MAX
            ==> replica_bytes(replicas.push(more)) == u64::MAX,
{
    assert(replicas.push(more).drop_last() =~= replicas);
}

/// A claim notes what was asked for: who writes, which version is to be replaced and
/// which pins are wanted; and its number is one that the slot has not given out.
pub proof fn law_claims_note_what_was_asked(
    catalog: CatalogView,
    slot: u64,
    owner: WriteOwner,
    pins: ResolvedObjectPinRequest,
)
    requires
        catalog.wf(),
        catalog.slots.contains_key(slot),
        catalog.slots[slot].next_transaction_id < u64::MAX,
    ensures
        ({
            let was = catalog.slots[slot];
            let after = catalog.begun_in(slot, owner, pins);
            let held = after.slots[slot];
            let active = held.active.unwrap();
            &&& held.active is Some
            &&& active.owner == owner && active.pins == pins && active.base == was.committed
            &&& active.phase == TransactionPhase::Claimed
            &&& was.committed is Some ==> active.id > was.committed.unwrap()
            &&& !catalog.versions.contains_key((slot, active.id))
            &&& held.next_transaction_id == active.id + 1
            &&& held.committed == was.committed && held.identity == was.identity
            &&& after.versions == catalog.versions && after.index == catalog.index
            &&& forall|other: u64|
                other != slot ==> #[trigger] after.slots.contains_key(other)
                    == catalog.slots.contains_key(other) && after.slots[other]
                    == catalog.slots[other]
        }),
{
    assert(catalog.slot_wf(slot));
    let id = catalog.slots[slot].next_transaction_id;
    if catalog.versions.contains_key((slot, id)) {
        assert(catalog.version_wf(slot, id));
    }
}

/// What is retired is counted: taking down a committed version, or giving up a staged
/// one, moves its bytes to those that are retired; and the memory among them is what
/// versions with replicas hold.
pub proof fn law_retired_bytes_are_counted(
    catalog: CatalogView,
    pool: PoolView,
    slot: u64,
    now: CatalogTick,
)
    requires
        catalog.slots.contains_key(slot),
    ensures
        ({
            let held = catalog.slots[slot];
            let was = catalog.counters;
            let version = catalog.versions[(slot, held.committed.unwrap())];
            let staged = catalog.versions[(slot, held.active.unwrap().id)];
            let down = catalog.taken_down(slot, now).counters;
            let given_up = catalog.abandoned(pool, slot, now).counters;
            &&& held.committed is Some && was.retired_bytes + version.reserved_bytes <= u64::MAX
                ==> down.retired_bytes == was.retired_bytes + version.reserved_bytes
            &&& held.committed is Some && version.replicas.len() > 0 && was.retired_memory_bytes
                + version.reserved_bytes <= u64::MAX ==> down.retired_memory_bytes
                == was.retired_memory_bytes + version.reserved_bytes
            &&& held.committed is Some && version.reserved_bytes <= was.live_bytes
                ==> down.live_bytes == was.live_bytes - version.reserved_bytes
            &&& held.committed is Some && was.published_objects > 0 ==> down.published_objects
                == was.published_objects - 1
            &&& held.active is Some && was.retired_bytes + staged.reserved_bytes <= u64::MAX
                ==> given_up.retired_bytes == was.retired_bytes + staged.reserved_bytes
            &&& held.active is Some && staged.replicas.len() > 0 && was.retired_memory_bytes
                + staged.reserved_bytes <= u64::MAX ==> given_up.retired_memory_bytes
                == was.retired_memory_bytes + staged.reserved_bytes
            &&& held.active is Some && staged.reserved_bytes <= was.pending_bytes
                ==> given_up.pending_bytes == was.pending_bytes - staged.reserved_bytes
            &&& held.active is Some && was.pending_objects > 0 ==> given_up.pending_objects
                == was.pending_objects - 1
        }),
{
}

/// The statistics of a catalog are its own figures.
pub proof fn law_statistics(catalog: CatalogView)
    requires
        catalog.young.len() <= usize::MAX,
        catalog.protected.len() <= usize::MAX,
        catalog.retired.len() <= usize::MAX,
        catalog.pending.len() <= usize::MAX,
        catalog.soft_pins.len() <= usize::MAX,
        catalog.empty_slots.len() <= usize::MAX,
        catalog.liveness.young_remaining + catalog.liveness.protected_remaining <= usize::MAX,
    ensures
        ({
            let stats = catalog.stats();
            &&& stats.slots == catalog.counters.slots && stats.claims == catalog.counters.claims
            &&& stats.pending_objects == catalog.counters.pending_objects
                && stats.published_objects == catalog.counters.published_objects
            &&& stats.pending_bytes == catalog.counters.pending_bytes && stats.live_bytes
                == catalog.counters.live_bytes && stats.retired_bytes
                == catalog.counters.retired_bytes && stats.retired_memory_bytes
                == catalog.counters.retired_memory_bytes
            &&& stats.reclaim_debt == catalog.reclaim_debt
            &&& stats.pending_candidates == catalog.pending.len() && stats.soft_pin_candidates
                == catalog.soft_pins.len() && stats.young_candidates == catalog.young.len()
                && stats.protected_candidates == catalog.protected.len()
                && stats.retired_candidates == catalog.retired.len() && stats.empty_slot_candidates
                == catalog.empty_slots.len()
            &&& stats.liveness_scan_remaining == catalog.liveness.young_remaining
                + catalog.liveness.protected_remaining
        }),
{
}

/// A handle that is let go is held once less, and nothing else changes.
pub proof fn law_letting_go(catalog: CatalogView, slot: u64, id: u64)
    requires
        catalog.versions.contains_key((slot, id)),
    ensures
        ({
            let after = catalog.version_released(catalog.catalog_id, slot, id);
            let was = catalog.versions[(slot, id)];
            let version = after.versions[(slot, id)];
            &&& was.pins > 0 ==> version.pins == was.pins - 1
            &&& version.committed == was.committed && version.replicas == was.replicas
            &&& after.slots == catalog.slots && after.retired == catalog.retired
            &&& forall|other: u64|
                other != catalog.catalog_id ==> #[trigger] catalog.version_released(other, slot, id)
                    == catalog
        }),
{
}

/// What a lookup hands out is the object that was asked for: its name, and the content,
/// the commit and the number of the version that is committed.
pub proof fn law_lookups_hand_out_the_object(
    catalog: CatalogView,
    pool: PoolView,
    name: (u64, Seq<char>),
    now: CatalogTick,
    read: ObjectRead,
)
    requires
        catalog.wf(),
        catalog.get_matches(
            catalog.after_get(pool, name, now),
            pool,
            name,
            Ok::<ObjectRead, LookupError>(read),
        ),
    ensures
        ({
            let slot = catalog.index[name];
            let id = catalog.slots[slot].committed.unwrap();
            let version = catalog.versions[(slot, id)];
            &&& catalog.index.contains_key(name)
            &&& catalog.slots[slot].committed is Some
            &&& read.object.identity@ == name
            &&& read.object.slot == slot && read.object.origin.value == id
            &&& read.object.content == version.content
            &&& read.object.commit == version.committed.unwrap().commit
            &&& read.object.version_id.value == version.committed.unwrap().id
            &&& read.object.owner == version.owner
            &&& read.object.hard_pinned == version.committed.unwrap().access.hard_pinned
            &&& read.lease_expires_at.value >= version.committed.unwrap().access.lease_until
            &&& read.lease_expires_at.value >= now.value + catalog.config.lease_refresh_ticks
                || read.lease_expires_at.value == u64::MAX
            &&& read.lease_expires_at.value == version.committed.unwrap().access.lease_until
                || read.lease_expires_at.value == now.value + catalog.config.lease_ttl_ticks
                || read.lease_expires_at.value == u64::MAX
        }),
{
    let slot = catalog.index[name];
    assert(catalog.slot_wf(slot));
    let id = catalog.slots[slot].committed.unwrap();
    assert(catalog.version_wf(slot, id));
}

/// What can be read of an object is every replica whose segment is there, and no other.
pub proof fn law_live_replicas(replicas: Seq<ReplicaLease>, pool: PoolView, replica: ReplicaLease)
    ensures
        live_part(replicas, pool).contains(replica) <==> replicas.contains(replica)
            && pool.is_live(replica.reservation),
        stale_part(replicas, pool).contains(replica) <==> replicas.contains(replica)
            && !pool.is_live(replica.reservation),
{
    let live = |replica: ReplicaLease| replica.lives(pool);
    let stale = |replica: ReplicaLease| !replica.lives(pool);
    assert(live_part(replicas, pool) == replicas.filter(live));
    assert(stale_part(replicas, pool) == replicas.filter(stale));
    if replicas.contains(replica) {
        let k = choose|k: int| 0 <= k < replicas.len() && replicas[k] == replica;
        if live(replica) {
            replicas.lemma_filter_contains(live, k);
        } else {
            replicas.lemma_filter_contains(stale, k);
        }
    }
    if replicas.filter(live).contains(replica) {
        replicas.lemma_filter_contains_rev(live, replica);
        let k = choose|k: int|
            0 <= k < replicas.filter(live).len() && replicas.filter(live)[k] == replica;
        replicas.lemma_filter_pred(live, k);
    }
    if replicas.filter(stale).contains(replica) {
        replicas.lemma_filter_contains_rev(stale, replica);
        let k = choose|k: int|
            0 <= k < replicas.filter(stale).len() && replicas.filter(stale)[k] == replica;
        replicas.lemma_filter_pred(stale, k);
    }
}

} // verus!
