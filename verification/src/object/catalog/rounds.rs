//! What the collector gets done in a step: what is due is done, as far as the
//! budget reaches.

use super::super::identity::NamespaceId;
use super::super::reclamation::{
    CatalogTick, CollectBudget, CollectReport, ReclaimFilter, ReclaimTarget,
};
use super::super::replica::{all_live, has_live, reservations_of, ReplicaLease};
use super::super::tenant::quota::ChargePhase;
use super::super::write::WriteOwner;
use super::laws::{
    keeps, lemma_evict_keeps, lemma_evict_round_keeps, lemma_keeps_chain,
    lemma_liveness_round_keeps, lemma_liveness_step_keeps, lemma_pending_pass_keeps,
    lemma_reclaim_step_keeps, lemma_same_core_keeps, lemma_scoped_round_keeps,
    lemma_scoped_step_keeps, lemma_soft_pin_pass_keeps, outlives,
};
use super::promises::is_spared;
use super::queue::WorkItem;
use super::state::{CatalogView, VersionView};
use super::sweep::{
    all_met, filter_matches, lesser, matching_target, open_targets, session_owners, Revocation,
    ScopedSweep, Sweep,
};
use crate::segment::pool::PoolView;
use crate::segment::spec::ReplicaClass;
use vstd::prelude::*;

verus! {

/// Whether as much is retired as is asked to be reclaimed.
pub open spec fn is_covered(catalog: CatalogView) -> bool {
    catalog.reclaim_debt <= catalog.counters.retired_bytes
}

proof fn lemma_evict_round_goes_on(s: Sweep, protected: bool, n: nat, now: CatalogTick)
    requires
        n <= s.catalog.queue(protected).len(),
    ensures
        ({
            let end = s.evict_round(protected, n, now);
            &&& is_covered(end.catalog) || end.scanned == s.scanned + n
            &&& end.scanned <= s.scanned + n
            &&& !protected ==> end.catalog.protected.len() >= s.catalog.protected.len()
        }),
    decreases n,
{
    if n > 0 && !s.catalog.debt_covered() {
        let next = s.candidate_taken(protected).evict(
            s.catalog.queue(protected)[0],
            protected,
            now,
        );
        lemma_evict_round_goes_on(next, protected, (n - 1) as nat, now);
    }
}

/// Eviction goes on until as much is retired as was asked for: it stops short only
/// where every candidate, young or protected, was looked at, or as many as the
/// budget allows. Where as much is retired already, nothing is evicted.
pub proof fn law_eviction_covers_the_debt(s: Sweep, budget: nat, now: CatalogTick)
    ensures
        ({
            let end = s.evict_pass(budget, now);
            let all = s.catalog.young.len() + s.catalog.protected.len();
            &&& end.catalog.reclaim_debt <= end.catalog.counters.retired_bytes || end.scanned
                == budget || end.scanned == all
            &&& end.scanned <= budget
            &&& s.catalog.reclaim_debt <= s.catalog.counters.retired_bytes ==> end.catalog
                == s.catalog
        }),
{
    let start = Sweep { scanned: 0, ..s };
    let n = if start.catalog.young.len() < budget { start.catalog.young.len() } else { budget };
    lemma_evict_round_goes_on(start, false, n, now);
    let half = start.evict_round(false, n, now);
    let left = (budget - half.scanned) as nat;
    let m = if start.catalog.protected.len() < left {
        start.catalog.protected.len()
    } else {
        left
    };
    lemma_evict_round_goes_on(half, true, m, now);
}

/// Candidates are looked at in the order in which they wait: one look takes the
/// first out of its queue and leaves the order of the others.
pub proof fn law_oldest_candidate_is_looked_at_first(s: Sweep, protected: bool, now: CatalogTick)
    requires
        s.catalog.queue(protected).len() > 0,
        s.catalog.reclaim_debt > s.catalog.counters.retired_bytes,
    ensures
        ({
            let waiting = s.catalog.queue(protected);
            let after = s.evict_round(protected, 1, now).catalog;
            let rest = waiting.len() - 1;
            &&& after.queue(protected).len() >= rest
            &&& after.queue(protected).take(rest) == waiting.skip(1)
            &&& forall|slot: u64|
                s.catalog.slots.contains_key(slot) && slot != waiting[0].0
                    ==> #[trigger] after.slots[slot] == s.catalog.slots[slot]
        }),
{
    let waiting = s.catalog.queue(protected);
    let taken = s.candidate_taken(protected);
    let next = taken.evict(waiting[0], protected, now);
    reveal_with_fuel(Sweep::evict_round, 2);
    assert(s.evict_round(protected, 1, now) == next);
    let rest = waiting.len() - 1;
    assert(taken.catalog.queue(protected) =~= waiting.skip(1));
    assert(next.catalog.queue(protected).take(rest) =~= waiting.skip(1));
}

/// For a target only objects are evicted that the target is about: one that no open
/// target is about goes back to its queue, and stays the committed version. The
/// debt of the first open target about a candidate that is evicted falls by the
/// bytes that the candidate is charged for or takes.
pub proof fn law_targets_are_met_by_their_own(s: ScopedSweep, protected: bool, now: CatalogTick)
    requires
        s.sweep.catalog.wf(),
        s.sweep.catalog.queue(protected).len() > 0,
    ensures
        ({
            let item = s.sweep.catalog.queue(protected)[0];
            let catalog = s.sweep.catalog;
            let version = catalog.versions[(item.0, item.1)];
            let after = s.step(protected, now);
            let about = |i: int|
                0 <= i < s.debts.len() && s.debts[i].bytes > 0 && filter_matches(
                    s.debts[i].filter,
                    version,
                );
            &&& after.debts.len() == s.debts.len()
            &&& catalog.points_to(item.0, item.1) && (forall|i: int| !#[trigger] about(i)) ==> {
                &&& after.sweep.catalog.slots == catalog.slots
                &&& after.sweep.catalog.versions == catalog.versions
                &&& after.sweep.catalog.queue(protected) == catalog.queue(protected).skip(1).push(
                    item,
                )
                &&& after.debts == s.debts
            }
            &&& after.debts != s.debts ==> catalog.points_to(item.0, item.1) && !is_spared(
                catalog,
                item.0,
                item.1,
                now,
            ) && exists|i: int| #[trigger] about(i)
            &&& forall|i: int|
                0 <= i < s.debts.len() ==> (#[trigger] after.debts[i]).bytes <= s.debts[i].bytes
                    && after.debts[i].filter == s.debts[i].filter
            &&& catalog.points_to(item.0, item.1) && !is_spared(catalog, item.0, item.1, now) ==> (
            forall|i: int| #[trigger]
                about(i) && (forall|j: int| 0 <= j < i ==> !#[trigger] about(j)) ==> {
                    let bytes: int = if version.accounting is Some {
                        version.content.logical_bytes * version.replicas.len()
                    } else {
                        version.reserved_bytes as int
                    };
                    &&& after.sweep.catalog.slots[item.0].committed is None
                    &&& after.debts[i].bytes == if bytes > s.debts[i].bytes {
                        0int
                    } else {
                        s.debts[i].bytes - bytes
                    }
                })
        }),
{
    let item = s.sweep.catalog.queue(protected)[0];
    let catalog = s.sweep.catalog;
    let version = catalog.versions[(item.0, item.1)];
    let after = s.step(protected, now);
    let about = |i: int|
        0 <= i < s.debts.len() && s.debts[i].bytes > 0 && filter_matches(
            s.debts[i].filter,
            version,
        );
    if catalog.points_to(item.0, item.1) {
        assert(catalog.slot_wf(item.0));
        assert(catalog.version_wf(item.0, item.1));
        lemma_matching(s.debts, version, 0);
        assert(catalog.queue(protected).drop_first() =~= catalog.queue(protected).skip(1));
        match matching_target(s.debts, version, 0) {
            None => {
                assert forall|i: int| !#[trigger] about(i) by {}
            },
            Some(i) => {
                assert(about(i));
                assert forall|k: int| #[trigger]
                    about(k) && (forall|j: int| 0 <= j < k ==> !#[trigger] about(j)) implies k
                    == i by {
                    if i < k {
                        assert(about(i));
                    }
                }
            },
        }
    }
}

/// The target that an eviction is for is the first open one that is about the version.
pub proof fn lemma_matching(debts: Seq<ReclaimTarget>, version: VersionView, from: int)
    requires
        0 <= from,
    ensures
        match matching_target(debts, version, from) {
            Some(k) => {
                &&& from <= k < debts.len()
                &&& debts[k].bytes > 0
                &&& filter_matches(debts[k].filter, version)
                &&& forall|j: int|
                    from <= j < k ==> (#[trigger] debts[j]).bytes == 0
                        || !filter_matches(debts[j].filter, version)
            },
            None => forall|j: int|
                from <= j < debts.len() ==> (#[trigger] debts[j]).bytes == 0
                    || !filter_matches(debts[j].filter, version),
        },
    decreases debts.len() - from,
{
    if from < debts.len() {
        lemma_matching(debts, version, from + 1);
    }
}

/// Whether a version that waits may be released: the time that it waits for has come
/// and nobody holds on to it.
pub open spec fn is_due(catalog: CatalogView, item: WorkItem, now: CatalogTick) -> bool {
    item.3 <= now.value && catalog.versions[(item.0, item.1)].pins == 0
}

/// Versions that are gone stay gone while storage is released, and what was freed
/// stays freed.
proof fn lemma_gone_stays_gone(s: Sweep, n: nat, now: CatalogTick, slot: u64, id: u64)
    requires
        s.catalog.wf(),
    ensures
        ({
            let end = s.reclaim_pass(n, now);
            &&& !s.catalog.versions.contains_key((slot, id)) ==> !end.catalog.versions.contains_key(
                (slot, id),
            )
            &&& s.freed.len() <= end.freed.len()
            &&& forall|i: int| 0 <= i < s.freed.len() ==> #[trigger] end.freed[i] == s.freed[i]
        }),
    decreases n,
{
    if n > 0 && s.catalog.retired.len() > 0 {
        let next = s.reclaim_step(now);
        lemma_reclaim_step_keeps(s, arbitrary(), now);
        lemma_gone_stays_gone(next, (n - 1) as nat, now, slot, id);
        let end = s.reclaim_pass(n, now);
        assert forall|i: int| 0 <= i < s.freed.len() implies #[trigger] end.freed[i]
            == s.freed[i] by {
            assert(next.freed[i] == s.freed[i]);
        }
    }
}

/// Storage that may be released is released: of the versions that wait, each of the
/// first ones, as many as may be looked at, is gone afterwards where it was due, and
/// every range of its replicas is given back.
pub proof fn law_due_storage_is_released(s: Sweep, n: nat, now: CatalogTick, i: int)
    requires
        s.catalog.wf(),
        0 <= i < s.catalog.retired.len(),
        i < n,
        is_due(s.catalog, s.catalog.retired[i], now),
    ensures
        ({
            let item = s.catalog.retired[i];
            let end = s.reclaim_pass(n, now);
            let replicas = s.catalog.versions[(item.0, item.1)].replicas;
            &&& !end.catalog.versions.contains_key((item.0, item.1))
            &&& forall|k: int|
                0 <= k < replicas.len() ==> end.freed.contains(
                    (#[trigger] replicas[k]).reservation,
                )
        }),
    decreases n,
{
    let item = s.catalog.retired[i];
    let replicas = s.catalog.versions[(item.0, item.1)].replicas;
    let next = s.reclaim_step(now);
    lemma_reclaim_step_keeps(s, arbitrary(), now);
    if i == 0 {
        lemma_gone_stays_gone(next, (n - 1) as nat, now, item.0, item.1);
        assert forall|k: int| 0 <= k < replicas.len() implies s.reclaim_pass(n, now).freed.contains(
            (#[trigger] replicas[k]).reservation,
        ) by {
            let at = s.freed.len() + k;
            assert(reservations_of(replicas)[k] == replicas[k].reservation);
            assert(next.freed[at] == replicas[k].reservation);
            assert(s.reclaim_pass(n, now).freed[at] == replicas[k].reservation);
        }
    } else {
        let first = s.catalog.retired[0];
        assert((first.0, first.1) != (item.0, item.1));
        assert(next.catalog.retired[i - 1] == item);
        law_due_storage_is_released(next, (n - 1) as nat, now, i - 1);
    }
}

/// Only what is released is given back: looking at a version that is not due frees
/// nothing and leaves it in store, at the end of the line; releasing one frees
/// exactly the ranges of its replicas, in their order, and counts its bytes.
pub proof fn law_release_frees_the_replicas(s: Sweep, now: CatalogTick)
    requires
        s.catalog.wf(),
        s.catalog.retired.len() > 0,
    ensures
        ({
            let item = s.catalog.retired[0];
            let was = s.catalog.versions[(item.0, item.1)];
            let end = s.reclaim_step(now);
            &&& !is_due(s.catalog, item, now) ==> end.freed == s.freed && end.catalog.versions
                == s.catalog.versions && end.report == s.report && end.catalog.retired
                == s.catalog.retired.skip(1).push(item)
            &&& is_due(s.catalog, item, now) ==> {
                &&& end.catalog.versions == s.catalog.versions.remove((item.0, item.1))
                &&& end.catalog.retired == s.catalog.retired.skip(1)
                &&& end.freed.len() == s.freed.len() + was.replicas.len()
                &&& forall|k: int|
                    0 <= k < was.replicas.len() ==> #[trigger] end.freed[s.freed.len() + k]
                        == was.replicas[k].reservation
                &&& s.report.reclaimed_bytes + was.reserved_bytes <= u64::MAX
                    ==> end.report.reclaimed_bytes == s.report.reclaimed_bytes
                    + was.reserved_bytes
                &&& s.report.reclaimed_objects < usize::MAX ==> end.report.reclaimed_objects
                    == s.report.reclaimed_objects + 1
                &&& was.replicas.len() > 0 && s.report.reclaimed_memory_bytes + was.reserved_bytes
                    <= u64::MAX ==> end.report.reclaimed_memory_bytes
                    == s.report.reclaimed_memory_bytes + was.reserved_bytes
                &&& s.catalog.reclaim_debt >= was.reserved_bytes ==> end.catalog.reclaim_debt
                    == s.catalog.reclaim_debt - was.reserved_bytes
                &&& s.catalog.reclaim_debt <= was.reserved_bytes ==> end.catalog.reclaim_debt == 0
            }
            &&& end.catalog.slots == s.catalog.slots
            &&& end.catalog.index == s.catalog.index
        }),
{
    let item = s.catalog.retired[0];
    assert(s.catalog.waits_well(s.catalog.retired[0]));
    assert(s.catalog.retired.drop_first() =~= s.catalog.retired.skip(1));
    assert(s.catalog.retired.drop_first().push(item) =~= s.catalog.retired.skip(1).push(item));
}

/// A staged write that nobody commits in time, or whose replicas are gone, is given
/// up when it is looked at: its slot is free for another write, its version waits to
/// be released from now on, and a committed version stays. One that is in time and
/// has its replicas keeps waiting.
pub proof fn law_late_write_is_given_up(s: Sweep, pool: PoolView, now: CatalogTick)
    requires
        s.catalog.wf(),
        s.catalog.pending.len() > 0,
    ensures
        ({
            let item = s.catalog.pending[0];
            let slot = s.catalog.slots[item.0];
            let version = s.catalog.versions[(item.0, item.1)];
            let waits = s.catalog.slots.contains_key(item.0) && slot.staged() == Some(item.1);
            let whole = version.replicas.len() > 0 && forall|k: int|
                0 <= k < version.replicas.len() ==> pool.is_live(
                    (#[trigger] version.replicas[k]).reservation,
                );
            let after = s.pending_step(pool, now);
            &&& waits && (item.2 <= now.value || !whole) ==> {
                &&& after.catalog.slots[item.0].active is None
                &&& after.catalog.slots[item.0].committed == slot.committed
                &&& after.catalog.retired == s.catalog.retired.push(
                    (item.0, item.1, version.reserved_bytes, now.value),
                )
                &&& after.catalog.pending == s.catalog.pending.skip(1)
                &&& whole && s.report.expired_pending < usize::MAX
                    ==> after.report.expired_pending == s.report.expired_pending + 1
                &&& !whole && s.report.invalidated_pending < usize::MAX
                    ==> after.report.invalidated_pending == s.report.invalidated_pending + 1
            }
            &&& waits && item.2 > now.value && whole ==> {
                &&& after.catalog.slots == s.catalog.slots
                &&& after.catalog.versions == s.catalog.versions
                &&& after.catalog.pending == s.catalog.pending.skip(1).push(item)
                &&& after.report == s.report
            }
            &&& !waits ==> after.catalog.slots == s.catalog.slots && after.catalog.versions
                == s.catalog.versions && after.catalog.retired == s.catalog.retired
            &&& after.freed == s.freed
        }),
{
    let item = s.catalog.pending[0];
    let version = s.catalog.versions[(item.0, item.1)];
    assert(s.catalog.pending.drop_first() =~= s.catalog.pending.skip(1));
    assert(s.catalog.pending.drop_first().push(item) =~= s.catalog.pending.skip(1).push(item));
    if s.catalog.slots.contains_key(item.0) {
        assert(s.catalog.slot_wf(item.0));
    }
    if all_live(version.replicas, pool) {
        assert forall|k: int| 0 <= k < version.replicas.len() implies pool.is_live(
            (#[trigger] version.replicas[k]).reservation,
        ) by {
            assert(version.replicas[k].lives(pool));
        }
    } else if version.replicas.len() > 0 {
        let k = choose|k: int|
            0 <= k < version.replicas.len() && !(#[trigger] version.replicas[k]).lives(pool);
        assert(!pool.is_live(version.replicas[k].reservation));
    }
}

/// A candidate whose replicas are all gone is taken down when it is looked at, unless
/// a write is about to replace it; one that has lost some keeps exactly those whose
/// segments are mounted, and the ranges of the others are given back; one that has
/// lost none stays as it is.
pub proof fn law_lost_replicas_are_dropped(
    s: Sweep,
    protected: bool,
    pool: PoolView,
    now: CatalogTick,
)
    requires
        s.catalog.wf(),
        s.catalog.queue(protected).len() > 0,
        s.catalog.points_to(
            s.catalog.queue(protected)[0].0,
            s.catalog.queue(protected)[0].1,
        ),
    ensures
        ({
            let item = s.catalog.queue(protected)[0];
            let key = (item.0, item.1);
            let was = s.catalog.versions[key];
            let after = s.liveness_step(protected, pool, now);
            let lives = |replica: ReplicaLease| pool.is_live(replica.reservation);
            let some = exists|k: int| 0 <= k < was.replicas.len() && lives(#[trigger] was.replicas[k]);
            let all = was.replicas.len() > 0 && forall|k: int|
                0 <= k < was.replicas.len() ==> lives(#[trigger] was.replicas[k]);
            &&& !some && s.catalog.slots[item.0].active is None ==> {
                &&& after.catalog.slots[item.0].committed is None
                &&& after.catalog.retired.len() == s.catalog.retired.len() + 1
                &&& after.catalog.retired.last().0 == item.0
                &&& after.catalog.retired.last().1 == item.1
                &&& after.freed == s.freed
            }
            &&& !some && s.catalog.slots[item.0].active is Some
                ==> after.catalog.slots == s.catalog.slots && after.catalog.versions
                == s.catalog.versions && after.freed == s.freed
            &&& all ==> after.catalog.slots == s.catalog.slots && after.catalog.versions
                == s.catalog.versions && after.freed == s.freed
            &&& some && !all ==> {
                &&& after.catalog.slots == s.catalog.slots
                &&& after.catalog.versions[key].replicas == was.replicas.filter(lives)
                &&& after.catalog.versions[key].committed == was.committed
                &&& after.catalog.versions[key].pins == was.pins
                &&& after.freed == s.freed + was.replicas.filter(
                    |replica: ReplicaLease| !pool.is_live(replica.reservation),
                ).map_values(|replica: ReplicaLease| replica.reservation)
            }
            &&& some ==> after.catalog.queue(protected) == s.catalog.queue(protected).skip(1).push(
                item,
            )
        }),
{
    let item = s.catalog.queue(protected)[0];
    let was = s.catalog.versions[(item.0, item.1)];
    let after = s.liveness_step(protected, pool, now);
    let lives = |replica: ReplicaLease| pool.is_live(replica.reservation);
    assert(s.catalog.slot_wf(item.0));
    assert(s.catalog.queue(protected).drop_first() =~= s.catalog.queue(protected).skip(1));
    let live = |replica: ReplicaLease| replica.lives(pool);
    assert(live =~= lives);
    assert((|replica: ReplicaLease| !replica.lives(pool)) =~= (|replica: ReplicaLease|
        !pool.is_live(replica.reservation)));
    if has_live(was.replicas, pool) {
        let k = choose|k: int| 0 <= k < was.replicas.len() && (#[trigger] was.replicas[k]).lives(pool);
        assert(lives(was.replicas[k]));
    }
    if !all_live(was.replicas, pool) && was.replicas.len() > 0 {
        let k = choose|k: int|
            0 <= k < was.replicas.len() && !(#[trigger] was.replicas[k]).lives(pool);
        assert(!lives(was.replicas[k]));
    }
    if all_live(was.replicas, pool) {
        assert forall|k: int| 0 <= k < was.replicas.len() implies lives(#[trigger] was.replicas[k]) by {
            assert(was.replicas[k].lives(pool));
        }
    }
    let taken = s.catalog.with_queue(
        protected,
        s.catalog.queue(protected).drop_first(),
    ).with_sweep_left(protected, (s.catalog.sweep_left(protected) - 1) as usize);
    if !has_live(was.replicas, pool) && s.catalog.slots[item.0].active is None {
        assert(!all_live(was.replicas, pool)) by {
            if all_live(was.replicas, pool) {
                assert(was.replicas[0].lives(pool));
            }
        }
        assert(after.catalog == taken.taken_down(item.0, now));
        assert(taken.taken_down(item.0, now).slots[item.0].committed is None);
    }
    if exists|k: int| 0 <= k < was.replicas.len() && lives(#[trigger] was.replicas[k]) {
        let k = choose|k: int| 0 <= k < was.replicas.len() && lives(#[trigger] was.replicas[k]);
        assert(was.replicas[k].lives(pool));
    }
}

/// A slot that is still empty when its grace is over is forgotten, and its name with
/// it; one that is in use again, or whose grace runs, stays.
pub proof fn law_empty_slot_is_forgotten(s: Sweep, now: CatalogTick)
    requires
        s.catalog.wf(),
        s.catalog.empty_slots.len() > 0,
    ensures
        ({
            let item = s.catalog.empty_slots[0];
            let slot = s.catalog.slots[item.0];
            let there = s.catalog.slots.contains_key(item.0);
            let empty = there && slot.committed is None && slot.active is None;
            let after = s.empty_step(now).catalog;
            &&& empty && item.1 <= now.value ==> after.slots == s.catalog.slots.remove(item.0)
                && after.index == s.catalog.index.remove(slot.identity@) && after.empty_slots
                == s.catalog.empty_slots.skip(1)
            &&& !empty || item.1 > now.value ==> after.slots == s.catalog.slots && after.index
                == s.catalog.index
            &&& item.1 > now.value ==> after.empty_slots == s.catalog.empty_slots.skip(1).push(item)
            &&& after.versions == s.catalog.versions && after.retired == s.catalog.retired
        }),
{
    let item = s.catalog.empty_slots[0];
    assert(s.catalog.empty_slots.drop_first() =~= s.catalog.empty_slots.skip(1));
    assert(s.catalog.empty_slots.drop_first().push(item) =~= s.catalog.empty_slots.skip(1).push(
        item,
    ));
}

/// A soft pin that has run out is taken off the version that it was noted for, unless
/// that version was pinned anew; one that runs is looked at again. No other
/// protection changes.
pub proof fn law_soft_pin_runs_out(s: Sweep, now: CatalogTick)
    requires
        s.catalog.wf(),
        s.catalog.soft_pins.len() > 0,
    ensures
        ({
            let item = s.catalog.soft_pins[0];
            let key = (item.0, item.1);
            let there = s.catalog.points_to(item.0, item.1);
            let was = s.catalog.versions[key].committed.unwrap().access;
            let after = s.soft_pin_step(now).catalog;
            let is = after.versions[key].committed.unwrap().access;
            &&& there && item.2 <= now.value && was.soft_pin_until == item.2 ==> is.soft_pin_until
                == 0 && is.hard_pinned == was.hard_pinned && is.lease_until == was.lease_until
                && is.recent == was.recent
            &&& !there || item.2 > now.value || was.soft_pin_until != item.2 ==> after.versions
                == s.catalog.versions
            &&& there && item.2 > now.value ==> after.soft_pins == s.catalog.soft_pins.skip(1).push(
                item,
            )
            &&& after.slots == s.catalog.slots && after.retired == s.catalog.retired
        }),
{
    let item = s.catalog.soft_pins[0];
    assert(s.catalog.soft_pins.drop_first() =~= s.catalog.soft_pins.skip(1));
    assert(s.catalog.soft_pins.drop_first().push(item) =~= s.catalog.soft_pins.skip(1).push(item));
}

/// What the passes before storage is released add to: versions that wait to be
/// released keep their places in the line.
pub open spec fn extends(before: Seq<WorkItem>, after: Seq<WorkItem>) -> bool {
    &&& before.len() <= after.len()
    &&& forall|i: int| 0 <= i < before.len() ==> #[trigger] after[i] == before[i]
}

/// A staged write that waits goes on waiting, with its replicas.
pub open spec fn still_staged(before: CatalogView, after: CatalogView, slot: u64, id: u64) -> bool {
    &&& before.is_pending(slot, id) ==> after.is_pending(slot, id) && after.versions[(slot, id)].replicas
        == before.versions[(slot, id)].replicas
    &&& after.is_pending(slot, id) ==> before.is_pending(slot, id)
}

proof fn lemma_soft_pin_pass_line(s: Sweep, n: nat, pool: PoolView, now: CatalogTick, slot: u64, id: u64)
    requires
        s.catalog.wf(),
    ensures
        ({
            let end = s.soft_pin_pass(n, now).catalog;
            &&& end.retired == s.catalog.retired
            &&& end.pending == s.catalog.pending
            &&& still_staged(s.catalog, end, slot, id)
        }),
    decreases n,
{
    if n > 0 && s.catalog.soft_pins.len() > 0 {
        reveal_with_fuel(Sweep::soft_pin_pass, 2);
        lemma_soft_pin_pass_keeps(s, 1, pool, now);
        assert(s.soft_pin_pass(1, now) == s.soft_pin_step(now));
        lemma_soft_pin_pass_line(s.soft_pin_step(now), (n - 1) as nat, pool, now, slot, id);
    }
}

proof fn lemma_liveness_step_line(
    s: Sweep,
    protected: bool,
    pool: PoolView,
    now: CatalogTick,
    slot: u64,
    id: u64,
)
    requires
        s.catalog.wf(),
        s.catalog.queue(protected).len() > 0,
    ensures
        ({
            let end = s.liveness_step(protected, pool, now).catalog;
            &&& extends(s.catalog.retired, end.retired)
            &&& end.pending == s.catalog.pending
            &&& still_staged(s.catalog, end, slot, id)
        }),
{
    let item = s.catalog.queue(protected)[0];
    if s.catalog.slots.contains_key(item.0) {
        assert(s.catalog.slot_wf(item.0));
    }
}

proof fn lemma_liveness_round_line(
    s: Sweep,
    protected: bool,
    n: nat,
    pool: PoolView,
    now: CatalogTick,
    slot: u64,
    id: u64,
)
    requires
        s.catalog.wf(),
        n <= s.catalog.sweep_left(protected),
    ensures
        ({
            let end = s.liveness_round(protected, n, pool, now).catalog;
            &&& extends(s.catalog.retired, end.retired)
            &&& end.pending == s.catalog.pending
            &&& still_staged(s.catalog, end, slot, id)
        }),
    decreases n,
{
    if n > 0 && s.catalog.queue(protected).len() > 0 {
        let next = s.liveness_step(protected, pool, now);
        lemma_liveness_step_keeps(s, protected, pool, now);
        lemma_liveness_step_line(s, protected, pool, now, slot, id);
        lemma_liveness_round_line(next, protected, (n - 1) as nat, pool, now, slot, id);
    }
}

proof fn lemma_evict_line(s: Sweep, item: WorkItem, protected: bool, now: CatalogTick, slot: u64, id: u64)
    requires
        s.catalog.wf(),
    ensures
        ({
            let end = s.evict(item, protected, now).catalog;
            &&& extends(s.catalog.retired, end.retired)
            &&& still_staged(s.catalog, end, slot, id)
        }),
{
    if s.catalog.slots.contains_key(item.0) {
        assert(s.catalog.slot_wf(item.0));
    }
}

proof fn lemma_pending_step_line(s: Sweep, pool: PoolView, now: CatalogTick, slot: u64, id: u64)
    requires
        s.catalog.wf(),
        s.catalog.pending.len() > 0,
    ensures
        ({
            let item = s.catalog.pending[0];
            let end = s.pending_step(pool, now).catalog;
            &&& end.wf()
            &&& extends(s.catalog.retired, end.retired)
            &&& (slot, id) != (item.0, item.1) ==> still_staged(s.catalog, end, slot, id)
            &&& end.is_pending(slot, id) ==> still_staged(s.catalog, end, slot, id)
            &&& end.pending.take(s.catalog.pending.len() - 1) == s.catalog.pending.skip(1)
        }),
{
    let item = s.catalog.pending[0];
    if s.catalog.slots.contains_key(item.0) {
        assert(s.catalog.slot_wf(item.0));
    }
    reveal_with_fuel(Sweep::pending_pass, 2);
    lemma_pending_pass_keeps(s, 1, pool, now);
    assert(s.pending_pass(1, pool, now) == s.pending_step(pool, now));
    assert(s.pending_step(pool, now).catalog.pending.take(s.catalog.pending.len() - 1)
        =~= s.catalog.pending.skip(1));
}

proof fn lemma_pending_pass_line(s: Sweep, n: nat, pool: PoolView, now: CatalogTick, slot: u64, id: u64)
    requires
        s.catalog.wf(),
    ensures
        ({
            let end = s.pending_pass(n, pool, now).catalog;
            &&& extends(s.catalog.retired, end.retired)
            &&& end.is_pending(slot, id) ==> s.catalog.is_pending(slot, id)
        }),
    decreases n,
{
    if n > 0 && s.catalog.pending.len() > 0 {
        let next = s.pending_step(pool, now);
        lemma_pending_step_line(s, pool, now, slot, id);
        lemma_pending_pass_line(next, (n - 1) as nat, pool, now, slot, id);
    }
}

/// Every staged write that is looked at in a pass is given up where it is late or
/// where a replica of it is gone.
pub proof fn law_late_writes_are_given_up(
    s: Sweep,
    n: nat,
    pool: PoolView,
    now: CatalogTick,
    i: int,
)
    requires
        s.catalog.wf(),
        0 <= i < s.catalog.pending.len(),
        i < n,
        s.catalog.pending[i].2 <= now.value || exists|k: int|
            0 <= k < s.catalog.versions[(
                s.catalog.pending[i].0,
                s.catalog.pending[i].1,
            )].replicas.len() && !pool.is_live(
                (#[trigger] s.catalog.versions[(
                    s.catalog.pending[i].0,
                    s.catalog.pending[i].1,
                )].replicas[k]).reservation,
            ),
    ensures
        ({
            let item = s.catalog.pending[i];
            let end = s.pending_pass(n, pool, now).catalog;
            !(end.slots.contains_key(item.0) && end.slots[item.0].staged() == Some(item.1))
        }),
    decreases n,
{
    let item = s.catalog.pending[i];
    let key = (item.0, item.1);
    let next = s.pending_step(pool, now);
    lemma_pending_step_line(s, pool, now, item.0, item.1);
    if i == 0 {
        law_late_write_is_given_up(s, pool, now);
        assert(!next.catalog.is_pending(item.0, item.1));
        lemma_pending_pass_line(next, (n - 1) as nat, pool, now, item.0, item.1);
    } else if !next.catalog.is_pending(item.0, item.1) {
        lemma_pending_pass_line(next, (n - 1) as nat, pool, now, item.0, item.1);
    } else {
        assert(next.catalog.pending[i - 1] == item) by {
            assert(next.catalog.pending.take(s.catalog.pending.len() - 1)[i - 1]
                == s.catalog.pending.skip(1)[i - 1]);
        }
        assert(still_staged(s.catalog, next.catalog, item.0, item.1));
        if item.2 > now.value {
            let k = choose|k: int|
                0 <= k < s.catalog.versions[key].replicas.len() && !pool.is_live(
                    (#[trigger] s.catalog.versions[key].replicas[k]).reservation,
                );
            assert(!pool.is_live(next.catalog.versions[key].replicas[k].reservation));
        }
        law_late_writes_are_given_up(next, (n - 1) as nat, pool, now, i - 1);
    }
}

/// A staged write that is in time and has its replicas is not given up for being
/// late, whatever else is.
pub proof fn law_running_writes_are_kept(
    s: Sweep,
    n: nat,
    pool: PoolView,
    now: CatalogTick,
    slot: u64,
    id: u64,
)
    requires
        s.catalog.wf(),
        s.catalog.slots.contains_key(slot),
        s.catalog.slots[slot].staged() == Some(id),
        s.catalog.versions[(slot, id)].replicas.len() > 0,
        forall|k: int|
            0 <= k < s.catalog.versions[(slot, id)].replicas.len() ==> pool.is_live(
                (#[trigger] s.catalog.versions[(slot, id)].replicas[k]).reservation,
            ),
        forall|i: int|
            0 <= i < s.catalog.pending.len() && (#[trigger] s.catalog.pending[i]).0 == slot
                && s.catalog.pending[i].1 == id ==> s.catalog.pending[i].2 > now.value,
    ensures
        ({
            let end = s.pending_pass(n, pool, now).catalog;
            &&& end.slots.contains_key(slot)
            &&& end.slots[slot].staged() == Some(id)
            &&& end.versions[(slot, id)].replicas == s.catalog.versions[(slot, id)].replicas
        }),
    decreases n,
{
    if n > 0 && s.catalog.pending.len() > 0 {
        let item = s.catalog.pending[0];
        let next = s.pending_step(pool, now);
        lemma_pending_step_line(s, pool, now, slot, id);
        if (item.0, item.1) == (slot, id) {
            law_late_write_is_given_up(s, pool, now);
        }
        assert(next.catalog.is_pending(slot, id));
        assert forall|i: int|
            0 <= i < next.catalog.pending.len() && (#[trigger] next.catalog.pending[i]).0 == slot
                && next.catalog.pending[i].1 == id implies next.catalog.pending[i].2 > now.value by {
            if i < s.catalog.pending.len() - 1 {
                assert(next.catalog.pending.take(s.catalog.pending.len() - 1)[i]
                    == s.catalog.pending.skip(1)[i]);
                assert(next.catalog.pending[i] == s.catalog.pending[i + 1]);
            } else {
                assert(next.catalog.pending[i] == s.catalog.pending[0]);
            }
        }
        law_running_writes_are_kept(next, (n - 1) as nat, pool, now, slot, id);
    }
}

proof fn lemma_down_stays_down(
    s: Sweep,
    protected: bool,
    n: nat,
    pool: PoolView,
    now: CatalogTick,
    slot: u64,
    id: u64,
)
    requires
        !s.catalog.points_to(slot, id),
    ensures
        !s.liveness_round(protected, n, pool, now).catalog.points_to(slot, id),
    decreases n,
{
    if n > 0 && s.catalog.queue(protected).len() > 0 {
        let next = s.liveness_step(protected, pool, now);
        lemma_down_stays_down(next, protected, (n - 1) as nat, pool, now, slot, id);
    }
}

/// Every candidate that is looked at for dead replicas is taken down where none of
/// its replicas is left and no write is about to replace it.
pub proof fn law_dead_objects_are_taken_down(
    s: Sweep,
    protected: bool,
    n: nat,
    pool: PoolView,
    now: CatalogTick,
    i: int,
)
    requires
        s.catalog.wf(),
        n <= s.catalog.sweep_left(protected),
        0 <= i < s.catalog.queue(protected).len(),
        i < n,
        s.catalog.slots[s.catalog.queue(protected)[i].0].active is None,
        forall|k: int|
            0 <= k < s.catalog.versions[(
                s.catalog.queue(protected)[i].0,
                s.catalog.queue(protected)[i].1,
            )].replicas.len() ==> !pool.is_live(
                (#[trigger] s.catalog.versions[(
                    s.catalog.queue(protected)[i].0,
                    s.catalog.queue(protected)[i].1,
                )].replicas[k]).reservation,
            ),
    ensures
        ({
            let item = s.catalog.queue(protected)[i];
            let end = s.liveness_round(protected, n, pool, now).catalog;
            !(end.slots.contains_key(item.0) && end.slots[item.0].committed == Some(item.1))
        }),
    decreases n,
{
    let item = s.catalog.queue(protected)[i];
    let key = (item.0, item.1);
    let next = s.liveness_step(protected, pool, now);
    lemma_liveness_step_keeps(s, protected, pool, now);
    if i == 0 {
        if s.catalog.points_to(item.0, item.1) {
            law_lost_replicas_are_dropped(s, protected, pool, now);
            assert(!next.catalog.points_to(item.0, item.1));
        }
        lemma_down_stays_down(next, protected, (n - 1) as nat, pool, now, item.0, item.1);
    } else if !next.catalog.points_to(item.0, item.1) {
        lemma_down_stays_down(next, protected, (n - 1) as nat, pool, now, item.0, item.1);
    } else {
        let first = s.catalog.queue(protected)[0];
        if s.catalog.points_to(first.0, first.1) {
            law_lost_replicas_are_dropped(s, protected, pool, now);
        }
        assert(next.catalog.queue(protected)[i - 1] == item);
        assert(next.catalog.slots[item.0] == s.catalog.slots[item.0]);
        assert(next.catalog.versions[key].replicas == s.catalog.versions[key].replicas);
        law_dead_objects_are_taken_down(next, protected, (n - 1) as nat, pool, now, i - 1);
    }
}

proof fn lemma_evict_round_line(
    s: Sweep,
    protected: bool,
    n: nat,
    pool: PoolView,
    now: CatalogTick,
    slot: u64,
    id: u64,
)
    requires
        s.catalog.wf(),
    ensures
        ({
            let end = s.evict_round(protected, n, now).catalog;
            &&& extends(s.catalog.retired, end.retired)
            &&& still_staged(s.catalog, end, slot, id)
        }),
    decreases n,
{
    if n > 0 && !s.catalog.debt_covered() && s.catalog.queue(protected).len() > 0 {
        let taken = s.candidate_taken(protected);
        let item = s.catalog.queue(protected)[0];
        let next = taken.evict(item, protected, now);
        lemma_same_core_keeps(s.catalog, taken.catalog, pool, now);
        lemma_evict_keeps(taken, item, protected, pool, now);
        lemma_evict_line(taken, item, protected, now, slot, id);
        lemma_evict_round_line(next, protected, (n - 1) as nat, pool, now, slot, id);
    }
}

proof fn lemma_scoped_round_line(
    s: ScopedSweep,
    protected: bool,
    n: nat,
    pool: PoolView,
    now: CatalogTick,
    slot: u64,
    id: u64,
)
    requires
        s.sweep.catalog.wf(),
    ensures
        ({
            let end = s.round(protected, n, now).sweep.catalog;
            &&& extends(s.sweep.catalog.retired, end.retired)
            &&& still_staged(s.sweep.catalog, end, slot, id)
        }),
    decreases n,
{
    if n > 0 && !all_met(s.debts) && s.sweep.catalog.queue(protected).len() > 0 {
        let taken = s.sweep.candidate_taken(protected);
        let item = s.sweep.catalog.queue(protected)[0];
        lemma_same_core_keeps(s.sweep.catalog, taken.catalog, pool, now);
        lemma_evict_line(taken, item, protected, now, slot, id);
        lemma_scoped_step_keeps(s, protected, pool, now);
        lemma_scoped_round_line(
            s.step(protected, now),
            protected,
            (n - 1) as nat,
            pool,
            now,
            slot,
            id,
        );
    }
}

proof fn lemma_reclaim_pass_line(s: Sweep, n: nat, now: CatalogTick)
    ensures
        s.reclaim_pass(n, now).catalog.slots == s.catalog.slots,
    decreases n,
{
    if n > 0 && s.catalog.retired.len() > 0 {
        lemma_reclaim_pass_line(s.reclaim_step(now), (n - 1) as nat, now);
    }
}

proof fn lemma_empty_pass_line(s: Sweep, n: nat, now: CatalogTick, slot: u64, id: u64)
    ensures
        ({
            let end = s.empty_pass(n, now).catalog;
            &&& end.versions == s.catalog.versions
            &&& end.is_pending(slot, id) == s.catalog.is_pending(slot, id)
        }),
    decreases n,
{
    if n > 0 && s.catalog.empty_slots.len() > 0 {
        lemma_empty_pass_line(s.empty_step(now), (n - 1) as nat, now, slot, id);
    }
}

/// The catalog of a collector step after the liveness sweep, after late writes were
/// given up and after eviction.
pub open spec fn stages(
    catalog: CatalogView,
    pool: PoolView,
    now: CatalogTick,
    budget: CollectBudget,
    targets: Seq<ReclaimTarget>,
) -> (Sweep, Sweep, Sweep) {
    let start = Sweep {
        catalog: catalog.sweep_begun(),
        report: CollectReport::nothing(),
        freed: Seq::empty(),
        scanned: 0,
    };
    let candidates = budget.max_candidates as nat;
    let unpinned = start.soft_pin_pass(lesser(start.catalog.soft_pins.len(), candidates), now);
    let checked = unpinned.liveness_pass(candidates, pool, now);
    let expired = checked.pending_pass(
        lesser(checked.catalog.pending.len(), candidates),
        pool,
        now,
    );
    (checked, expired, expired.eviction_phase(candidates, targets, now))
}

proof fn lemma_first_stage(
    catalog: CatalogView,
    pool: PoolView,
    now: CatalogTick,
    budget: CollectBudget,
    targets: Seq<ReclaimTarget>,
    slot: u64,
    id: u64,
)
    requires
        catalog.wf(),
    ensures
        ({
            let checked = stages(catalog, pool, now, budget, targets).0;
            &&& keeps(catalog, checked.catalog, pool, now)
            &&& extends(catalog.retired, checked.catalog.retired)
            &&& checked.catalog.pending == catalog.pending
            &&& still_staged(catalog, checked.catalog, slot, id)
            &&& checked.scanned <= budget.max_candidates
        }),
{
    let start = Sweep {
        catalog: catalog.sweep_begun(),
        report: CollectReport::nothing(),
        freed: Seq::empty(),
        scanned: 0,
    };
    let candidates = budget.max_candidates as nat;
    lemma_same_core_keeps(catalog, start.catalog, pool, now);
    let n = lesser(start.catalog.soft_pins.len(), candidates);
    let unpinned = start.soft_pin_pass(n, now);
    lemma_soft_pin_pass_keeps(start, n, pool, now);
    lemma_soft_pin_pass_line(start, n, pool, now, slot, id);
    lemma_keeps_chain(catalog, start.catalog, unpinned.catalog, pool, now);
    let fresh = Sweep { scanned: 0, ..unpinned };
    let n = lesser(fresh.catalog.sweep_left(false) as nat, candidates);
    let young = fresh.liveness_round(false, n, pool, now);
    lemma_liveness_round_keeps(fresh, false, n, pool, now);
    lemma_liveness_round_line(fresh, false, n, pool, now, slot, id);
    lemma_keeps_chain(catalog, unpinned.catalog, young.catalog, pool, now);
    let n = lesser(young.catalog.sweep_left(true) as nat, (candidates - young.scanned) as nat);
    let checked = young.liveness_round(true, n, pool, now);
    lemma_liveness_round_keeps(young, true, n, pool, now);
    lemma_liveness_round_line(young, true, n, pool, now, slot, id);
    lemma_keeps_chain(catalog, young.catalog, checked.catalog, pool, now);
    assert(checked == unpinned.liveness_pass(candidates, pool, now));
}

/// What holds of a catalog before its storage is released.
pub proof fn lemma_last_stage(
    catalog: CatalogView,
    pool: PoolView,
    now: CatalogTick,
    budget: CollectBudget,
    targets: Seq<ReclaimTarget>,
    slot: u64,
    id: u64,
)
    requires
        catalog.wf(),
    ensures
        ({
            let expired = stages(catalog, pool, now, budget, targets).1;
            let evicted = stages(catalog, pool, now, budget, targets).2;
            &&& keeps(catalog, expired.catalog, pool, now)
            &&& keeps(catalog, evicted.catalog, pool, now)
            &&& extends(catalog.retired, evicted.catalog.retired)
            &&& still_staged(expired.catalog, evicted.catalog, slot, id)
        }),
{
    lemma_first_stage(catalog, pool, now, budget, targets, slot, id);
    let (checked, expired, evicted) = stages(catalog, pool, now, budget, targets);
    let candidates = budget.max_candidates as nat;
    let n = lesser(checked.catalog.pending.len(), candidates);
    lemma_pending_pass_keeps(checked, n, pool, now);
    lemma_pending_pass_line(checked, n, pool, now, slot, id);
    lemma_keeps_chain(catalog, checked.catalog, expired.catalog, pool, now);
    if expired.catalog.sweep_left(false) == 0 && expired.catalog.sweep_left(true) == 0 {
        let left = if candidates < expired.scanned {
            0
        } else {
            (candidates - expired.scanned) as nat
        };
        let scoped = expired.scoped_pass(left, targets, now);
        let begin = Sweep { scanned: 0, ..expired };
        let debts = open_targets(targets);
        if left == 0 || debts.len() == 0 {
            assert(scoped == begin);
        } else {
            let first = ScopedSweep { sweep: begin, debts };
            let n = lesser(begin.catalog.young.len(), left);
            let half = first.round(false, n, now);
            lemma_scoped_round_keeps(first, false, n, pool, now);
            lemma_scoped_round_line(first, false, n, pool, now, slot, id);
            lemma_keeps_chain(catalog, expired.catalog, half.sweep.catalog, pool, now);
            let n = lesser(begin.catalog.protected.len(), (left - half.sweep.scanned) as nat);
            lemma_scoped_round_keeps(half, true, n, pool, now);
            lemma_scoped_round_line(half, true, n, pool, now, slot, id);
            lemma_keeps_chain(
                catalog,
                half.sweep.catalog,
                half.round(true, n, now).sweep.catalog,
                pool,
                now,
            );
            assert(scoped == half.round(true, n, now).sweep);
        }
        let rest = if left < scoped.scanned {
            0
        } else {
            (left - scoped.scanned) as nat
        };
        let again = Sweep { scanned: 0, ..scoped };
        let n = lesser(again.catalog.young.len(), rest);
        let half = again.evict_round(false, n, now);
        lemma_evict_round_keeps(again, false, n, pool, now);
        lemma_evict_round_line(again, false, n, pool, now, slot, id);
        lemma_keeps_chain(catalog, scoped.catalog, half.catalog, pool, now);
        let n = lesser(again.catalog.protected.len(), (rest - half.scanned) as nat);
        lemma_evict_round_keeps(half, true, n, pool, now);
        lemma_evict_round_line(half, true, n, pool, now, slot, id);
        assert(evicted == half.evict_round(true, n, now));
        lemma_keeps_chain(catalog, half.catalog, evicted.catalog, pool, now);
    }
}

/// A collector step releases what is due: of the versions that wait, each of the
/// first ones, as many as the budget allows to be released, is gone after the step
/// where its time had come and nobody held on to it.
pub proof fn law_collector_releases_what_is_due(
    catalog: CatalogView,
    pool: PoolView,
    now: CatalogTick,
    budget: CollectBudget,
    targets: Seq<ReclaimTarget>,
    i: int,
)
    requires
        catalog.wf(),
        0 <= i < catalog.retired.len(),
        i < budget.max_reclaims,
        catalog.retired[i].3 <= now.value,
        catalog.versions[(catalog.retired[i].0, catalog.retired[i].1)].pins == 0,
    ensures
        !catalog.collected(pool, now, budget, targets).catalog.versions.contains_key(
            (catalog.retired[i].0, catalog.retired[i].1),
        ),
{
    reveal(CatalogView::collected);
    let item = catalog.retired[i];
    lemma_last_stage(catalog, pool, now, budget, targets, item.0, item.1);
    let evicted = stages(catalog, pool, now, budget, targets).2;
    let n = lesser(evicted.catalog.retired.len(), budget.max_reclaims as nat);
    assert(evicted.catalog.retired[i] == item);
    assert(evicted.catalog.waits_well(evicted.catalog.retired[i]));
    assert(outlives(catalog, evicted.catalog, item.0, item.1, now));
    law_due_storage_is_released(evicted, n, now, i);
    let reclaimed = evicted.reclaim_pass(n, now);
    let n = lesser(reclaimed.catalog.empty_slots.len(), budget.max_empty_slots as nat);
    lemma_empty_pass_line(reclaimed, n, now, item.0, item.1);
}

/// A collector step gives up late writes: of the staged writes, each of the first
/// ones, as many as the budget allows to be looked at, is given up where its time is
/// over or a replica of it is gone.
pub proof fn law_collector_gives_up_late_writes(
    catalog: CatalogView,
    pool: PoolView,
    now: CatalogTick,
    budget: CollectBudget,
    targets: Seq<ReclaimTarget>,
    i: int,
)
    requires
        catalog.wf(),
        0 <= i < catalog.pending.len(),
        i < budget.max_candidates,
        catalog.pending[i].2 <= now.value || exists|k: int|
            0 <= k < catalog.versions[(catalog.pending[i].0, catalog.pending[i].1)].replicas.len()
                && !pool.is_live(
                (#[trigger] catalog.versions[(
                    catalog.pending[i].0,
                    catalog.pending[i].1,
                )].replicas[k]).reservation,
            ),
    ensures
        ({
            let item = catalog.pending[i];
            let after = catalog.collected(pool, now, budget, targets).catalog;
            !(after.slots.contains_key(item.0) && after.slots[item.0].staged() == Some(item.1))
        }),
{
    reveal(CatalogView::collected);
    let item = catalog.pending[i];
    let key = (item.0, item.1);
    lemma_first_stage(catalog, pool, now, budget, targets, item.0, item.1);
    lemma_last_stage(catalog, pool, now, budget, targets, item.0, item.1);
    let (checked, expired, evicted) = stages(catalog, pool, now, budget, targets);
    let n = lesser(checked.catalog.pending.len(), budget.max_candidates as nat);
    if checked.catalog.is_pending(item.0, item.1) {
        if item.2 > now.value {
            let k = choose|k: int|
                0 <= k < catalog.versions[key].replicas.len() && !pool.is_live(
                    (#[trigger] catalog.versions[key].replicas[k]).reservation,
                );
            assert(!pool.is_live(checked.catalog.versions[key].replicas[k].reservation));
        }
        law_late_writes_are_given_up(checked, n, pool, now, i);
    } else {
        lemma_pending_pass_line(checked, n, pool, now, item.0, item.1);
    }
    lemma_unstaged_to_the_end(evicted, now, budget, item.0, item.1);
}

proof fn lemma_unstaged_to_the_end(
    evicted: Sweep,
    now: CatalogTick,
    budget: CollectBudget,
    slot: u64,
    id: u64,
)
    ensures
        ({
            let reclaimed = evicted.reclaim_pass(
                lesser(evicted.catalog.retired.len(), budget.max_reclaims as nat),
                now,
            );
            let end = reclaimed.empty_pass(
                lesser(reclaimed.catalog.empty_slots.len(), budget.max_empty_slots as nat),
                now,
            );
            end.catalog.is_pending(slot, id) == evicted.catalog.is_pending(slot, id)
        }),
{
    let n = lesser(evicted.catalog.retired.len(), budget.max_reclaims as nat);
    let reclaimed = evicted.reclaim_pass(n, now);
    lemma_reclaim_pass_line(evicted, n, now);
    let n = lesser(reclaimed.catalog.empty_slots.len(), budget.max_empty_slots as nat);
    lemma_empty_pass_line(reclaimed, n, now, slot, id);
}

/// A collector step leaves running writes alone: one that is in time and has its
/// replicas is still staged after the step.
pub proof fn law_collector_keeps_running_writes(
    catalog: CatalogView,
    pool: PoolView,
    now: CatalogTick,
    budget: CollectBudget,
    targets: Seq<ReclaimTarget>,
    slot: u64,
    id: u64,
)
    requires
        catalog.wf(),
        catalog.slots.contains_key(slot),
        catalog.slots[slot].staged() == Some(id),
        catalog.versions[(slot, id)].replicas.len() > 0,
        forall|k: int|
            0 <= k < catalog.versions[(slot, id)].replicas.len() ==> pool.is_live(
                (#[trigger] catalog.versions[(slot, id)].replicas[k]).reservation,
            ),
        forall|i: int|
            0 <= i < catalog.pending.len() && (#[trigger] catalog.pending[i]).0 == slot
                && catalog.pending[i].1 == id ==> catalog.pending[i].2 > now.value,
    ensures
        ({
            let after = catalog.collected(pool, now, budget, targets).catalog;
            &&& after.slots.contains_key(slot)
            &&& after.slots[slot].staged() == Some(id)
        }),
{
    reveal(CatalogView::collected);
    lemma_first_stage(catalog, pool, now, budget, targets, slot, id);
    lemma_last_stage(catalog, pool, now, budget, targets, slot, id);
    let (checked, expired, evicted) = stages(catalog, pool, now, budget, targets);
    let n = lesser(checked.catalog.pending.len(), budget.max_candidates as nat);
    assert(checked.catalog.is_pending(slot, id));
    law_running_writes_are_kept(checked, n, pool, now, slot, id);
    lemma_unstaged_to_the_end(evicted, now, budget, slot, id);
}

/// With nothing to sweep for and no targets, a collector step evicts until as much is
/// retired as was asked for, or until it has looked at every candidate or as many as
/// the budget allows.
pub proof fn law_eviction_phase_covers_the_debt(
    s: Sweep,
    budget: nat,
    now: CatalogTick,
)
    requires
        s.catalog.liveness.young_remaining == 0,
        s.catalog.liveness.protected_remaining == 0,
        s.scanned == 0,
    ensures
        ({
            let end = s.eviction_phase(budget, Seq::empty(), now);
            let all = s.catalog.young.len() + s.catalog.protected.len();
            end.catalog.reclaim_debt <= end.catalog.counters.retired_bytes || end.scanned == budget
                || end.scanned == all
        }),
{
    let none = Seq::<ReclaimTarget>::empty();
    broadcast use vstd::seq_lib::group_filter_ensures;

    assert(open_targets(none).len() == 0);
    let scoped = s.scoped_pass(budget, none, now);
    law_eviction_covers_the_debt(scoped, budget, now);
}

proof fn lemma_scoped_round_goes_on(s: ScopedSweep, protected: bool, n: nat, now: CatalogTick)
    requires
        n <= s.sweep.catalog.queue(protected).len(),
    ensures
        ({
            let end = s.round(protected, n, now);
            &&& all_met(end.debts) || end.sweep.scanned == s.sweep.scanned + n
            &&& end.sweep.scanned <= s.sweep.scanned + n
            &&& !protected ==> end.sweep.catalog.protected.len()
                >= s.sweep.catalog.protected.len()
        }),
    decreases n,
{
    if n > 0 && !all_met(s.debts) {
        lemma_scoped_round_goes_on(s.step(protected, now), protected, (n - 1) as nat, now);
    }
}

/// Eviction for targets goes on until every target is met: a round over a queue stops
/// short only where no target is open any more.
pub proof fn law_targets_are_met(s: ScopedSweep, protected: bool, now: CatalogTick)
    ensures
        ({
            let waiting = s.sweep.catalog.queue(protected).len();
            let end = s.round(protected, waiting, now);
            ||| end.sweep.scanned == s.sweep.scanned + waiting
            ||| forall|i: int| 0 <= i < end.debts.len() ==> (#[trigger] end.debts[i]).bytes == 0
        }),
{
    lemma_scoped_round_goes_on(s, protected, s.sweep.catalog.queue(protected).len(), now);
}

/// Whether a version is no longer committed, or has lost all its replicas and is not
/// about to be replaced.
pub open spec fn is_dead(catalog: CatalogView, pool: PoolView, slot: u64, id: u64) -> bool {
    catalog.points_to(slot, id) ==> {
        &&& catalog.slots[slot].active is None
        &&& forall|k: int|
            0 <= k < catalog.versions[(slot, id)].replicas.len() ==> !pool.is_live(
                (#[trigger] catalog.versions[(slot, id)].replicas[k]).reservation,
            )
    }
}

proof fn lemma_dead_through_soft_pins(
    s: Sweep,
    n: nat,
    pool: PoolView,
    now: CatalogTick,
    slot: u64,
    id: u64,
)
    requires
        is_dead(s.catalog, pool, slot, id),
    ensures
        ({
            let end = s.soft_pin_pass(n, now).catalog;
            &&& is_dead(end, pool, slot, id)
            &&& end.young == s.catalog.young
            &&& end.protected == s.catalog.protected
            &&& end.liveness == s.catalog.liveness
        }),
    decreases n,
{
    if n > 0 && s.catalog.soft_pins.len() > 0 {
        let next = s.soft_pin_step(now);
        if next.catalog.points_to(slot, id) {
            assert(next.catalog.versions[(slot, id)].replicas == s.catalog.versions[(
                slot,
                id,
            )].replicas);
        }
        lemma_dead_through_soft_pins(next, (n - 1) as nat, pool, now, slot, id);
    }
}

proof fn lemma_dead_through_step(
    s: Sweep,
    protected: bool,
    pool: PoolView,
    now: CatalogTick,
    slot: u64,
    id: u64,
)
    requires
        s.catalog.wf(),
        s.catalog.queue(protected).len() > 0,
        is_dead(s.catalog, pool, slot, id),
    ensures
        ({
            let end = s.liveness_step(protected, pool, now).catalog;
            &&& is_dead(end, pool, slot, id)
            &&& end.queue(!protected) == s.catalog.queue(!protected)
            &&& end.sweep_left(!protected) == s.catalog.sweep_left(!protected)
        }),
{
    let item = s.catalog.queue(protected)[0];
    let next = s.liveness_step(protected, pool, now);
    if s.catalog.points_to(item.0, item.1) {
        law_lost_replicas_are_dropped(s, protected, pool, now);
    }
    if next.catalog.points_to(slot, id) {
        assert(s.catalog.points_to(slot, id));
        if (item.0, item.1) != (slot, id) {
            assert(next.catalog.versions[(slot, id)].replicas == s.catalog.versions[(
                slot,
                id,
            )].replicas);
        }
    }
}

proof fn lemma_dead_through_round(
    s: Sweep,
    protected: bool,
    n: nat,
    pool: PoolView,
    now: CatalogTick,
    slot: u64,
    id: u64,
)
    requires
        s.catalog.wf(),
        n <= s.catalog.sweep_left(protected),
        is_dead(s.catalog, pool, slot, id),
    ensures
        ({
            let end = s.liveness_round(protected, n, pool, now);
            &&& is_dead(end.catalog, pool, slot, id)
            &&& end.catalog.queue(!protected) == s.catalog.queue(!protected)
            &&& end.catalog.sweep_left(!protected) == s.catalog.sweep_left(!protected)
            &&& end.scanned <= s.scanned + n
        }),
    decreases n,
{
    if n > 0 && s.catalog.queue(protected).len() > 0 {
        let next = s.liveness_step(protected, pool, now);
        lemma_liveness_step_keeps(s, protected, pool, now);
        lemma_dead_through_step(s, protected, pool, now, slot, id);
        lemma_dead_through_round(next, protected, (n - 1) as nat, pool, now, slot, id);
    }
}

proof fn lemma_down_through_pending(s: Sweep, n: nat, pool: PoolView, now: CatalogTick, slot: u64, id: u64)
    requires
        !s.catalog.points_to(slot, id),
    ensures
        !s.pending_pass(n, pool, now).catalog.points_to(slot, id),
    decreases n,
{
    if n > 0 && s.catalog.pending.len() > 0 {
        lemma_down_through_pending(s.pending_step(pool, now), (n - 1) as nat, pool, now, slot, id);
    }
}

proof fn lemma_down_through_evictions(
    s: Sweep,
    protected: bool,
    n: nat,
    now: CatalogTick,
    slot: u64,
    id: u64,
)
    requires
        !s.catalog.points_to(slot, id),
    ensures
        !s.evict_round(protected, n, now).catalog.points_to(slot, id),
    decreases n,
{
    if n > 0 && !s.catalog.debt_covered() && s.catalog.queue(protected).len() > 0 {
        let next = s.candidate_taken(protected).evict(
            s.catalog.queue(protected)[0],
            protected,
            now,
        );
        lemma_down_through_evictions(next, protected, (n - 1) as nat, now, slot, id);
    }
}

proof fn lemma_down_through_targets(
    s: ScopedSweep,
    protected: bool,
    n: nat,
    now: CatalogTick,
    slot: u64,
    id: u64,
)
    requires
        !s.sweep.catalog.points_to(slot, id),
    ensures
        !s.round(protected, n, now).sweep.catalog.points_to(slot, id),
    decreases n,
{
    if n > 0 && !all_met(s.debts) && s.sweep.catalog.queue(protected).len() > 0 {
        lemma_down_through_targets(
            s.step(protected, now),
            protected,
            (n - 1) as nat,
            now,
            slot,
            id,
        );
    }
}

proof fn lemma_down_through_empties(s: Sweep, n: nat, now: CatalogTick, slot: u64, id: u64)
    requires
        !s.catalog.points_to(slot, id),
    ensures
        !s.empty_pass(n, now).catalog.points_to(slot, id),
    decreases n,
{
    if n > 0 && s.catalog.empty_slots.len() > 0 {
        lemma_down_through_empties(s.empty_step(now), (n - 1) as nat, now, slot, id);
    }
}

/// What was taken down before late writes are looked at is down when the step ends.
proof fn lemma_down_to_the_end(
    catalog: CatalogView,
    pool: PoolView,
    now: CatalogTick,
    budget: CollectBudget,
    targets: Seq<ReclaimTarget>,
    slot: u64,
    id: u64,
)
    requires
        !stages(catalog, pool, now, budget, targets).0.catalog.points_to(slot, id),
    ensures
        !catalog.collected(pool, now, budget, targets).catalog.points_to(slot, id),
{
    reveal(CatalogView::collected);
    let (checked, expired, evicted) = stages(catalog, pool, now, budget, targets);
    let candidates = budget.max_candidates as nat;
    let n = lesser(checked.catalog.pending.len(), candidates);
    lemma_down_through_pending(checked, n, pool, now, slot, id);
    if expired.catalog.sweep_left(false) == 0 && expired.catalog.sweep_left(true) == 0 {
        let left = if candidates < expired.scanned {
            0
        } else {
            (candidates - expired.scanned) as nat
        };
        let scoped = expired.scoped_pass(left, targets, now);
        let begin = Sweep { scanned: 0, ..expired };
        let debts = open_targets(targets);
        if left != 0 && debts.len() != 0 {
            let first = ScopedSweep { sweep: begin, debts };
            let n = lesser(begin.catalog.young.len(), left);
            let half = first.round(false, n, now);
            lemma_down_through_targets(first, false, n, now, slot, id);
            let n = lesser(begin.catalog.protected.len(), (left - half.sweep.scanned) as nat);
            lemma_down_through_targets(half, true, n, now, slot, id);
        }
        let rest = if left < scoped.scanned {
            0
        } else {
            (left - scoped.scanned) as nat
        };
        let again = Sweep { scanned: 0, ..scoped };
        let n = lesser(again.catalog.young.len(), rest);
        let half = again.evict_round(false, n, now);
        lemma_down_through_evictions(again, false, n, now, slot, id);
        let n = lesser(again.catalog.protected.len(), (rest - half.scanned) as nat);
        lemma_down_through_evictions(half, true, n, now, slot, id);
    }
    let n = lesser(evicted.catalog.retired.len(), budget.max_reclaims as nat);
    lemma_reclaim_pass_line(evicted, n, now);
    let reclaimed = evicted.reclaim_pass(n, now);
    let n = lesser(reclaimed.catalog.empty_slots.len(), budget.max_empty_slots as nat);
    lemma_down_through_empties(reclaimed, n, now, slot, id);
}

/// A collector step that is asked for a sweep takes down what is lost: a candidate
/// whose segments are all gone, and that no write is about to replace, is not
/// committed any more after the step, as far as the budget reaches: the young
/// candidates come first, then the protected ones.
pub proof fn law_collector_takes_down_lost_objects(
    catalog: CatalogView,
    pool: PoolView,
    now: CatalogTick,
    budget: CollectBudget,
    targets: Seq<ReclaimTarget>,
    protected: bool,
    i: int,
)
    requires
        catalog.wf(),
        catalog.liveness.requested,
        catalog.young.len() <= usize::MAX,
        catalog.protected.len() <= usize::MAX,
        0 <= i < catalog.queue(protected).len(),
        !protected ==> i < budget.max_candidates,
        protected ==> catalog.liveness.young_remaining + i < budget.max_candidates
            && catalog.young.len() + i < budget.max_candidates,
        catalog.slots[catalog.queue(protected)[i].0].active is None,
        forall|k: int|
            0 <= k < catalog.versions[(
                catalog.queue(protected)[i].0,
                catalog.queue(protected)[i].1,
            )].replicas.len() ==> !pool.is_live(
                (#[trigger] catalog.versions[(
                    catalog.queue(protected)[i].0,
                    catalog.queue(protected)[i].1,
                )].replicas[k]).reservation,
            ),
    ensures
        ({
            let item = catalog.queue(protected)[i];
            let after = catalog.collected(pool, now, budget, targets).catalog;
            !(after.slots.contains_key(item.0) && after.slots[item.0].committed == Some(item.1))
        }),
{
    let item = catalog.queue(protected)[i];
    let start = Sweep {
        catalog: catalog.sweep_begun(),
        report: CollectReport::nothing(),
        freed: Seq::empty(),
        scanned: 0,
    };
    let candidates = budget.max_candidates as nat;
    lemma_same_core_keeps(catalog, start.catalog, pool, now);
    let n = lesser(start.catalog.soft_pins.len(), candidates);
    let unpinned = start.soft_pin_pass(n, now);
    lemma_soft_pin_pass_keeps(start, n, pool, now);
    lemma_dead_through_soft_pins(start, n, pool, now, item.0, item.1);
    let fresh = Sweep { scanned: 0, ..unpinned };
    let n = lesser(fresh.catalog.sweep_left(false) as nat, candidates);
    let young = fresh.liveness_round(false, n, pool, now);
    lemma_liveness_round_keeps(fresh, false, n, pool, now);
    lemma_dead_through_round(fresh, false, n, pool, now, item.0, item.1);
    let m = lesser(young.catalog.sweep_left(true) as nat, (candidates - young.scanned) as nat);
    let checked = young.liveness_round(true, m, pool, now);
    assert(checked == unpinned.liveness_pass(candidates, pool, now));
    if !protected {
        lemma_dead_is_taken_down(fresh, false, n, pool, now, i);
        lemma_down_stays_down(young, true, m, pool, now, item.0, item.1);
    } else {
        lemma_dead_is_taken_down(young, true, m, pool, now, i);
    }
    lemma_down_to_the_end(catalog, pool, now, budget, targets, item.0, item.1);
}

proof fn lemma_dead_is_taken_down(
    s: Sweep,
    protected: bool,
    n: nat,
    pool: PoolView,
    now: CatalogTick,
    i: int,
)
    requires
        s.catalog.wf(),
        n <= s.catalog.sweep_left(protected),
        0 <= i < s.catalog.queue(protected).len(),
        i < n,
        is_dead(
            s.catalog,
            pool,
            s.catalog.queue(protected)[i].0,
            s.catalog.queue(protected)[i].1,
        ),
    ensures
        ({
            let item = s.catalog.queue(protected)[i];
            !s.liveness_round(protected, n, pool, now).catalog.points_to(item.0, item.1)
        }),
{
    let item = s.catalog.queue(protected)[i];
    if s.catalog.points_to(item.0, item.1) {
        law_dead_objects_are_taken_down(s, protected, n, pool, now, i);
    } else {
        lemma_down_stays_down(s, protected, n, pool, now, item.0, item.1);
    }
}

/// Whether a staged write belongs to one of given owners.
pub open spec fn is_theirs(catalog: CatalogView, slot: u64, id: u64, owners: Seq<WriteOwner>) -> bool {
    catalog.is_pending(slot, id) && owners.contains(catalog.slots[slot].active.unwrap().owner)
}

proof fn lemma_revocation_step(
    s: Revocation,
    pool: PoolView,
    owners: Seq<WriteOwner>,
    now: CatalogTick,
    slot: u64,
    id: u64,
)
    requires
        s.catalog.pending.len() > 0,
    ensures
        ({
            let item = s.catalog.pending[0];
            let next = s.step(pool, owners, now).catalog;
            &&& next.is_pending(slot, id) ==> s.catalog.is_pending(slot, id)
                && next.slots[slot].active == s.catalog.slots[slot].active
            &&& s.catalog.is_pending(slot, id) && !is_theirs(s.catalog, slot, id, owners)
                ==> next.is_pending(slot, id)
            &&& (item.0, item.1) == (slot, id) ==> !is_theirs(next, slot, id, owners)
            &&& next.pending.len() >= s.catalog.pending.len() - 1
            &&& next.pending.take(s.catalog.pending.len() - 1) == s.catalog.pending.skip(1)
        }),
{
    assert(s.step(pool, owners, now).catalog.pending.take(s.catalog.pending.len() - 1)
        =~= s.catalog.pending.skip(1));
}

proof fn lemma_revocation_spares(
    s: Revocation,
    n: nat,
    pool: PoolView,
    owners: Seq<WriteOwner>,
    now: CatalogTick,
    slot: u64,
    id: u64,
)
    ensures
        ({
            let end = s.pass(n, pool, owners, now).catalog;
            &&& end.is_pending(slot, id) ==> s.catalog.is_pending(slot, id)
                && end.slots[slot].active == s.catalog.slots[slot].active
            &&& s.catalog.is_pending(slot, id) && !is_theirs(s.catalog, slot, id, owners)
                ==> end.is_pending(slot, id)
        }),
    decreases n,
{
    if n > 0 && s.catalog.pending.len() > 0 {
        let next = s.step(pool, owners, now);
        lemma_revocation_step(s, pool, owners, now, slot, id);
        lemma_revocation_spares(next, (n - 1) as nat, pool, owners, now, slot, id);
    }
}

proof fn lemma_revocation_reaches(
    s: Revocation,
    n: nat,
    pool: PoolView,
    owners: Seq<WriteOwner>,
    now: CatalogTick,
    i: int,
)
    requires
        0 <= i < s.catalog.pending.len(),
        i < n,
    ensures
        !is_theirs(
            s.pass(n, pool, owners, now).catalog,
            s.catalog.pending[i].0,
            s.catalog.pending[i].1,
            owners,
        ),
    decreases n,
{
    let item = s.catalog.pending[i];
    let next = s.step(pool, owners, now);
    lemma_revocation_step(s, pool, owners, now, item.0, item.1);
    if i == 0 {
        lemma_revocation_spares(next, (n - 1) as nat, pool, owners, now, item.0, item.1);
    } else {
        assert(next.catalog.pending[i - 1] == item) by {
            assert(next.catalog.pending.take(s.catalog.pending.len() - 1)[i - 1]
                == s.catalog.pending.skip(1)[i - 1]);
        }
        lemma_revocation_reaches(next, (n - 1) as nat, pool, owners, now, i - 1);
    }
}

/// Revoking gives up every staged write of the sessions that are named, and none of
/// any other owner. Owners without a session are left alone.
pub proof fn law_revoking_sessions(
    catalog: CatalogView,
    pool: PoolView,
    owners: Seq<WriteOwner>,
    now: CatalogTick,
    i: int,
)
    requires
        0 <= i < catalog.pending.len(),
    ensures
        ({
            let slot = catalog.pending[i].0;
            let id = catalog.pending[i].1;
            let after = catalog.revoked(pool, owners, now).catalog;
            let staged = catalog.slots.contains_key(slot) && catalog.slots[slot].staged()
                == Some(id);
            let owner = catalog.slots[slot].active.unwrap().owner;
            let stays = after.slots.contains_key(slot) && after.slots[slot].staged() == Some(id);
            &&& staged && owners.contains(owner) && owner.session_generation != 0 ==> !stays
            &&& staged && !owners.contains(owner) ==> stays
            &&& staged && owner.session_generation == 0 ==> stays
            &&& stays ==> staged
        }),
{
    let item = catalog.pending[i];
    let start = Revocation { catalog, revoked: 0 };
    let sessions = session_owners(owners);
    let named = |owner: WriteOwner| owner.session_generation != 0;
    assert(sessions == owners.filter(named));
    if catalog.is_pending(item.0, item.1) {
        let owner = catalog.slots[item.0].active.unwrap().owner;
        if owners.contains(owner) && named(owner) {
            let k = choose|k: int| 0 <= k < owners.len() && owners[k] == owner;
            owners.lemma_filter_contains(named, k);
            assert(sessions.contains(owner));
        }
        if sessions.contains(owner) {
            owners.lemma_filter_contains_rev(named, owner);
            let k = choose|k: int| 0 <= k < sessions.len() && sessions[k] == owner;
            owners.lemma_filter_pred(named, k);
        }
    }
    if sessions.len() > 0 {
        lemma_revocation_reaches(start, catalog.pending.len(), pool, sessions, now, i);
        lemma_revocation_spares(
            start,
            catalog.pending.len(),
            pool,
            sessions,
            now,
            item.0,
            item.1,
        );
    }
}

/// Charges follow what becomes of an object: giving up a staged write takes its bytes,
/// once for each replica, out of the demand; taking a version down notes them as on
/// their way out; releasing it takes them out everywhere.
pub proof fn law_charges_follow_objects(
    s: Sweep,
    pool: PoolView,
    slot: u64,
    now: CatalogTick,
)
    requires
        s.catalog.wf(),
        s.catalog.slots.contains_key(slot),
    ensures
        ({
            let held = s.catalog.slots[slot];
            let active = held.active.unwrap();
            let staged = s.catalog.versions[(slot, active.id)];
            let published = s.catalog.versions[(slot, held.committed.unwrap())];
            &&& held.staged() is Some && staged.accounting is Some ==> {
                let tenant = staged.accounting.unwrap().tenant;
                let bytes = staged.content.logical_bytes * staged.replicas.len();
                let was = s.catalog.accounts[tenant].memory;
                let after = s.catalog.abandoned(pool, slot, now).accounts[tenant].memory;
                &&& bytes <= was.demand ==> after.demand == was.demand - bytes
                &&& after.used == was.used && after.retiring == was.retiring
            }
            &&& held.committed is Some && published.accounting is Some ==> {
                let tenant = published.accounting.unwrap().tenant;
                let bytes = published.content.logical_bytes * published.replicas.len();
                let was = s.catalog.accounts[tenant].memory;
                let after = s.catalog.taken_down(slot, now).accounts[tenant].memory;
                &&& was.retiring + bytes <= u64::MAX ==> after.retiring == was.retiring + bytes
                &&& after.used == was.used && after.demand == was.demand
            }
        }),
{
    assert(s.catalog.slot_wf(slot));
    if s.catalog.slots[slot].staged() is Some {
        assert(s.catalog.version_wf(slot, s.catalog.slots[slot].active.unwrap().id));
    }
    if s.catalog.slots[slot].committed is Some {
        assert(s.catalog.version_wf(slot, s.catalog.slots[slot].committed.unwrap()));
    }
}

/// Releasing a version gives its charge back: where it was on its way out, its bytes
/// leave the demand, the use and what is on its way out.
pub proof fn law_release_gives_the_charge_back(s: Sweep, now: CatalogTick)
    requires
        s.catalog.wf(),
        s.catalog.retired.len() > 0,
        is_due(s.catalog, s.catalog.retired[0], now),
        s.catalog.versions[(
            s.catalog.retired[0].0,
            s.catalog.retired[0].1,
        )].accounting is Some,
    ensures
        ({
            let item = s.catalog.retired[0];
            let version = s.catalog.versions[(item.0, item.1)];
            let charge = version.accounting.unwrap();
            let bytes = version.content.logical_bytes * version.replicas.len();
            let was = s.catalog.accounts[charge.tenant].memory;
            let after = s.reclaim_step(now).catalog.accounts[charge.tenant].memory;
            &&& charge.phase == ChargePhase::Released ==> after == was
            &&& charge.phase == ChargePhase::Retiring && bytes <= was.demand && bytes <= was.used
                && bytes <= was.retiring ==> after.demand == was.demand - bytes && after.used
                == was.used - bytes && after.retiring == was.retiring - bytes
            &&& after.effective == was.effective && after.requested == was.requested
        }),
{
    let item = s.catalog.retired[0];
    assert(s.catalog.waits_well(s.catalog.retired[0]));
    assert(s.catalog.version_wf(item.0, item.1));
}

/// A slot that is left empty is kept for a while: it is noted with the time at which its
/// grace is over.
pub proof fn law_emptied_slots_have_grace(catalog: CatalogView, pool: PoolView, slot: u64, now: CatalogTick)
    requires
        catalog.slots.contains_key(slot),
    ensures
        ({
            let end = now.value + catalog.config.empty_slot_grace_ticks;
            let noted = |after: CatalogView|
                after.empty_slots.len() == catalog.empty_slots.len() + 1
                    && after.empty_slots.last().0 == slot && (after.empty_slots.last().1 == end || (
                after.empty_slots.last().1 == u64::MAX && end > u64::MAX));
            &&& noted(catalog.taken_down(slot, now))
            &&& catalog.slots[slot].committed is None && catalog.slots[slot].active is Some
                ==> noted(catalog.abandoned(pool, slot, now))
            &&& catalog.slots[slot].committed is Some && catalog.slots[slot].active is Some
                ==> catalog.abandoned(pool, slot, now).empty_slots == catalog.empty_slots
        }),
{
}

/// A version that was taken down waits at least until its lease is over.
pub proof fn law_leases_outlast_removal(catalog: CatalogView, slot: u64, now: CatalogTick)
    requires
        catalog.slots.contains_key(slot),
        catalog.slots[slot].committed is Some,
    ensures
        ({
            let id = catalog.slots[slot].committed.unwrap();
            let lease = catalog.versions[(slot, id)].committed.unwrap().access.lease_until;
            let item = catalog.taken_down(slot, now).retired.last();
            &&& item.0 == slot && item.1 == id
            &&& item.3 >= lease && item.3 >= now.value
            &&& item.3 == lease || item.3 == now.value
            &&& item.2 == catalog.versions[(slot, id)].reserved_bytes
        }),
{
}

/// Asking for bytes to be reclaimed raises the debt to them and never lowers it; it
/// touches nothing else.
pub proof fn law_debts_are_raised(catalog: CatalogView, bytes: u64)
    ensures
        ({
            let after = catalog.debt_raised(bytes);
            &&& after.reclaim_debt >= bytes
            &&& after.reclaim_debt >= catalog.reclaim_debt
            &&& after.reclaim_debt == bytes || after.reclaim_debt == catalog.reclaim_debt
            &&& after.slots == catalog.slots && after.versions == catalog.versions
                && after.retired == catalog.retired && after.counters == catalog.counters
        }),
{
}

/// What targets are about: all versions, those with replicas in memory, or those with
/// replicas in memory that are charged to a namespace. There are no replicas of another
/// class.
pub proof fn law_what_targets_are_about(version: VersionView, namespace: NamespaceId)
    ensures
        filter_matches(ReclaimFilter::Any, version),
        filter_matches(ReclaimFilter::Class(ReplicaClass::Memory), version) <==> version.replicas.len()
            > 0,
        filter_matches(
            ReclaimFilter::Scope { namespace, replica_class: ReplicaClass::Memory },
            version,
        ) <==> version.replicas.len() > 0 && version.accounting is Some
            && version.identity.namespace == namespace,
        forall|class: ReplicaClass|
            class != ReplicaClass::Memory ==> !(#[trigger] filter_matches(
                ReclaimFilter::Class(class),
                version,
            )),
{
}

/// Every look at a candidate is reported, and what was retired for want of space is
/// reported with its bytes; what is spared is not.
pub proof fn law_evictions_are_reported(s: Sweep, item: WorkItem, protected: bool, now: CatalogTick)
    requires
        s.catalog.wf(),
        s.catalog.points_to(item.0, item.1),
        s.report.scanned_candidates < usize::MAX,
        s.report.retired_objects < usize::MAX,
    ensures
        ({
            let after = s.evict(item, protected, now).report;
            let bytes = s.catalog.versions[(item.0, item.1)].reserved_bytes;
            let spared = is_spared(s.catalog, item.0, item.1, now);
            &&& after.scanned_candidates == s.report.scanned_candidates + 1
            &&& spared ==> after.retired_objects == s.report.retired_objects && after.retired_bytes
                == s.report.retired_bytes
            &&& !spared ==> after.retired_objects == s.report.retired_objects + 1
            &&& !spared && s.report.retired_bytes + bytes <= u64::MAX ==> after.retired_bytes
                == s.report.retired_bytes + bytes
            &&& after.reclaimed_objects == s.report.reclaimed_objects
        }),
{
    assert(s.catalog.slot_wf(item.0));
}

/// What the liveness sweep finds is reported: objects that were lost, with the bytes
/// they held, and replicas that were dropped.
pub proof fn law_losses_are_reported(
    s: Sweep,
    protected: bool,
    pool: PoolView,
    now: CatalogTick,
)
    requires
        s.catalog.wf(),
        s.catalog.queue(protected).len() > 0,
        s.catalog.points_to(
            s.catalog.queue(protected)[0].0,
            s.catalog.queue(protected)[0].1,
        ),
        s.report.invalidated_published < usize::MAX,
        s.report.pruned_objects < usize::MAX,
        s.report.retired_objects < usize::MAX,
    ensures
        ({
            let item = s.catalog.queue(protected)[0];
            let was = s.catalog.versions[(item.0, item.1)];
            let after = s.liveness_step(protected, pool, now).report;
            let some = exists|k: int|
                0 <= k < was.replicas.len() && pool.is_live(
                    (#[trigger] was.replicas[k]).reservation,
                );
            let all = was.replicas.len() > 0 && forall|k: int|
                0 <= k < was.replicas.len() ==> pool.is_live(
                    (#[trigger] was.replicas[k]).reservation,
                );
            let free = s.catalog.slots[item.0].active is None;
            &&& !some && free ==> after.invalidated_published == s.report.invalidated_published + 1
                && after.retired_objects == s.report.retired_objects + 1
            &&& !some && free && s.report.retired_bytes + was.reserved_bytes <= u64::MAX
                ==> after.retired_bytes == s.report.retired_bytes + was.reserved_bytes
            &&& some || !free ==> after.invalidated_published == s.report.invalidated_published
                && after.retired_objects == s.report.retired_objects
            &&& some && !all ==> after.pruned_objects == s.report.pruned_objects + 1
            &&& all || !some ==> after.pruned_objects == s.report.pruned_objects
        }),
{
    let item = s.catalog.queue(protected)[0];
    let was = s.catalog.versions[(item.0, item.1)];
    assert(s.catalog.slot_wf(item.0));
    if has_live(was.replicas, pool) {
        let k = choose|k: int| 0 <= k < was.replicas.len() && (#[trigger] was.replicas[k]).lives(pool);
        assert(pool.is_live(was.replicas[k].reservation));
    }
    if exists|k: int|
        0 <= k < was.replicas.len() && pool.is_live((#[trigger] was.replicas[k]).reservation) {
        let k = choose|k: int|
            0 <= k < was.replicas.len() && pool.is_live((#[trigger] was.replicas[k]).reservation);
        assert(was.replicas[k].lives(pool));
    }
    if all_live(was.replicas, pool) {
        assert(was.replicas[0].lives(pool));
        assert forall|k: int| 0 <= k < was.replicas.len() implies pool.is_live(
            (#[trigger] was.replicas[k]).reservation,
        ) by {
            assert(was.replicas[k].lives(pool));
        }
    } else if was.replicas.len() > 0 {
        let k = choose|k: int|
            0 <= k < was.replicas.len() && !(#[trigger] was.replicas[k]).lives(pool);
        assert(!pool.is_live(was.replicas[k].reservation));
    }
}

} // verus!
