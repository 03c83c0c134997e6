//! What a whole step of the collector gets done for pins, empty slots and targets.

use super::super::reclamation::{CatalogTick, CollectBudget, CollectReport, ReclaimTarget};
use super::laws::outlives;
use super::queue::WorkItem;
use super::rounds::{
    extends, law_due_storage_is_released, lemma_last_stage, lemma_matching, stages,
};
use super::state::CatalogView;
use super::sweep::{all_met, lesser, open_targets, ScopedSweep, Sweep};
use crate::segment::pool::PoolView;
use vstd::prelude::*;

verus! {

/// What later passes leave of a slot: a version is not committed anew, its soft pin is
/// not changed but taken off, one that is not committed keeps its replicas, a slot that
/// is empty stays so, and slots that wait to be forgotten keep their places in the line.
pub open spec fn goes_on(before: CatalogView, after: CatalogView, slot: u64, id: u64) -> bool {
    let held = before.slots[slot];
    &&& after.points_to(slot, id) ==> before.points_to(slot, id) && (after.versions[(
        slot,
        id,
    )].access().soft_pin_until == before.versions[(slot, id)].access().soft_pin_until
        || after.versions[(slot, id)].access().soft_pin_until == 0)
    &&& before.slots.contains_key(slot) && held.committed is None && held.active is None
        ==> after.slots.contains_key(slot) && after.slots[slot] == held
    &&& extends(before.empty_slots, after.empty_slots)
    &&& !before.points_to(slot, id) ==> after.versions[(slot, id)].replicas == before.versions[(
        slot,
        id,
    )].replicas
}

proof fn lemma_soft_pins_go_on(s: Sweep, n: nat, now: CatalogTick, slot: u64, id: u64)
    ensures
        goes_on(s.catalog, s.soft_pin_pass(n, now).catalog, slot, id),
    decreases n,
{
    if n > 0 && s.catalog.soft_pins.len() > 0 {
        lemma_soft_pins_go_on(s.soft_pin_step(now), (n - 1) as nat, now, slot, id);
    }
}

proof fn lemma_liveness_goes_on(
    s: Sweep,
    protected: bool,
    n: nat,
    pool: PoolView,
    now: CatalogTick,
    slot: u64,
    id: u64,
)
    ensures
        goes_on(s.catalog, s.liveness_round(protected, n, pool, now).catalog, slot, id),
    decreases n,
{
    if n > 0 && s.catalog.queue(protected).len() > 0 {
        let next = s.liveness_step(protected, pool, now);
        assert(goes_on(s.catalog, next.catalog, slot, id));
        lemma_liveness_goes_on(next, protected, (n - 1) as nat, pool, now, slot, id);
    }
}

proof fn lemma_pending_goes_on(s: Sweep, n: nat, pool: PoolView, now: CatalogTick, slot: u64, id: u64)
    ensures
        goes_on(s.catalog, s.pending_pass(n, pool, now).catalog, slot, id),
    decreases n,
{
    if n > 0 && s.catalog.pending.len() > 0 {
        let next = s.pending_step(pool, now);
        assert(goes_on(s.catalog, next.catalog, slot, id));
        lemma_pending_goes_on(next, (n - 1) as nat, pool, now, slot, id);
    }
}

proof fn lemma_eviction_goes_on(s: Sweep, protected: bool, n: nat, now: CatalogTick, slot: u64, id: u64)
    ensures
        goes_on(s.catalog, s.evict_round(protected, n, now).catalog, slot, id),
        s.evict_round(protected, n, now).report.scoped_retired_bytes
            == s.report.scoped_retired_bytes,
    decreases n,
{
    if n > 0 && !s.catalog.debt_covered() && s.catalog.queue(protected).len() > 0 {
        let next = s.candidate_taken(protected).evict(
            s.catalog.queue(protected)[0],
            protected,
            now,
        );
        assert(goes_on(s.catalog, next.catalog, slot, id));
        lemma_eviction_goes_on(next, protected, (n - 1) as nat, now, slot, id);
    }
}

proof fn lemma_targets_go_on(
    s: ScopedSweep,
    protected: bool,
    n: nat,
    now: CatalogTick,
    slot: u64,
    id: u64,
)
    ensures
        goes_on(s.sweep.catalog, s.round(protected, n, now).sweep.catalog, slot, id),
    decreases n,
{
    if n > 0 && !all_met(s.debts) && s.sweep.catalog.queue(protected).len() > 0 {
        let next = s.step(protected, now);
        assert(goes_on(s.sweep.catalog, next.sweep.catalog, slot, id));
        lemma_targets_go_on(next, protected, (n - 1) as nat, now, slot, id);
    }
}

proof fn lemma_reclaim_goes_on(s: Sweep, n: nat, now: CatalogTick)
    ensures
        s.reclaim_pass(n, now).catalog.slots == s.catalog.slots,
        s.reclaim_pass(n, now).catalog.empty_slots == s.catalog.empty_slots,
        forall|key: (u64, u64)| #[trigger]
            s.reclaim_pass(n, now).catalog.versions.contains_key(key) ==> s.reclaim_pass(
                n,
                now,
            ).catalog.versions[key] == s.catalog.versions[key] && s.catalog.versions.contains_key(
                key,
            ),
    decreases n,
{
    if n > 0 && s.catalog.retired.len() > 0 {
        lemma_reclaim_goes_on(s.reclaim_step(now), (n - 1) as nat, now);
    }
}

/// The catalog of a collector step after soft pins were looked at, and after eviction.
spec fn halves(
    catalog: CatalogView,
    pool: PoolView,
    now: CatalogTick,
    budget: CollectBudget,
    targets: Seq<ReclaimTarget>,
) -> (Sweep, Sweep) {
    let start = Sweep {
        catalog: catalog.sweep_begun(),
        report: CollectReport::nothing(),
        freed: Seq::empty(),
        scanned: 0,
    };
    let candidates = budget.max_candidates as nat;
    let unpinned = start.soft_pin_pass(lesser(start.catalog.soft_pins.len(), candidates), now);
    let checked = unpinned.liveness_pass(candidates, pool, now);
    let expired = checked.pending_pass(
        lesser(checked.catalog.pending.len(), candidates),
        pool,
        now,
    );
    (unpinned, expired.eviction_phase(candidates, targets, now))
}

proof fn lemma_chain(
    first: CatalogView,
    second: CatalogView,
    third: CatalogView,
    slot: u64,
    id: u64,
)
    requires
        goes_on(first, second, slot, id),
        goes_on(second, third, slot, id),
    ensures
        goes_on(first, third, slot, id),
{
    assert forall|i: int| 0 <= i < first.empty_slots.len() implies #[trigger] third.empty_slots[i]
        == first.empty_slots[i] by {
        assert(second.empty_slots[i] == first.empty_slots[i]);
    }
}

proof fn lemma_second_half(
    catalog: CatalogView,
    pool: PoolView,
    now: CatalogTick,
    budget: CollectBudget,
    targets: Seq<ReclaimTarget>,
    slot: u64,
    id: u64,
)
    ensures
        ({
            let (unpinned, evicted) = halves(catalog, pool, now, budget, targets);
            goes_on(unpinned.catalog, evicted.catalog, slot, id)
        }),
{
    let (unpinned, evicted) = halves(catalog, pool, now, budget, targets);
    let candidates = budget.max_candidates as nat;
    let fresh = Sweep { scanned: 0, ..unpinned };
    let n = lesser(fresh.catalog.sweep_left(false) as nat, candidates);
    let young = fresh.liveness_round(false, n, pool, now);
    lemma_liveness_goes_on(fresh, false, n, pool, now, slot, id);
    let n = lesser(young.catalog.sweep_left(true) as nat, (candidates - young.scanned) as nat);
    let checked = young.liveness_round(true, n, pool, now);
    lemma_liveness_goes_on(young, true, n, pool, now, slot, id);
    lemma_chain(unpinned.catalog, young.catalog, checked.catalog, slot, id);
    let n = lesser(checked.catalog.pending.len(), candidates);
    let expired = checked.pending_pass(n, pool, now);
    lemma_pending_goes_on(checked, n, pool, now, slot, id);
    lemma_chain(unpinned.catalog, checked.catalog, expired.catalog, slot, id);
    if expired.catalog.sweep_left(false) == 0 && expired.catalog.sweep_left(true) == 0 {
        let left = if candidates < expired.scanned {
            0
        } else {
            (candidates - expired.scanned) as nat
        };
        let scoped = expired.scoped_pass(left, targets, now);
        let begin = Sweep { scanned: 0, ..expired };
        let debts = open_targets(targets);
        if left != 0 && debts.len() != 0 {
            let first = ScopedSweep { sweep: begin, debts };
            let n = lesser(begin.catalog.young.len(), left);
            let half = first.round(false, n, now);
            lemma_targets_go_on(first, false, n, now, slot, id);
            lemma_chain(unpinned.catalog, expired.catalog, half.sweep.catalog, slot, id);
            let n = lesser(begin.catalog.protected.len(), (left - half.sweep.scanned) as nat);
            lemma_targets_go_on(half, true, n, now, slot, id);
            lemma_chain(unpinned.catalog, half.sweep.catalog, scoped.catalog, slot, id);
        }
        let rest = if left < scoped.scanned {
            0
        } else {
            (left - scoped.scanned) as nat
        };
        let again = Sweep { scanned: 0, ..scoped };
        let n = lesser(again.catalog.young.len(), rest);
        let half = again.evict_round(false, n, now);
        lemma_eviction_goes_on(again, false, n, now, slot, id);
        lemma_chain(unpinned.catalog, scoped.catalog, half.catalog, slot, id);
        let n = lesser(again.catalog.protected.len(), (rest - half.scanned) as nat);
        lemma_eviction_goes_on(half, true, n, now, slot, id);
        lemma_chain(unpinned.catalog, half.catalog, evicted.catalog, slot, id);
    }
}

/// Whether a slot that waits to be forgotten is due: it is empty and its grace is over.
pub open spec fn is_forgettable(catalog: CatalogView, item: WorkItem, now: CatalogTick) -> bool {
    &&& item.1 <= now.value
    &&& catalog.slots.contains_key(item.0)
    &&& catalog.slots[item.0].committed is None
    &&& catalog.slots[item.0].active is None
}

proof fn lemma_empties_go_on(s: Sweep, n: nat, now: CatalogTick, slot: u64, id: u64)
    ensures
        s.empty_pass(n, now).catalog.points_to(slot, id) ==> s.catalog.points_to(slot, id),
        s.empty_pass(n, now).catalog.versions == s.catalog.versions,
    decreases n,
{
    if n > 0 && s.catalog.empty_slots.len() > 0 {
        lemma_empties_go_on(s.empty_step(now), (n - 1) as nat, now, slot, id);
    }
}

proof fn lemma_forgotten_stays(s: Sweep, n: nat, now: CatalogTick, slot: u64)
    requires
        !s.catalog.slots.contains_key(slot),
    ensures
        !s.empty_pass(n, now).catalog.slots.contains_key(slot),
    decreases n,
{
    if n > 0 && s.catalog.empty_slots.len() > 0 {
        lemma_forgotten_stays(s.empty_step(now), (n - 1) as nat, now, slot);
    }
}

/// Every slot that is looked at after its grace is forgotten where it is still empty.
pub proof fn law_empty_slots_are_forgotten(s: Sweep, n: nat, now: CatalogTick, i: int)
    requires
        0 <= i < s.catalog.empty_slots.len(),
        i < n,
        is_forgettable(s.catalog, s.catalog.empty_slots[i], now),
    ensures
        !s.empty_pass(n, now).catalog.slots.contains_key(s.catalog.empty_slots[i].0),
    decreases n,
{
    let item = s.catalog.empty_slots[i];
    let next = s.empty_step(now);
    if !next.catalog.slots.contains_key(item.0) {
        lemma_forgotten_stays(next, (n - 1) as nat, now, item.0);
    } else {
        assert(next.catalog.empty_slots[i - 1] == item);
        law_empty_slots_are_forgotten(next, (n - 1) as nat, now, i - 1);
    }
}

/// A collector step forgets empty slots: of those that wait, each of the first ones, as
/// many as the budget allows, is gone after the step where it was empty and its grace
/// was over.
pub proof fn law_collector_forgets_empty_slots(
    catalog: CatalogView,
    pool: PoolView,
    now: CatalogTick,
    budget: CollectBudget,
    targets: Seq<ReclaimTarget>,
    i: int,
)
    requires
        0 <= i < catalog.empty_slots.len(),
        i < budget.max_empty_slots,
        is_forgettable(catalog, catalog.empty_slots[i], now),
    ensures
        !catalog.collected(pool, now, budget, targets).catalog.slots.contains_key(
            catalog.empty_slots[i].0,
        ),
{
    reveal(CatalogView::collected);
    let item = catalog.empty_slots[i];
    let start = Sweep {
        catalog: catalog.sweep_begun(),
        report: CollectReport::nothing(),
        freed: Seq::empty(),
        scanned: 0,
    };
    let candidates = budget.max_candidates as nat;
    let n = lesser(start.catalog.soft_pins.len(), candidates);
    lemma_soft_pins_go_on(start, n, now, item.0, 0);
    lemma_second_half(catalog, pool, now, budget, targets, item.0, 0);
    let (unpinned, evicted) = halves(catalog, pool, now, budget, targets);
    assert(unpinned.catalog.empty_slots[i] == item);
    assert(evicted.catalog.empty_slots[i] == item);
    let n = lesser(evicted.catalog.retired.len(), budget.max_reclaims as nat);
    lemma_reclaim_goes_on(evicted, n, now);
    let reclaimed = evicted.reclaim_pass(n, now);
    let n = lesser(reclaimed.catalog.empty_slots.len(), budget.max_empty_slots as nat);
    law_empty_slots_are_forgotten(reclaimed, n, now, i);
}

/// Every soft pin that is looked at after it has run out is taken off.
pub proof fn law_soft_pins_run_out(s: Sweep, n: nat, now: CatalogTick, i: int)
    requires
        0 <= i < s.catalog.soft_pins.len(),
        i < n,
        0 < s.catalog.soft_pins[i].2 <= now.value,
    ensures
        ({
            let item = s.catalog.soft_pins[i];
            let end = s.soft_pin_pass(n, now).catalog;
            end.points_to(item.0, item.1) ==> end.versions[(
                item.0,
                item.1,
            )].committed.unwrap().access.soft_pin_until != item.2
        }),
    decreases n,
{
    let item = s.catalog.soft_pins[i];
    let next = s.soft_pin_step(now);
    lemma_soft_pins_go_on(next, (n - 1) as nat, now, item.0, item.1);
    if i > 0 {
        assert(next.catalog.soft_pins[i - 1] == item);
        law_soft_pins_run_out(next, (n - 1) as nat, now, i - 1);
    }
}

/// A collector step takes off soft pins that have run out: of those that are noted,
/// each of the first ones, as many as the budget allows, is off after the step.
pub proof fn law_collector_takes_off_soft_pins(
    catalog: CatalogView,
    pool: PoolView,
    now: CatalogTick,
    budget: CollectBudget,
    targets: Seq<ReclaimTarget>,
    i: int,
)
    requires
        0 <= i < catalog.soft_pins.len(),
        i < budget.max_candidates,
        0 < catalog.soft_pins[i].2 <= now.value,
    ensures
        ({
            let item = catalog.soft_pins[i];
            let after = catalog.collected(pool, now, budget, targets).catalog;
            after.points_to(item.0, item.1) && after.versions.contains_key((item.0, item.1))
                ==> after.versions[(item.0, item.1)].committed.unwrap().access.soft_pin_until
                != item.2
        }),
{
    reveal(CatalogView::collected);
    let item = catalog.soft_pins[i];
    let start = Sweep {
        catalog: catalog.sweep_begun(),
        report: CollectReport::nothing(),
        freed: Seq::empty(),
        scanned: 0,
    };
    let candidates = budget.max_candidates as nat;
    let n = lesser(start.catalog.soft_pins.len(), candidates);
    law_soft_pins_run_out(start, n, now, i);
    lemma_second_half(catalog, pool, now, budget, targets, item.0, item.1);
    let evicted = halves(catalog, pool, now, budget, targets).1;
    let n = lesser(evicted.catalog.retired.len(), budget.max_reclaims as nat);
    lemma_reclaim_goes_on(evicted, n, now);
    let reclaimed = evicted.reclaim_pass(n, now);
    let n = lesser(reclaimed.catalog.empty_slots.len(), budget.max_empty_slots as nat);
    lemma_empties_go_on(reclaimed, n, now, item.0, item.1);
}

proof fn lemma_single_target_round(s: ScopedSweep, protected: bool, n: nat, now: CatalogTick, asked: nat)
    requires
        s.debts.len() == 1,
        s.debts[0].bytes + s.sweep.report.scoped_retired_bytes >= asked,
        n <= s.sweep.catalog.queue(protected).len(),
    ensures
        ({
            let end = s.round(protected, n, now);
            &&& end.debts.len() == 1
            &&& end.debts[0].bytes + end.sweep.report.scoped_retired_bytes >= asked
                || end.sweep.report.scoped_retired_bytes == u64::MAX
            &&& end.sweep.scanned == s.sweep.scanned + n || end.debts[0].bytes == 0
            &&& end.sweep.scanned <= s.sweep.scanned + n
            &&& end.sweep.scanned >= s.sweep.scanned
            &&& !protected ==> end.sweep.catalog.protected.len()
                >= s.sweep.catalog.protected.len()
        }),
    decreases n,
{
    if n > 0 && !all_met(s.debts) {
        let next = s.step(protected, now);
        let item = s.sweep.catalog.queue(protected)[0];
        lemma_matching(
            s.debts,
            s.sweep.candidate_taken(protected).catalog.versions[(item.0, item.1)],
            0,
        );
        if next.sweep.report.scoped_retired_bytes == u64::MAX {
            lemma_full_report(next, protected, (n - 1) as nat, now);
            lemma_single_target_round(next, protected, (n - 1) as nat, now, 0);
        } else {
            lemma_single_target_round(next, protected, (n - 1) as nat, now, asked);
        }
    }
}

proof fn lemma_full_report(s: ScopedSweep, protected: bool, n: nat, now: CatalogTick)
    requires
        s.sweep.report.scoped_retired_bytes == u64::MAX,
    ensures
        s.round(protected, n, now).sweep.report.scoped_retired_bytes == u64::MAX,
    decreases n,
{
    if n > 0 && !all_met(s.debts) && s.sweep.catalog.queue(protected).len() > 0 {
        lemma_full_report(s.step(protected, now), protected, (n - 1) as nat, now);
    }
}

/// Eviction for a target gets done what the target asks: as many bytes as it asks for
/// are retired for it, unless every candidate was looked at, or as many as the budget
/// allows.
pub proof fn law_target_is_met(s: Sweep, budget: nat, target: ReclaimTarget, now: CatalogTick)
    requires
        target.bytes > 0,
        budget > 0,
        s.report.scoped_retired_bytes == 0,
    ensures
        ({
            let end = s.scoped_pass(budget, seq![target], now);
            let all = s.catalog.young.len() + s.catalog.protected.len();
            ||| end.report.scoped_retired_bytes >= target.bytes
            ||| end.scanned == budget
            ||| end.scanned == all
        }),
{
    let targets = seq![target];
    let keep = |target: ReclaimTarget| target.bytes > 0;
    lemma_one_open(target);
    let start = Sweep { scanned: 0, ..s };
    let first = ScopedSweep { sweep: start, debts: open_targets(targets) };
    let n = lesser(start.catalog.young.len(), budget);
    lemma_single_target_round(first, false, n, now, target.bytes as nat);
    let half = first.round(false, n, now);
    let m = lesser(start.catalog.protected.len(), (budget - half.sweep.scanned) as nat);
    if half.sweep.report.scoped_retired_bytes == u64::MAX {
        lemma_full_report(half, true, m, now);
    } else {
        lemma_single_target_round(half, true, m, now, target.bytes as nat);
    }
}

proof fn lemma_one_open(target: ReclaimTarget)
    requires
        target.bytes > 0,
    ensures
        open_targets(seq![target]) == seq![target],
{
    reveal_with_fuel(Seq::filter, 2);
    let targets = seq![target];
    assert(targets.drop_last() =~= Seq::<ReclaimTarget>::empty());
    assert(open_targets(targets) =~= targets);
}

/// Where no sweep is under way, the eviction of a collector step begins with what it is
/// given targets for: as many bytes as a target asks for are retired for it, unless the
/// pass for targets looked at every candidate or at as many as the budget allows.
pub proof fn law_collector_works_for_its_targets(
    s: Sweep,
    budget: nat,
    target: ReclaimTarget,
    now: CatalogTick,
)
    requires
        target.bytes > 0,
        s.scanned < budget,
        s.report.scoped_retired_bytes == 0,
        s.catalog.liveness.young_remaining == 0,
        s.catalog.liveness.protected_remaining == 0,
    ensures
        ({
            let end = s.eviction_phase(budget, seq![target], now);
            let pass = s.scoped_pass((budget - s.scanned) as nat, seq![target], now);
            let all = s.catalog.young.len() + s.catalog.protected.len();
            ||| end.report.scoped_retired_bytes >= target.bytes
            ||| pass.scanned == budget - s.scanned
            ||| pass.scanned == all
        }),
{
    let left = (budget - s.scanned) as nat;
    law_target_is_met(s, left, target, now);
    let scoped = s.scoped_pass(left, seq![target], now);
    let rest = if left < scoped.scanned {
        0
    } else {
        (left - scoped.scanned) as nat
    };
    let again = Sweep { scanned: 0, ..scoped };
    let n = lesser(again.catalog.young.len(), rest);
    let half = again.evict_round(false, n, now);
    lemma_eviction_goes_on(again, false, n, now, 0, 0);
    let n = lesser(again.catalog.protected.len(), (rest - half.scanned) as nat);
    lemma_eviction_goes_on(half, true, n, now, 0, 0);
}

proof fn lemma_empties_free_nothing(s: Sweep, n: nat, now: CatalogTick)
    ensures
        s.empty_pass(n, now).freed == s.freed,
    decreases n,
{
    if n > 0 && s.catalog.empty_slots.len() > 0 {
        lemma_empties_free_nothing(s.empty_step(now), (n - 1) as nat, now);
    }
}

/// A collector step gives back the storage of what it releases: of the versions that
/// wait, each of the first ones, as many as the budget allows, has every range of its
/// replicas among those that the step freed, where its time had come and nobody held on
/// to it.
pub proof fn law_collector_frees_what_is_due(
    catalog: CatalogView,
    pool: PoolView,
    now: CatalogTick,
    budget: CollectBudget,
    targets: Seq<ReclaimTarget>,
    i: int,
    k: int,
)
    requires
        catalog.wf(),
        0 <= i < catalog.retired.len(),
        i < budget.max_reclaims,
        catalog.retired[i].3 <= now.value,
        catalog.versions[(catalog.retired[i].0, catalog.retired[i].1)].pins == 0,
        0 <= k < catalog.versions[(catalog.retired[i].0, catalog.retired[i].1)].replicas.len(),
    ensures
        catalog.collected(pool, now, budget, targets).freed.contains(
            catalog.versions[(
                catalog.retired[i].0,
                catalog.retired[i].1,
            )].replicas[k].reservation,
        ),
{
    reveal(CatalogView::collected);
    let item = catalog.retired[i];
    let key = (item.0, item.1);
    assert(catalog.waits_well(catalog.retired[i]));
    let start = Sweep {
        catalog: catalog.sweep_begun(),
        report: CollectReport::nothing(),
        freed: Seq::empty(),
        scanned: 0,
    };
    let candidates = budget.max_candidates as nat;
    let n = lesser(start.catalog.soft_pins.len(), candidates);
    lemma_soft_pins_go_on(start, n, now, item.0, item.1);
    lemma_second_half(catalog, pool, now, budget, targets, item.0, item.1);
    lemma_last_stage(catalog, pool, now, budget, targets, item.0, item.1);
    let (unpinned, evicted) = halves(catalog, pool, now, budget, targets);
    assert(evicted == stages(catalog, pool, now, budget, targets).2);
    lemma_chain(start.catalog, unpinned.catalog, evicted.catalog, item.0, item.1);
    assert(evicted.catalog.retired[i] == item);
    assert(evicted.catalog.waits_well(evicted.catalog.retired[i]));
    assert(outlives(catalog, evicted.catalog, item.0, item.1, now));
    assert(evicted.catalog.versions[key].replicas == catalog.versions[key].replicas);
    let n = lesser(evicted.catalog.retired.len(), budget.max_reclaims as nat);
    law_due_storage_is_released(evicted, n, now, i);
    let reclaimed = evicted.reclaim_pass(n, now);
    assert(reclaimed.freed.contains(evicted.catalog.versions[key].replicas[k].reservation));
    let n = lesser(reclaimed.catalog.empty_slots.len(), budget.max_empty_slots as nat);
    lemma_empties_free_nothing(reclaimed, n, now);
}

} // verus!
