//! Every single step keeps a catalog in order.

use super::super::config::ResolvedObjectPinRequest;
use super::super::identity::ObjectIdentity;
use super::super::reclamation::CatalogTick;
use super::super::tenant::quota::ChargePhase;
use super::super::write::{ObjectCommit, WriteOwner};
use super::queue::WorkItem;
use super::super::replica::{has_live, lemma_parts, live_part, replica_bytes, stale_part};
use super::state::{
    wrapped_difference, CatalogView, LifecycleCounters, ObjectSlot, VersionView,
};
use super::tally::{
    counts, lemma_nothing_counts, lemma_tally, marked, shifts, weighs, Mark, Weight,
};
use crate::segment::pool::PoolView;
use std::sync::Arc;
use vstd::prelude::*;

verus! {

/// A version that waits keeps waiting when another one joins.
proof fn lemma_retired_push(before: CatalogView, after: CatalogView, item: WorkItem)
    requires
        after.retired == before.retired.push(item),
    ensures
        forall|slot: u64, id: u64| #[trigger]
            before.is_retired(slot, id) ==> after.is_retired(slot, id),
        after.is_retired(item.0, item.1),
        forall|slot: u64, id: u64| #[trigger]
            after.is_retired(slot, id) ==> before.is_retired(slot, id) || (slot == item.0 && id
                == item.1),
{
    let n = before.retired.len() as int;
    assert(after.retired[n] == item);
    assert forall|slot: u64, id: u64| #[trigger] before.is_retired(slot, id) implies after.is_retired(
        slot,
        id,
    ) by {
        let i = choose|i: int|
            0 <= i < before.retired.len() && (#[trigger] before.retired[i]).0 == slot
                && before.retired[i].1 == id;
        assert(after.retired[i] == before.retired[i]);
    }
    assert forall|slot: u64, id: u64| #[trigger] after.is_retired(slot, id) implies before.is_retired(
        slot,
        id,
    ) || (slot == item.0 && id == item.1) by {
        let i = choose|i: int|
            0 <= i < after.retired.len() && (#[trigger] after.retired[i]).0 == slot
                && after.retired[i].1 == id;
        if i < n {
            assert(before.retired[i] == after.retired[i]);
        }
    }
}

/// The same queue holds the same versions.
proof fn lemma_retired_same(before: CatalogView, after: CatalogView)
    requires
        after.retired == before.retired,
    ensures
        forall|slot: u64, id: u64| #[trigger]
            after.is_retired(slot, id) == before.is_retired(slot, id),
{
}

/// Beginning a write in a slot that exists keeps a catalog in order.
pub proof fn lemma_begun_in(
    before: CatalogView,
    slot: u64,
    owner: WriteOwner,
    pins: ResolvedObjectPinRequest,
)
    requires
        before.wf(),
        before.slots.contains_key(slot),
        before.slots[slot].active is None,
        before.slots[slot].next_transaction_id < u64::MAX,
    ensures
        before.begun_in(slot, owner, pins).wf(),
{
    let after = before.begun_in(slot, owner, pins);
    let s = before.slots[slot];
    lemma_retired_same(before, after);
    assert(before.slot_wf(slot));
    assert forall|k: u64, t: u64| #[trigger] after.attached(k, t) == before.attached(k, t) by {}
    assert forall|k: u64| #[trigger] after.slots.contains_key(k) implies after.slot_wf(k) by {
        assert(before.slots.contains_key(k));
        assert(before.slot_wf(k));
        if k == slot && before.versions.contains_key((slot, s.next_transaction_id)) {
            assert(before.version_wf(slot, s.next_transaction_id));
        }
    }
    assert forall|k: u64, t: u64| #[trigger]
        after.versions.contains_key((k, t)) implies after.version_wf(k, t) by {
        assert(before.versions.contains_key((k, t)));
        assert(before.version_wf(k, t));
    }
    assert forall|i: int| 0 <= i < after.retired.len() implies after.waits_well(
        #[trigger] after.retired[i],
    ) by {
        let item = before.retired[i];
        assert(!before.attached(item.0, item.1));
        assert(after.attached(item.0, item.1) == before.attached(item.0, item.1));
    }
    assert(counts(
        after.counters,
        after.slots,
        after.versions,
        after.next_slot,
        after.fitted,
    )) by {
        lemma_tally(before, after, slot, 0, 1);
        reveal(counts);
    }
}

/// Beginning a write of an object without a slot keeps a catalog in order.
pub proof fn lemma_begun_new(
    before: CatalogView,
    identity: Arc<ObjectIdentity>,
    owner: WriteOwner,
    pins: ResolvedObjectPinRequest,
)
    requires
        before.wf(),
        !before.index.contains_key(identity@),
        before.next_slot < u64::MAX,
    ensures
        before.begun_new(identity, owner, pins).wf(),
{
    let after = before.begun_new(identity, owner, pins);
    let slot = before.next_slot;
    lemma_retired_same(before, after);
    if before.slots.contains_key(slot) {
        assert(before.slot_wf(slot));
    }
    assert forall|k: u64, t: u64| #[trigger] after.attached(k, t) == before.attached(k, t) by {}
    assert forall|name: (u64, Seq<char>)| #[trigger] after.index.contains_key(name) implies {
        &&& after.slots.contains_key(after.index[name])
        &&& after.slots[after.index[name]].identity@ == name
    } by {
        if name != identity@ {
            assert(before.index.contains_key(name));
        }
    }
    assert forall|k: u64| #[trigger] after.slots.contains_key(k) implies after.slot_wf(k) by {
        if k != slot {
            assert(before.slots.contains_key(k));
            assert(before.slot_wf(k));
        } else if before.versions.contains_key((slot, 1)) {
            assert(before.version_wf(slot, 1));
        }
    }
    assert forall|k: u64, t: u64| #[trigger]
        after.versions.contains_key((k, t)) implies after.version_wf(k, t) by {
        assert(before.versions.contains_key((k, t)));
        assert(before.version_wf(k, t));
    }
    assert forall|i: int| 0 <= i < after.retired.len() implies after.waits_well(
        #[trigger] after.retired[i],
    ) by {
        let item = before.retired[i];
        assert(!before.attached(item.0, item.1));
        assert(after.attached(item.0, item.1) == before.attached(item.0, item.1));
    }
    assert(counts(
        after.counters,
        after.slots,
        after.versions,
        after.next_slot,
        after.fitted,
    )) by {
        lemma_tally(before, after, slot, 0, 1);
        reveal(counts);
    }
}

/// What differs between two catalogs touches neither slots nor versions nor the
/// versions that wait.
pub proof fn lemma_same_core(before: CatalogView, after: CatalogView)
    requires
        before.wf(),
        after.config == before.config,
        after.index == before.index,
        after.slots == before.slots,
        after.versions == before.versions,
        after.next_slot == before.next_slot,
        after.retired == before.retired,
        after.counters == before.counters,
        after.fitted == before.fitted,
    ensures
        after.wf(),
{
    lemma_retired_same(before, after);
    assert forall|k: u64, t: u64| #[trigger] after.attached(k, t) == before.attached(k, t) by {}
    assert forall|k: u64| #[trigger] after.slots.contains_key(k) implies after.slot_wf(k) by {
        assert(before.slot_wf(k));
    }
    assert forall|k: u64, t: u64| #[trigger]
        after.versions.contains_key((k, t)) implies after.version_wf(k, t) by {
        assert(before.version_wf(k, t));
        assert(after.attached(k, t) == before.attached(k, t));
    }
    assert forall|i: int| 0 <= i < after.retired.len() implies after.waits_well(
        #[trigger] after.retired[i],
    ) by {
        let item = before.retired[i];
        assert(!before.attached(item.0, item.1));
        assert(after.attached(item.0, item.1) == before.attached(item.0, item.1));
    }
}

/// Dropping a claim keeps a catalog in order.
pub proof fn lemma_claim_dropped(
    before: CatalogView,
    pool: PoolView,
    slot: u64,
    id: u64,
    started_at: CatalogTick,
)
    requires
        before.wf(),
    ensures
        before.claim_dropped(pool, slot, id, started_at).wf(),
{
    if before.claim_holds(slot, id) {
        let middle = CatalogView {
            counters: before.counters.unclaimed(),
            ..before.with_slot(slot, ObjectSlot { active: None, ..before.slots[slot] })
        };
        lemma_retired_same(before, middle);
        assert forall|k: u64, t: u64| #[trigger]
            middle.attached(k, t) == before.attached(k, t) by {}
        assert forall|k: u64| #[trigger] middle.slots.contains_key(k) implies middle.slot_wf(
            k,
        ) by {
            assert(before.slots.contains_key(k));
            assert(before.slot_wf(k));
        }
        assert forall|k: u64, t: u64| #[trigger]
            middle.versions.contains_key((k, t)) implies middle.version_wf(k, t) by {
            assert(before.versions.contains_key((k, t)));
            assert(before.version_wf(k, t));
            assert(middle.attached(k, t) == before.attached(k, t));
        }
        assert forall|i: int| 0 <= i < middle.retired.len() implies middle.waits_well(
        #[trigger] middle.retired[i],
    ) by {
            let item = before.retired[i];
            assert(!before.attached(item.0, item.1));
            assert(middle.attached(item.0, item.1) == before.attached(item.0, item.1));
        }
        assert(counts(
            middle.counters,
            middle.slots,
            middle.versions,
            middle.next_slot,
            middle.fitted,
        )) by {
            lemma_tally(before, middle, slot, 0, 1);
            reveal(counts);
        }
        assert(middle.wf());
        lemma_same_core(middle, before.claim_dropped(pool, slot, id, started_at));
    }
}

/// Staging replicas keeps a catalog in order.
pub proof fn lemma_staged(
    before: CatalogView,
    slot: u64,
    version: VersionView,
    started_at: CatalogTick,
)
    requires
        before.wf(),
        before.slots.contains_key(slot),
        before.slots[slot].is_claimed(),
        version.identity == before.slots[slot].identity,
        version.committed is None,
        version.reserved_bytes == replica_bytes(version.replicas),
        version.accounting matches Some(charge) ==> charge.phase == ChargePhase::Reserved
            && version.charged() is Some,
    ensures
        before.staged(slot, version, started_at).wf(),
{
    let after = before.staged(slot, version, started_at);
    let id = before.slots[slot].active.unwrap().id;
    lemma_retired_same(before, after);
    assert(before.slot_wf(slot));
    assert forall|k: u64, t: u64| #[trigger]
        after.attached(k, t) == (before.attached(k, t) || (k == slot && t == id)) by {}
    assert forall|k: u64| #[trigger] after.slots.contains_key(k) implies after.slot_wf(k) by {
        assert(before.slots.contains_key(k));
        assert(before.slot_wf(k));
    }
    assert forall|k: u64, t: u64| #[trigger]
        after.versions.contains_key((k, t)) implies after.version_wf(k, t) by {
        assert(after.attached(k, t) == (before.attached(k, t) || (k == slot && t == id)));
        if !(k == slot && t == id) {
            assert(before.versions.contains_key((k, t)));
            assert(before.version_wf(k, t));
        }
    }
    assert forall|i: int| 0 <= i < after.retired.len() implies after.waits_well(
        #[trigger] after.retired[i],
    ) by {
        let item = before.retired[i];
        assert(!before.attached(item.0, item.1));
        assert(before.versions.contains_key((item.0, item.1)));
        assert(after.attached(item.0, item.1) == (before.attached(item.0, item.1) || (item.0
            == slot && item.1 == id)));
    }
    assert(counts(
        after.counters,
        after.slots,
        after.versions,
        after.next_slot,
        after.fitted,
    )) by {
        lemma_tally(before, after, slot, id, if id == 0 { 1 } else { 0 });
        reveal(counts);
    }
}

/// Committing a staged version keeps a catalog in order.
pub proof fn lemma_published(
    before: CatalogView,
    slot: u64,
    commit: ObjectCommit,
    now: CatalogTick,
)
    requires
        before.wf(),
        before.slots.contains_key(slot),
        before.slots[slot].staged() is Some,
    ensures
        before.published(slot, commit, now).wf(),
{
    let after = before.published(slot, commit, now);
    let s = before.slots[slot];
    let id = s.active.unwrap().id;
    assert(before.slot_wf(slot));
    assert(before.versions.contains_key((slot, id)));
    assert(before.version_wf(slot, id));
    assert(before.attached(slot, id));
    match s.committed {
        Some(base) => {
            assert(before.versions.contains_key((slot, base)));
            assert(before.version_wf(slot, base));
            assert(before.attached(slot, base));
            let item = (
                slot,
                base,
                before.versions[(slot, base)].reserved_bytes,
                before.versions[(slot, base)].access().lease_until,
            );
            assert(after.retired == before.retired.push(item));
            lemma_retired_push(before, after, item);
        },
        None => {
            assert(after.retired == before.retired);
            lemma_retired_same(before, after);
        },
    }
    assert forall|k: u64, t: u64| #[trigger]
        after.attached(k, t) == (before.attached(k, t) && !(k == slot && s.committed == Some(
            t,
        ))) by {}
    assert forall|k: u64| #[trigger] after.slots.contains_key(k) implies after.slot_wf(k) by {
        assert(before.slots.contains_key(k));
        assert(before.slot_wf(k));
    }
    assert forall|k: u64, t: u64| #[trigger]
        after.versions.contains_key((k, t)) implies after.version_wf(k, t) by {
        assert(before.versions.contains_key((k, t)));
        assert(before.version_wf(k, t));
        assert(after.attached(k, t) == (before.attached(k, t) && !(k == slot && s.committed
            == Some(t))));
    }
    assert forall|i: int| 0 <= i < after.retired.len() implies after.waits_well(
        #[trigger] after.retired[i],
    ) by {
        let item = after.retired[i];
        assert(after.attached(item.0, item.1) == (before.attached(item.0, item.1) && !(item.0
            == slot && s.committed == Some(item.1))));
        if i < before.retired.len() {
            assert(item == before.retired[i]);
            assert(before.versions.contains_key((item.0, item.1)));
        }
    }
    assert forall|i: int, j: int| 0 <= i < j < after.retired.len() implies ((
    #[trigger] after.retired[i]).0, after.retired[i].1) != ((#[trigger] after.retired[j]).0,
        after.retired[j].1) by {
        assert(after.retired[i] == before.retired[i]);
        assert(!before.attached(before.retired[i].0, before.retired[i].1));
        if j < before.retired.len() {
            assert(after.retired[j] == before.retired[j]);
        }
    }
    let other = match s.committed {
        Some(base) => base,
        None => if id == 0 { 1 } else { 0 },
    };
    assert(counts(
        after.counters,
        after.slots,
        after.versions,
        after.next_slot,
        after.fitted,
    )) by {
        lemma_tally(before, after, slot, id, other);
        reveal(counts);
        assert(after.slots.dom() =~= before.slots.dom());
        assert(shifts(before, after, Weight::Live, (slot, id), (slot, other)));
        assert(shifts(before, after, Weight::Pending, (slot, id), (slot, other)));
        assert(shifts(before, after, Weight::Retired, (slot, id), (slot, other)));
        assert(shifts(before, after, Weight::RetiredMemory, (slot, id), (slot, other)));
        assert(after.counters.pending_objects == marked(after.slots, Mark::Staged));
        assert(after.counters.published_objects == marked(after.slots, Mark::Published));
        if after.fitted {
            assert(after.counters.pending_bytes == weighs(
                after.slots,
                after.versions,
                Weight::Pending,
            ));
            assert(after.counters.live_bytes == weighs(after.slots, after.versions, Weight::Live));
        }
    }
}

/// Giving up a staged version keeps a catalog in order.
pub proof fn lemma_abandoned(before: CatalogView, pool: PoolView, slot: u64, now: CatalogTick)
    requires
        before.wf(),
        before.slots.contains_key(slot),
        before.slots[slot].staged() is Some,
    ensures
        before.abandoned(pool, slot, now).wf(),
{
    let s = before.slots[slot];
    let id = s.active.unwrap().id;
    let version = before.versions[(slot, id)];
    let item = (slot, id, version.reserved_bytes, now.value);
    let middle = CatalogView {
        counters: before.counters.aborted(version),
        retired: before.retired.push(item),
        accounts: version.accounts_stepped(
            before.accounts,
            super::super::tenant::quota::ChargeStep::Abort,
        ),
        ..before.with_slot(slot, ObjectSlot { active: None, ..s }).with_version(
            slot,
            id,
            version.charge_stepped(super::super::tenant::quota::ChargeStep::Abort),
        )
    };
    assert(before.slot_wf(slot));
    assert(before.attached(slot, id));
    assert(before.version_wf(slot, id));
    lemma_retired_push(before, middle, item);
    assert forall|k: u64, t: u64| #[trigger]
        middle.attached(k, t) == (before.attached(k, t) && !(k == slot && t == id)) by {}
    assert forall|k: u64| #[trigger] middle.slots.contains_key(k) implies middle.slot_wf(k) by {
        assert(before.slots.contains_key(k));
        assert(before.slot_wf(k));
    }
    assert forall|k: u64, t: u64| #[trigger]
        middle.versions.contains_key((k, t)) implies middle.version_wf(k, t) by {
        assert(before.versions.contains_key((k, t)));
        assert(before.version_wf(k, t));
        assert(middle.attached(k, t) == (before.attached(k, t) && !(k == slot && t == id)));
    }
    assert forall|i: int| 0 <= i < middle.retired.len() implies middle.waits_well(
        #[trigger] middle.retired[i],
    ) by {
        let one = middle.retired[i];
        assert(middle.attached(one.0, one.1) == (before.attached(one.0, one.1) && !(one.0 == slot
            && one.1 == id)));
        if i < before.retired.len() {
            assert(one == before.retired[i]);
            assert(before.versions.contains_key((one.0, one.1)));
        }
    }
    assert forall|i: int, j: int| 0 <= i < j < middle.retired.len() implies ((
    #[trigger] middle.retired[i]).0, middle.retired[i].1) != ((#[trigger] middle.retired[j]).0,
        middle.retired[j].1) by {
        assert(middle.retired[i] == before.retired[i]);
        assert(!before.attached(before.retired[i].0, before.retired[i].1));
        if j < before.retired.len() {
            assert(middle.retired[j] == before.retired[j]);
        }
    }
    assert(counts(
        middle.counters,
        middle.slots,
        middle.versions,
        middle.next_slot,
        middle.fitted,
    )) by {
        lemma_tally(before, middle, slot, id, if id == 0 { 1 } else { 0 });
        reveal(counts);
    }
    assert(middle.wf());
    lemma_same_core(middle, before.abandoned(pool, slot, now));
}

/// Taking a committed version down keeps a catalog in order.
pub proof fn lemma_taken_down(before: CatalogView, slot: u64, now: CatalogTick)
    requires
        before.wf(),
        before.slots.contains_key(slot),
        before.slots[slot].committed is Some,
        before.slots[slot].active is None,
    ensures
        before.taken_down(slot, now).wf(),
{
    let s = before.slots[slot];
    let id = s.committed.unwrap();
    let version = before.versions[(slot, id)];
    let item = (slot, id, version.reserved_bytes, version.free_after(now));
    let after = before.taken_down(slot, now);
    assert(before.slot_wf(slot));
    assert(before.attached(slot, id));
    assert(before.version_wf(slot, id));
    lemma_retired_push(before, after, item);
    assert forall|k: u64, t: u64| #[trigger]
        after.attached(k, t) == (before.attached(k, t) && !(k == slot && t == id)) by {}
    assert forall|k: u64| #[trigger] after.slots.contains_key(k) implies after.slot_wf(k) by {
        assert(before.slots.contains_key(k));
        assert(before.slot_wf(k));
    }
    assert forall|k: u64, t: u64| #[trigger]
        after.versions.contains_key((k, t)) implies after.version_wf(k, t) by {
        assert(before.versions.contains_key((k, t)));
        assert(before.version_wf(k, t));
        assert(after.attached(k, t) == (before.attached(k, t) && !(k == slot && t == id)));
    }
    assert forall|i: int| 0 <= i < after.retired.len() implies after.waits_well(
        #[trigger] after.retired[i],
    ) by {
        let one = after.retired[i];
        assert(after.attached(one.0, one.1) == (before.attached(one.0, one.1) && !(one.0 == slot
            && one.1 == id)));
        if i < before.retired.len() {
            assert(one == before.retired[i]);
            assert(before.versions.contains_key((one.0, one.1)));
        }
    }
    assert forall|i: int, j: int| 0 <= i < j < after.retired.len() implies ((
    #[trigger] after.retired[i]).0, after.retired[i].1) != ((#[trigger] after.retired[j]).0,
        after.retired[j].1) by {
        assert(after.retired[i] == before.retired[i]);
        assert(!before.attached(before.retired[i].0, before.retired[i].1));
        if j < before.retired.len() {
            assert(after.retired[j] == before.retired[j]);
        }
    }
    assert(counts(
        after.counters,
        after.slots,
        after.versions,
        after.next_slot,
        after.fitted,
    )) by {
        lemma_tally(before, after, slot, id, if id == 0 { 1 } else { 0 });
        reveal(counts);
    }
}

/// Changing what no invariant speaks of in one version keeps a catalog in order.
pub proof fn lemma_version_touched(before: CatalogView, slot: u64, id: u64, version: VersionView)
    requires
        before.wf(),
        before.versions.contains_key((slot, id)),
        version.identity == before.versions[(slot, id)].identity,
        version.accounting == before.versions[(slot, id)].accounting,
        version.committed is Some == before.versions[(slot, id)].committed is Some,
        version.accounting is Some ==> version.charged() is Some,
        version.committed matches Some(committed) ==> committed.id == before.versions[(
            slot,
            id,
        )].committed.unwrap().id,
        version.reserved_bytes == before.versions[(slot, id)].reserved_bytes,
        version.replicas == before.versions[(slot, id)].replicas,
        before.attached(slot, id) || version.committed == before.versions[(slot, id)].committed,
    ensures
        before.with_version(slot, id, version).wf(),
{
    let after = before.with_version(slot, id, version);
    lemma_retired_same(before, after);
    assert forall|k: u64, t: u64| #[trigger] after.attached(k, t) == before.attached(k, t) by {}
    assert forall|k: u64| #[trigger] after.slots.contains_key(k) implies after.slot_wf(k) by {
        assert(before.slot_wf(k));
    }
    assert forall|k: u64, t: u64| #[trigger]
        after.versions.contains_key((k, t)) implies after.version_wf(k, t) by {
        assert(before.versions.contains_key((k, t)));
        assert(before.version_wf(k, t));
        assert(after.attached(k, t) == before.attached(k, t));
    }
    assert forall|i: int| 0 <= i < after.retired.len() implies after.waits_well(
        #[trigger] after.retired[i],
    ) by {
        let item = before.retired[i];
        assert(before.versions.contains_key((item.0, item.1)));
        assert(after.attached(item.0, item.1) == before.attached(item.0, item.1));
    }
    assert(counts(
        after.counters,
        after.slots,
        after.versions,
        after.next_slot,
        after.fitted,
    )) by {
        lemma_tally(before, after, slot, id, if id == 0 { 1 } else { 0 });
        reveal(counts);
    }
}

/// Taking dead replicas out of a committed version keeps a catalog in order.
pub proof fn lemma_pruned(before: CatalogView, pool: PoolView, slot: u64, id: u64)
    requires
        before.wf(),
        before.points_to(slot, id),
        has_live(before.versions[(slot, id)].replicas, pool),
    ensures
        before.pruned(pool, slot, id).wf(),
{
    let after = before.pruned(pool, slot, id);
    let was = before.versions[(slot, id)];
    let stale = stale_part(was.replicas, pool);
    let live = live_part(was.replicas, pool);
    lemma_retired_same(before, after);
    assert(before.slot_wf(slot));
    assert(before.attached(slot, id));
    assert(before.version_wf(slot, id));
    lemma_parts(was.replicas, pool);
    assert(live.len() > 0);
    if was.accounting is Some {
        let logical = was.content.logical_bytes;
        assert(logical * live.len() <= logical * was.replicas.len()) by (nonlinear_arith)
            requires
                logical >= 0,
                live.len() <= was.replicas.len(),
        ;
    }
    assert forall|k: u64, t: u64| #[trigger] after.attached(k, t) == before.attached(k, t) by {}
    let other: u64 = if id == 0 { 1 } else { 0 };
    assert(before.fitted ==> was.reserved_bytes < u64::MAX) by {
        lemma_tally(before, before, slot, id, other);
        reveal(counts);
    }
    assert forall|k: u64| #[trigger] after.slots.contains_key(k) implies after.slot_wf(k) by {
        assert(before.slot_wf(k));
    }
    assert forall|k: u64, t: u64| #[trigger]
        after.versions.contains_key((k, t)) implies after.version_wf(k, t) by {
        assert(before.versions.contains_key((k, t)));
        assert(before.version_wf(k, t));
        assert(after.attached(k, t) == before.attached(k, t));
    }
    assert forall|i: int| 0 <= i < after.retired.len() implies after.waits_well(
        #[trigger] after.retired[i],
    ) by {
        let item = before.retired[i];
        assert(before.versions.contains_key((item.0, item.1)));
        assert(after.attached(item.0, item.1) == before.attached(item.0, item.1));
    }
    assert(counts(
        after.counters,
        after.slots,
        after.versions,
        after.next_slot,
        after.fitted,
    )) by {
        lemma_tally(before, after, slot, id, other);
        reveal(counts);
    }
}

/// Moving the first version that waits to the end keeps a catalog in order.
pub proof fn lemma_retired_rotated(before: CatalogView, after: CatalogView)
    requires
        before.wf(),
        before.retired.len() > 0,
        after == (CatalogView {
            retired: before.retired.drop_first().push(before.retired[0]),
            ..before
        }),
    ensures
        after.wf(),
{
    let n = before.retired.len() as int;
    assert forall|i: int| 0 <= i < n implies #[trigger] after.retired[i] == before.retired[(if i
        < n - 1 {
        i + 1
    } else {
        0
    })] by {}
    assert forall|k: u64, t: u64| #[trigger] after.is_retired(k, t) == before.is_retired(k, t) by {
        if before.is_retired(k, t) {
            let i = choose|i: int|
                0 <= i < before.retired.len() && (#[trigger] before.retired[i]).0 == k
                    && before.retired[i].1 == t;
            let j = if i == 0 { n - 1 } else { i - 1 };
            assert(after.retired[j] == before.retired[i]);
        }
        if after.is_retired(k, t) {
            let i = choose|i: int|
                0 <= i < after.retired.len() && (#[trigger] after.retired[i]).0 == k
                    && after.retired[i].1 == t;
            let j = if i < n - 1 { i + 1 } else { 0 };
            assert(before.retired[j] == after.retired[i]);
        }
    }
    assert forall|k: u64, t: u64| #[trigger] after.attached(k, t) == before.attached(k, t) by {}
    assert forall|k: u64| #[trigger] after.slots.contains_key(k) implies after.slot_wf(k) by {
        assert(before.slot_wf(k));
    }
    assert forall|k: u64, t: u64| #[trigger]
        after.versions.contains_key((k, t)) implies after.version_wf(k, t) by {
        assert(before.version_wf(k, t));
        assert(after.is_retired(k, t) == before.is_retired(k, t));
        assert(after.attached(k, t) == before.attached(k, t));
    }
    assert forall|i: int| 0 <= i < after.retired.len() implies after.waits_well(
        #[trigger] after.retired[i],
    ) by {
        let j = if i < n - 1 { i + 1 } else { 0 };
        let item = before.retired[j];
        assert(after.retired[i] == item);
        assert(before.versions.contains_key((item.0, item.1)));
        assert(after.attached(item.0, item.1) == before.attached(item.0, item.1));
    }
    assert forall|i: int, j: int| 0 <= i < j < after.retired.len() implies ((
    #[trigger] after.retired[i]).0, after.retired[i].1) != ((#[trigger] after.retired[j]).0,
        after.retired[j].1) by {
        let p = i + 1;
        let q = if j < n - 1 { j + 1 } else { 0 };
        assert(after.retired[i] == before.retired[p]);
        assert(after.retired[j] == before.retired[q]);
        if q > p {
            assert((before.retired[p].0, before.retired[p].1) != (
                before.retired[q].0,
                before.retired[q].1,
            ));
        } else {
            assert((before.retired[q].0, before.retired[q].1) != (
                before.retired[p].0,
                before.retired[p].1,
            ));
        }
    }
}

/// Releasing the first version that waits keeps a catalog in order.
pub proof fn lemma_version_gone(before: CatalogView, after: CatalogView)
    requires
        before.wf(),
        before.retired.len() > 0,
        after.config == before.config,
        after.index == before.index,
        after.slots == before.slots,
        after.next_slot == before.next_slot,
        after.fitted == before.fitted,
        after.retired == before.retired.drop_first(),
        after.versions == before.versions.remove((before.retired[0].0, before.retired[0].1)),
        after.counters == before.counters.reclaimed(
            before.retired[0].2,
            before.versions[(before.retired[0].0, before.retired[0].1)].replicas.len() > 0,
        ),
    ensures
        after.wf(),
{
    let first = before.retired[0];
    assert(!before.attached(first.0, first.1));
    assert forall|k: u64, t: u64| #[trigger] after.attached(k, t) == before.attached(k, t) by {}
    assert forall|k: u64| #[trigger] after.slots.contains_key(k) implies after.slot_wf(k) by {
        assert(before.slot_wf(k));
        let s = before.slots[k];
        if s.committed is Some {
            assert(before.attached(k, s.committed.unwrap()));
        }
        if s.staged() is Some {
            assert(before.attached(k, s.staged().unwrap()));
        }
    }
    assert forall|k: u64, t: u64| #[trigger]
        after.versions.contains_key((k, t)) implies after.version_wf(k, t) by {
        assert(before.versions.contains_key((k, t)));
        assert(before.version_wf(k, t));
        assert(after.attached(k, t) == before.attached(k, t));
        if before.is_retired(k, t) {
            let i = choose|i: int|
                0 <= i < before.retired.len() && (#[trigger] before.retired[i]).0 == k
                    && before.retired[i].1 == t;
            assert(i > 0);
            assert(after.retired[i - 1] == before.retired[i]);
        }
    }
    assert forall|i: int| 0 <= i < after.retired.len() implies after.waits_well(
        #[trigger] after.retired[i],
    ) by {
        let item = before.retired[i + 1];
        assert(after.retired[i] == item);
        assert(before.versions.contains_key((item.0, item.1)));
        assert((before.retired[0].0, before.retired[0].1) != (item.0, item.1));
        assert(after.attached(item.0, item.1) == before.attached(item.0, item.1));
    }
    assert forall|i: int, j: int| 0 <= i < j < after.retired.len() implies ((
    #[trigger] after.retired[i]).0, after.retired[i].1) != ((#[trigger] after.retired[j]).0,
        after.retired[j].1) by {
        assert(after.retired[i] == before.retired[i + 1]);
        assert(after.retired[j] == before.retired[j + 1]);
    }
    assert(counts(
        after.counters,
        after.slots,
        after.versions,
        after.next_slot,
        after.fitted,
    )) by {
        lemma_tally(before, after, first.0, first.1, if first.1 == 0 { 1 } else { 0 });
        reveal(counts);
    }
}

/// Taking an empty slot out keeps a catalog in order.
pub proof fn lemma_slot_gone(before: CatalogView, after: CatalogView, slot: u64)
    requires
        before.wf(),
        before.slots.contains_key(slot),
        before.slots[slot].committed is None,
        before.slots[slot].active is None,
        after.config == before.config,
        after.next_slot == before.next_slot,
        after.versions == before.versions,
        after.retired == before.retired,
        after.fitted == before.fitted,
        after.counters == (LifecycleCounters {
            slots: wrapped_difference(before.counters.slots, 1),
            ..before.counters
        }),
        after.slots == before.slots.remove(slot),
        after.index == before.index.remove(before.slots[slot].identity@),
    ensures
        after.wf(),
{
    lemma_retired_same(before, after);
    assert(before.slot_wf(slot));
    assert forall|k: u64, t: u64| #[trigger] after.attached(k, t) == before.attached(k, t) by {}
    assert forall|name: (u64, Seq<char>)| #[trigger] after.index.contains_key(name) implies {
        &&& after.slots.contains_key(after.index[name])
        &&& after.slots[after.index[name]].identity@ == name
    } by {
        assert(before.index.contains_key(name));
    }
    assert forall|k: u64| #[trigger] after.slots.contains_key(k) implies after.slot_wf(k) by {
        assert(before.slots.contains_key(k));
        assert(before.slot_wf(k));
        assert(before.slots[k].identity@ != before.slots[slot].identity@);
    }
    assert forall|k: u64, t: u64| #[trigger]
        after.versions.contains_key((k, t)) implies after.version_wf(k, t) by {
        assert(before.versions.contains_key((k, t)));
        assert(before.version_wf(k, t));
        assert(after.attached(k, t) == before.attached(k, t));
    }
    assert forall|i: int| 0 <= i < after.retired.len() implies after.waits_well(
        #[trigger] after.retired[i],
    ) by {
        let item = before.retired[i];
        assert(before.versions.contains_key((item.0, item.1)));
        assert(after.attached(item.0, item.1) == before.attached(item.0, item.1));
    }
    assert(counts(
        after.counters,
        after.slots,
        after.versions,
        after.next_slot,
        after.fitted,
    )) by {
        lemma_tally(before, after, slot, 0, 1);
        reveal(counts);
    }
}

/// A catalog that holds nothing is in order.
pub proof fn lemma_empty(
    catalog_id: u64,
    config: super::super::config::ObjectCatalogConfig,
)
    requires
        config.fault() is None,
    ensures
        CatalogView::empty(catalog_id, config).wf(),
{
    assert(counts(
        LifecycleCounters::zero(),
        Map::<u64, ObjectSlot>::empty(),
        Map::<(u64, u64), VersionView>::empty(),
        0,
        true,
    )) by {
        reveal(counts);
        lemma_nothing_counts();
    }
}

} // verus!
