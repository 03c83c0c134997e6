//! What the counters of a catalog count.

use super::state::{CatalogView, LifecycleCounters, ObjectSlot, VersionView};
use crate::sums::{
    lemma_total_bounded, lemma_total_empty, lemma_total_nonnegative, lemma_total_swapped, total, value_at,
};
use vstd::prelude::*;

verus! {

/// What versions are weighed for.
#[derive(Clone, Copy, Debug, Eq, PartialEq, Structural)]
pub enum Weight {
    /// The bytes of committed versions.
    Live,
    /// The bytes of staged versions.
    Pending,
    /// The bytes of versions that wait to be released.
    Retired,
    /// The bytes of those in memory.
    RetiredMemory,
}

/// What slots are marked for.
#[derive(Clone, Copy, Debug, Eq, PartialEq, Structural)]
pub enum Mark {
    /// Slots with a committed version.
    Published,
    /// Slots with a claimed write.
    Claimed,
    /// Slots with a staged write.
    Staged,
}

/// What a version weighs.
pub open spec fn weight(
    slots: Map<u64, ObjectSlot>,
    versions: Map<(u64, u64), VersionView>,
    kind: Weight,
    key: (u64, u64),
) -> int {
    let version = versions[key];
    let live = slots.contains_key(key.0) && slots[key.0].committed == Some(key.1);
    let staged = slots.contains_key(key.0) && slots[key.0].staged() == Some(key.1);
    if !versions.contains_key(key) {
        0
    } else {
        match kind {
            Weight::Live => if live {
                version.reserved_bytes as int
            } else {
                0
            },
            Weight::Pending => if staged {
                version.reserved_bytes as int
            } else {
                0
            },
            Weight::Retired => if live || staged {
                0
            } else {
                version.reserved_bytes as int
            },
            Weight::RetiredMemory => if live || staged {
                0
            } else {
                version.memory_bytes() as int
            },
        }
    }
}

/// What each version weighs.
pub open spec fn weights(
    slots: Map<u64, ObjectSlot>,
    versions: Map<(u64, u64), VersionView>,
    kind: Weight,
) -> Map<(u64, u64), int> {
    Map::new(
        |key: (u64, u64)| versions.contains_key(key),
        |key: (u64, u64)| weight(slots, versions, kind, key),
    )
}

/// What all versions weigh together.
pub open spec fn weighs(
    slots: Map<u64, ObjectSlot>,
    versions: Map<(u64, u64), VersionView>,
    kind: Weight,
) -> int {
    total(weights(slots, versions, kind))
}

/// Whether a slot is marked: one or zero.
pub open spec fn mark(slots: Map<u64, ObjectSlot>, kind: Mark, slot: u64) -> int {
    let marked = slots.contains_key(slot) && match kind {
        Mark::Published => slots[slot].committed is Some,
        Mark::Claimed => slots[slot].is_claimed(),
        Mark::Staged => slots[slot].staged() is Some,
    };
    if marked {
        1
    } else {
        0
    }
}

/// Which slots are marked.
pub open spec fn marks(slots: Map<u64, ObjectSlot>, kind: Mark) -> Map<u64, int> {
    Map::new(|slot: u64| slots.contains_key(slot), |slot: u64| mark(slots, kind, slot))
}

/// How many slots are marked.
pub open spec fn marked(slots: Map<u64, ObjectSlot>, kind: Mark) -> int {
    total(marks(slots, kind))
}

/// Whether counters say what slots and versions there are: the slots, those with
/// a committed version, with a claim and with a staged write; and, as long as
/// they have fitted, the bytes of the committed, the staged and the retired
/// versions.
#[verifier::opaque]
pub open spec fn counts(
    counters: LifecycleCounters,
    slots: Map<u64, ObjectSlot>,
    versions: Map<(u64, u64), VersionView>,
    next_slot: u64,
    fitted: bool,
) -> bool {
    &&& slots.dom().finite()
    &&& versions.dom().finite()
    &&& slots.dom().len() <= next_slot
    &&& counters.slots == slots.dom().len()
    &&& counters.published_objects == marked(slots, Mark::Published)
    &&& counters.claims == marked(slots, Mark::Claimed)
    &&& counters.pending_objects == marked(slots, Mark::Staged)
    &&& fitted ==> {
        &&& counters.live_bytes == weighs(slots, versions, Weight::Live)
        &&& counters.pending_bytes == weighs(slots, versions, Weight::Pending)
        &&& counters.retired_bytes == weighs(slots, versions, Weight::Retired)
        &&& counters.retired_memory_bytes == weighs(slots, versions, Weight::RetiredMemory)
        &&& counters.retired_memory_bytes <= counters.retired_bytes
        &&& counters.held_bytes() < u64::MAX
    }
}

/// Where there is nothing, nothing is counted.
pub proof fn lemma_nothing_counts()
    ensures
        forall|kind: Weight| #[trigger]
            weighs(
                Map::<u64, ObjectSlot>::empty(),
                Map::<(u64, u64), VersionView>::empty(),
                kind,
            ) == 0,
        forall|kind: Mark| #[trigger] marked(Map::<u64, ObjectSlot>::empty(), kind) == 0,
{
    lemma_total_empty::<(u64, u64)>();
    lemma_total_empty::<u64>();
    assert forall|kind: Weight| #[trigger]
        weighs(
            Map::<u64, ObjectSlot>::empty(),
            Map::<(u64, u64), VersionView>::empty(),
            kind,
        ) == 0 by {
        assert(weights(
            Map::<u64, ObjectSlot>::empty(),
            Map::<(u64, u64), VersionView>::empty(),
            kind,
        ) =~= Map::empty());
    }
    assert forall|kind: Mark| #[trigger] marked(Map::<u64, ObjectSlot>::empty(), kind) == 0 by {
        assert(marks(Map::<u64, ObjectSlot>::empty(), kind) =~= Map::empty());
    }
}

/// Whether a sum changes as the weights of two versions do.
pub open spec fn shifts(
    before: CatalogView,
    after: CatalogView,
    kind: Weight,
    first: (u64, u64),
    second: (u64, u64),
) -> bool {
    let was = weight(before.slots, before.versions, kind, first) + weight(
        before.slots,
        before.versions,
        kind,
        second,
    );
    let is = weight(after.slots, after.versions, kind, first) + weight(
        after.slots,
        after.versions,
        kind,
        second,
    );
    &&& weighs(before.slots, before.versions, kind) >= was
    &&& weighs(after.slots, after.versions, kind) == weighs(before.slots, before.versions, kind)
        - was + is
}

/// What happens to the sums when two versions change at most.
proof fn lemma_weighs(
    before: CatalogView,
    after: CatalogView,
    kind: Weight,
    first: (u64, u64),
    second: (u64, u64),
)
    requires
        before.versions.dom().finite(),
        first != second,
        forall|key: (u64, u64)|
            key != first && key != second ==> #[trigger] after.versions.contains_key(key)
                == before.versions.contains_key(key) && weight(
                after.slots,
                after.versions,
                kind,
                key,
            ) == weight(before.slots, before.versions, kind, key),
    ensures
        after.versions.dom().finite(),
        shifts(before, after, kind, first, second),
{
    let old = weights(before.slots, before.versions, kind);
    let new = weights(after.slots, after.versions, kind);
    assert(old.dom() =~= before.versions.dom());
    assert(new.dom() =~= after.versions.dom());
    assert(after.versions.dom().subset_of(before.versions.dom().insert(first).insert(second)));
    vstd::set_lib::lemma_len_subset(
        after.versions.dom(),
        before.versions.dom().insert(first).insert(second),
    );
    let left = old.remove(first);
    let right = new.remove(first);
    assert(left.remove(second) =~= right.remove(second)) by {
        assert forall|key: (u64, u64)| left.remove(second).contains_key(key) implies #[trigger] right.remove(
            second,
        ).contains_key(key) && left.remove(second)[key] == right.remove(second)[key] by {
            assert(after.versions.contains_key(key) == before.versions.contains_key(key));
        }
        assert forall|key: (u64, u64)| #[trigger]
            right.remove(second).contains_key(key) implies left.remove(second).contains_key(
            key,
        ) by {
            assert(after.versions.contains_key(key) == before.versions.contains_key(key));
        }
    }
    let rest = left.remove(second);
    assert(left.remove(first) =~= old.remove(first));
    assert(right.remove(first) =~= new.remove(first));
    assert(rest.remove(second) =~= left.remove(second));
    assert(right.remove(second).remove(second) =~= right.remove(second));
    lemma_total_swapped(old, left, first);
    lemma_total_swapped(left, rest, second);
    lemma_total_swapped(new, right, first);
    lemma_total_swapped(right, right.remove(second), second);
    lemma_total_nonnegative(rest);
    assert(value_at(old, first) == weight(before.slots, before.versions, kind, first));
    assert(value_at(left, second) == weight(before.slots, before.versions, kind, second));
    assert(value_at(new, first) == weight(after.slots, after.versions, kind, first));
    assert(value_at(right, second) == weight(after.slots, after.versions, kind, second));
}

/// What happens to the marks when one slot changes at most.
proof fn lemma_marked(before: CatalogView, after: CatalogView, kind: Mark, slot: u64)
    requires
        before.slots.dom().finite(),
        forall|other: u64|
            other != slot ==> #[trigger] after.slots.contains_key(other)
                == before.slots.contains_key(other) && mark(after.slots, kind, other) == mark(
                before.slots,
                kind,
                other,
            ),
    ensures
        after.slots.dom().finite(),
        marked(after.slots, kind) == marked(before.slots, kind) - mark(before.slots, kind, slot)
            + mark(after.slots, kind, slot),
        marked(before.slots, kind) >= mark(before.slots, kind, slot),
        0 <= marked(after.slots, kind) <= after.slots.dom().len(),
{
    let old = marks(before.slots, kind);
    let new = marks(after.slots, kind);
    assert(old.dom() =~= before.slots.dom());
    assert(new.dom() =~= after.slots.dom());
    assert(after.slots.dom().subset_of(before.slots.dom().insert(slot)));
    vstd::set_lib::lemma_len_subset(after.slots.dom(), before.slots.dom().insert(slot));
    let rest = old.remove(slot);
    assert(rest =~= new.remove(slot)) by {
        assert forall|other: u64| #[trigger] rest.contains_key(other) implies new.remove(
            slot,
        ).contains_key(other) && rest[other] == new.remove(slot)[other] by {
            assert(after.slots.contains_key(other) == before.slots.contains_key(other));
        }
        assert forall|other: u64| #[trigger]
            new.remove(slot).contains_key(other) implies rest.contains_key(other) by {
            assert(after.slots.contains_key(other) == before.slots.contains_key(other));
        }
    }
    assert(rest.remove(slot) =~= old.remove(slot));
    assert(rest.remove(slot) =~= new.remove(slot));
    lemma_total_swapped(old, rest, slot);
    lemma_total_swapped(new, rest, slot);
    lemma_total_nonnegative(rest);
    lemma_total_nonnegative(new);
    lemma_total_bounded(new);
}

/// How all sums change when one slot changes and two of its versions at most.
pub proof fn lemma_tally(
    before: CatalogView,
    after: CatalogView,
    slot: u64,
    first: u64,
    second: u64,
)
    requires
        counts(
            before.counters,
            before.slots,
            before.versions,
            before.next_slot,
            before.fitted,
        ),
        first != second,
        forall|key: (u64, u64)|
            key != (slot, first) && key != (slot, second) ==> #[trigger] after.versions.contains_key(
                key,
            ) == before.versions.contains_key(key) && (before.versions.contains_key(key) ==> {
                &&& after.versions[key].reserved_bytes == before.versions[key].reserved_bytes
                &&& after.versions[key].memory_bytes() == before.versions[key].memory_bytes()
            }),
        forall|key: (u64, u64)|
            key != (slot, first) && key != (slot, second) && #[trigger] before.versions.contains_key(
                key,
            ) ==> {
                &&& (after.slots.contains_key(key.0) && after.slots[key.0].committed == Some(
                    key.1,
                )) == (before.slots.contains_key(key.0) && before.slots[key.0].committed == Some(
                    key.1,
                ))
                &&& (after.slots.contains_key(key.0) && after.slots[key.0].staged() == Some(key.1))
                    == (before.slots.contains_key(key.0) && before.slots[key.0].staged() == Some(
                    key.1,
                ))
            },
        forall|other: u64|
            other != slot ==> #[trigger] after.slots.contains_key(other)
                == before.slots.contains_key(other) && (before.slots.contains_key(other)
                ==> after.slots[other] == before.slots[other]),
    ensures
        before.slots.dom().finite(),
        after.slots.dom().finite(),
        after.versions.dom().finite(),
        forall|kind: Weight|
            #![trigger weighs(after.slots, after.versions, kind)]
            #![trigger shifts(before, after, kind, (slot, first), (slot, second))]
            shifts(before, after, kind, (slot, first), (slot, second)),
        forall|kind: Mark|
            {
                &&& #[trigger] marked(after.slots, kind) == marked(before.slots, kind) - mark(
                    before.slots,
                    kind,
                    slot,
                ) + mark(after.slots, kind, slot)
                &&& marked(before.slots, kind) >= mark(before.slots, kind, slot)
                &&& 0 <= marked(after.slots, kind) <= after.slots.dom().len()
            },
{
    reveal(counts);
    assert forall|kind: Weight|
        #![trigger weighs(after.slots, after.versions, kind)]
        #![trigger shifts(before, after, kind, (slot, first), (slot, second))]
        shifts(before, after, kind, (slot, first), (slot, second)) by {
        lemma_weighs(before, after, kind, (slot, first), (slot, second));
    }
    assert forall|kind: Mark|
        {
            &&& #[trigger] marked(after.slots, kind) == marked(before.slots, kind) - mark(
                before.slots,
                kind,
                slot,
            ) + mark(after.slots, kind, slot)
            &&& marked(before.slots, kind) >= mark(before.slots, kind, slot)
            &&& 0 <= marked(after.slots, kind) <= after.slots.dom().len()
        } by {
        lemma_marked(before, after, kind, slot);
    }
    lemma_weighs(before, after, Weight::Live, (slot, first), (slot, second));
    assert(after.slots.dom().subset_of(before.slots.dom().insert(slot)));
    vstd::set_lib::lemma_len_subset(after.slots.dom(), before.slots.dom().insert(slot));
}

} // verus!
