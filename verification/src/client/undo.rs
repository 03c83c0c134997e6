//! What undoing a failed mount leaves mounted.

use crate::segment::identity::{ClientId, SegmentId};
use crate::segment::pool::{lemma_position, AttachOutcome, MountedSegment, PoolView};
use crate::segment::error::AttachError;
use crate::segment::spec::SegmentSpec;
use crate::segment::stats::SegmentState;
use vstd::prelude::*;

verus! {

/// Whether all of some segments are mounted.
pub open spec fn all_found(pool: PoolView, ids: Seq<SegmentId>) -> bool {
    forall|i: int| 0 <= i < ids.len() ==> pool.found(#[trigger] ids[i]) is Some
}

/// A segment that is hidden.
pub open spec fn hidden(segment: MountedSegment) -> MountedSegment {
    MountedSegment { state: SegmentState::Quiesced, ..segment }
}

/// The segment with an id after a client hid those of some segments that it owns.
pub open spec fn found_hidden(
    pool: PoolView,
    client: ClientId,
    ids: Seq<SegmentId>,
    id: SegmentId,
) -> Option<MountedSegment> {
    match pool.found(id) {
        Some(segment) => Some(
            if ids.contains(id) && segment.owner() == client {
                hidden(segment)
            } else {
                segment
            },
        ),
        None => None,
    }
}

/// The segment with an id after a mount was undone.
pub open spec fn found_undone(
    pool: PoolView,
    client: ClientId,
    attached: Seq<SegmentId>,
    reactivated: Seq<SegmentId>,
    id: SegmentId,
) -> Option<MountedSegment> {
    if attached.contains(id) {
        None
    } else {
        found_hidden(pool, client, reactivated, id)
    }
}

/// Whether nothing stands in the way of dropping what was attached.
pub open spec fn can_undo(pool: PoolView, attached: Seq<SegmentId>) -> bool {
    &&& attached.no_duplicates()
    &&& all_found(pool, attached)
}

/// A client owns what it may publish.
pub proof fn lemma_batch_owned(pool: PoolView, client: ClientId, ids: Seq<SegmentId>, from: int)
    requires
        pool.wf(),
        0 <= from <= ids.len(),
        pool.batch_fault(client, ids, from) is None,
    ensures
        forall|i: int|
            from <= i < ids.len() ==> (pool.found(#[trigger] ids[i]) matches Some(segment)
                && segment.owner() == client),
    decreases ids.len() - from,
{
    if from < ids.len() {
        lemma_batch_owned(pool, client, ids, from + 1);
    }
}

/// One more item is among the items behind it.
pub proof fn lemma_contains_more(done: Seq<SegmentId>, first: SegmentId)
    ensures
        forall|id: SegmentId| #[trigger]
            (seq![first] + done).contains(id) == (id == first || done.contains(id)),
{
    let all = seq![first] + done;
    assert forall|id: SegmentId| #[trigger] all.contains(id) == (id == first || done.contains(
        id,
    )) by {
        if id == first {
            assert(all[0] == id);
        }
        if done.contains(id) {
            let k = choose|k: int| 0 <= k < done.len() && done[k] == id;
            assert(all[k + 1] == id);
        }
        if all.contains(id) && id != first {
            let k = choose|k: int| 0 <= k < all.len() && all[k] == id;
            assert(done[k - 1] == id);
        }
    }
}

/// Hiding one more segment.
pub proof fn lemma_hidden_more(
    pool: PoolView,
    client: ClientId,
    done: Seq<SegmentId>,
    first: SegmentId,
)
    ensures
        forall|id: SegmentId| #[trigger]
            found_hidden(pool, client, seq![first] + done, id) == if id == first {
                found_hidden(pool, client, seq![first], id)
            } else {
                found_hidden(pool, client, done, id)
            },
{
    lemma_contains_more(done, first);
    assert(seq![first].contains(first)) by {
        assert(seq![first][0] == first);
    }
}

/// What publishing does to what was attached.
pub proof fn lemma_published(
    grown: PoolView,
    published: PoolView,
    client: ClientId,
    attached: Seq<SegmentId>,
    existing: Seq<SegmentId>,
    wanted: Seq<SegmentId>,
)
    requires
        wanted == attached + existing,
        can_undo(grown, attached),
        forall|i: int|
            0 <= i < wanted.len() ==> (grown.found(#[trigger] wanted[i]) matches Some(segment)
                && segment.owner() == client),
        wanted.len() == 0 ==> published == grown,
        wanted.len() > 0 ==> forall|id: SegmentId| #[trigger]
            published.found(id) == match grown.found(id) {
                Some(segment) => Some(
                    if wanted.contains(id) {
                        MountedSegment { state: SegmentState::Accepting, ..segment }
                    } else {
                        segment
                    },
                ),
                None => None,
            },
    ensures
        can_undo(published, attached),
        forall|id: SegmentId| #[trigger]
            published.found(id) == grown.found(id) || ((attached.contains(id) || existing.contains(
                id,
            )) && grown.found(id).unwrap().owner() == client && published.found(id) == Some(
                MountedSegment { state: SegmentState::Accepting, ..grown.found(id).unwrap() },
            )),
{
    assert forall|id: SegmentId| #[trigger] published.found(id) == grown.found(id) || ((
    attached.contains(id) || existing.contains(id)) && grown.found(id).unwrap().owner() == client
        && published.found(id) == Some(
        MountedSegment { state: SegmentState::Accepting, ..grown.found(id).unwrap() },
    )) by {
        if wanted.len() > 0 && wanted.contains(id) {
            let k = choose|k: int| 0 <= k < wanted.len() && wanted[k] == id;
            if k < attached.len() {
                assert(attached[k] == id);
            } else {
                assert(existing[k - attached.len()] == id);
            }
        }
    }
    assert forall|i: int| 0 <= i < attached.len() implies published.found(
        #[trigger] attached[i],
    ) is Some by {
        assert(grown.found(attached[i]) is Some);
    }
}

/// Every mounted segment is found, and only those are.
pub proof fn lemma_found(pool: PoolView)
    requires
        pool.wf(),
    ensures
        forall|i: int|
            0 <= i < pool.segments.len() ==> pool.found((#[trigger] pool.segments[i]).id())
                == Some(pool.segments[i]),
        forall|id: SegmentId| #[trigger]
            pool.found(id) is Some ==> 0 <= pool.position(id).unwrap() < pool.segments.len()
                && pool.found(id).unwrap().id() == id,
{
    assert forall|i: int| 0 <= i < pool.segments.len() implies pool.found(
        (#[trigger] pool.segments[i]).id(),
    ) == Some(pool.segments[i]) by {
        lemma_position(pool, i);
    }
}

/// Hiding a segment changes its state alone.
pub proof fn lemma_found_after_quiesce(
    pool: PoolView,
    after: PoolView,
    client: ClientId,
    id: SegmentId,
)
    requires
        pool.wf(),
        after.wf(),
        pool.found(id) matches Some(segment) && segment.owner() == client,
        after == pool.after_quiesce(client, id),
    ensures
        pool.ownership_fault(client, id) is None,
        forall|other: SegmentId| #[trigger]
            after.found(other) == if other == id {
                Some(hidden(pool.found(id).unwrap()))
            } else {
                pool.found(other)
            },
{
    let p = pool.position(id).unwrap();
    lemma_found(pool);
    lemma_found(after);
    assert(after.segments[p] == hidden(pool.segments[p]));
    assert forall|other: SegmentId| #[trigger] after.found(other) == if other == id {
        Some(hidden(pool.found(id).unwrap()))
    } else {
        pool.found(other)
    } by {
        if pool.found(other) is Some {
            let q = pool.position(other).unwrap();
            assert(after.segments[q].id() == other);
        }
        if after.found(other) is Some {
            let q = after.position(other).unwrap();
            assert(pool.segments[q].id() == other);
        }
    }
}

/// Removing a hidden segment takes away that segment alone.
pub proof fn lemma_found_after_remove(
    pool: PoolView,
    after: PoolView,
    client: ClientId,
    id: SegmentId,
)
    requires
        pool.wf(),
        after.wf(),
        pool.found(id) matches Some(segment) && segment.owner() == client && segment.state
            == SegmentState::Quiesced,
        after == pool.after_remove(client, id),
    ensures
        pool.removal_fault(client, id) is None,
        forall|other: SegmentId| #[trigger]
            after.found(other) == if other == id {
                None
            } else {
                pool.found(other)
            },
{
    let p = pool.position(id).unwrap();
    lemma_found(pool);
    lemma_found(after);
    assert forall|other: SegmentId| #[trigger] after.found(other) == if other == id {
        None
    } else {
        pool.found(other)
    } by {
        if pool.found(other) is Some && other != id {
            let q = pool.position(other).unwrap();
            let r = if q < p { q } else { q - 1 };
            assert(after.segments[r] == pool.segments[q]);
        }
        if after.found(other) is Some {
            let q = after.position(other).unwrap();
            let r = if q < p { q } else { q + 1 };
            assert(after.segments[q] == pool.segments[r]);
            assert(pool.segments[r].id() == other);
            assert(pool.found(pool.segments[r].id()) == Some(pool.segments[r]));
            if other == id {
                lemma_position(pool, r);
                assert(r == p);
            }
        }
    }
}

/// Attaching a segment adds that segment alone.
pub proof fn lemma_found_attached(
    pool: PoolView,
    after: PoolView,
    spec: SegmentSpec,
    outcome: Result<AttachOutcome, AttachError>,
)
    requires
        pool.wf(),
        after.wf(),
        pool.attach_outcome(after, spec@, SegmentState::Quiesced, outcome),
    ensures
        !(outcome matches Ok(AttachOutcome::Attached(_))) ==> pool.same_segments(after),
        outcome matches Ok(AttachOutcome::AlreadyAttached(handle)) ==> {
            &&& pool.found(spec.identity.id) matches Some(segment) && segment.owner()
                == spec.identity.owner && segment.state == handle.stats.state
        },
        outcome matches Ok(AttachOutcome::Attached(_)) ==> {
            &&& pool.found(spec.identity.id) is None
            &&& after.found(spec.identity.id) matches Some(segment) && segment.owner()
                == spec.identity.owner && segment.state == SegmentState::Quiesced
            &&& forall|other: SegmentId|
                other != spec.identity.id ==> #[trigger] after.found(other) == pool.found(other)
        },
{
    lemma_found(pool);
    lemma_found(after);
    match outcome {
        Ok(AttachOutcome::Attached(_)) => {
            let i = choose|i: int|
                {
                    &&& 0 <= i <= pool.segments.len()
                    &&& #[trigger] after.segments[i].spec@ == spec@
                    &&& after.segments == pool.segments.insert(i, after.segments[i])
                    &&& after.segments[i].incarnation == pool.next_incarnation
                    &&& after.segments[i].state == SegmentState::Quiesced
                    &&& after.segments[i].space.is_fresh(pool.config, spec@.region.size)
                };
            assert(after.segments[i].id() == spec.identity.id);
            assert forall|other: SegmentId| other != spec.identity.id implies #[trigger] after.found(
                other,
            ) == pool.found(other) by {
                if pool.found(other) is Some {
                    let q = pool.position(other).unwrap();
                    let r = if q < i { q } else { q + 1 };
                    assert(after.segments[r] == pool.segments[q]);
                }
                if after.found(other) is Some {
                    let q = after.position(other).unwrap();
                    let r = if q < i { q } else { q - 1 };
                    assert(after.segments[q] == pool.segments[r]);
                    assert(pool.found(pool.segments[r].id()) == Some(pool.segments[r]));
                }
            }
        },
        Ok(AttachOutcome::AlreadyAttached(_)) => {
            assert forall|id: SegmentId| #[trigger] pool.found(id) == after.found(id) by {
                if pool.found(id) is Some {
                    assert(after.segments[pool.position(id).unwrap()].id() == id);
                }
                if after.found(id) is Some {
                    assert(pool.segments[after.position(id).unwrap()].id() == id);
                }
            }
        },
        Err(_) => {},
    }
}

/// Publishing segments changes their states alone.
pub proof fn lemma_found_reactivated(pool: PoolView, after: PoolView, ids: Seq<SegmentId>)
    requires
        pool.wf(),
        after.wf(),
        after.segments == pool.reactivated(ids).segments,
    ensures
        forall|id: SegmentId| #[trigger]
            after.found(id) == match pool.found(id) {
                Some(segment) => Some(
                    if ids.contains(id) {
                        MountedSegment { state: SegmentState::Accepting, ..segment }
                    } else {
                        segment
                    },
                ),
                None => None,
            },
{
    lemma_found(pool);
    lemma_found(after);
    assert forall|id: SegmentId| #[trigger] after.found(id) == match pool.found(id) {
        Some(segment) => Some(
            if ids.contains(id) {
                MountedSegment { state: SegmentState::Accepting, ..segment }
            } else {
                segment
            },
        ),
        None => None,
    } by {
        if pool.found(id) is Some {
            assert(after.segments[pool.position(id).unwrap()].id() == id);
        }
        if after.found(id) is Some {
            let q = after.position(id).unwrap();
            assert(after.segments[q].id() == pool.segments[q].id());
        }
    }
}

/// Whether a pool is another one with segments attached, none of them published;
/// `existing` are segments that are hidden.
pub open spec fn has_grown(
    base: PoolView,
    pool: PoolView,
    attached: Seq<SegmentId>,
    existing: Seq<SegmentId>,
) -> bool {
    &&& attached.no_duplicates()
    &&& forall|i: int|
        0 <= i < attached.len() ==> base.found(#[trigger] attached[i]) is None && pool.found(
            attached[i],
        ) is Some
    &&& forall|i: int|
        0 <= i < existing.len() ==> (pool.found(#[trigger] existing[i]) matches Some(segment)
            && segment.state == SegmentState::Quiesced)
    &&& forall|id: SegmentId|
        !attached.contains(id) ==> #[trigger] pool.found(id) == base.found(id)
}

/// One more segment is attached.
pub proof fn lemma_grows(
    base: PoolView,
    pool: PoolView,
    after: PoolView,
    attached: Seq<SegmentId>,
    existing: Seq<SegmentId>,
    spec: SegmentSpec,
    outcome: Result<AttachOutcome, AttachError>,
)
    requires
        pool.wf(),
        after.wf(),
        has_grown(base, pool, attached, existing),
        pool.attach_outcome(after, spec@, SegmentState::Quiesced, outcome),
    ensures
        match outcome {
            Err(_) => has_grown(base, after, attached, existing),
            Ok(AttachOutcome::Attached(_)) => has_grown(
                base,
                after,
                attached.push(spec.identity.id),
                existing,
            ),
            Ok(AttachOutcome::AlreadyAttached(handle)) => {
                &&& has_grown(base, after, attached, existing)
                &&& handle.stats.state == SegmentState::Quiesced ==> has_grown(
                    base,
                    after,
                        attached,
                    existing.push(spec.identity.id),
                )
            },
        },
{
    lemma_found_attached(pool, after, spec, outcome);
    let id = spec.identity.id;
    match outcome {
        Ok(AttachOutcome::Attached(_)) => {
            let more = attached.push(id);
            if attached.contains(id) {
                let j = choose|j: int| 0 <= j < attached.len() && attached[j] == id;
                assert(pool.found(attached[j]) is Some);
            }
            assert forall|other: SegmentId| !more.contains(other) implies #[trigger] after.found(
                other,
            ) == base.found(other) by {
                assert(more[attached.len() as int] == id);
                if attached.contains(other) {
                    let j = choose|j: int| 0 <= j < attached.len() && attached[j] == other;
                    assert(more[j] == other);
                }
            }
            assert forall|i: int| 0 <= i < more.len() implies base.found(#[trigger] more[i]) is None
                && after.found(more[i]) is Some by {
                if i < attached.len() {
                    assert(more[i] == attached[i]);
                }
            }
            assert forall|i: int| 0 <= i < existing.len() implies (after.found(
                #[trigger] existing[i],
            ) matches Some(segment) && segment.state
                == SegmentState::Quiesced) by {
                assert(pool.found(existing[i]) is Some);
            }
        },
        _ => {
            assert forall|i: int| 0 <= i < attached.len() implies base.found(
                #[trigger] attached[i],
            ) is None && after.found(attached[i]) is Some by {
                assert(pool.found(attached[i]) == after.found(attached[i]));
            }
            assert forall|i: int| 0 <= i < existing.len() implies (after.found(
                #[trigger] existing[i],
            ) matches Some(segment) && segment.state
                == SegmentState::Quiesced) by {
                assert(pool.found(existing[i]) == after.found(existing[i]));
            }
            assert forall|other: SegmentId| !attached.contains(other) implies #[trigger] after.found(
                other,
            ) == base.found(other) by {
                assert(pool.found(other) == after.found(other));
            }
            let more = existing.push(id);
            assert(pool.found(id) == after.found(id));
            assert forall|i: int| 0 <= i < more.len() && outcome is Ok
                && outcome->Ok_0->AlreadyAttached_0.stats.state == SegmentState::Quiesced implies (
            after.found(#[trigger] more[i]) matches Some(segment)
                && segment.state == SegmentState::Quiesced) by {
                if i < existing.len() {
                    assert(more[i] == existing[i]);
                }
            }
        },
    }
}

/// Undoing a mount leaves exactly what was mounted before.
pub proof fn lemma_undone(
    base: PoolView,
    grown: PoolView,
    published: PoolView,
    after: PoolView,
    client: ClientId,
    attached: Seq<SegmentId>,
    existing: Seq<SegmentId>,
    reactivated: Seq<SegmentId>,
)
    requires
        has_grown(base, grown, attached, existing),
        reactivated == existing || reactivated.len() == 0,
        forall|id: SegmentId| #[trigger]
            published.found(id) == grown.found(id) || (reactivated == existing && (
            attached.contains(id) || existing.contains(id)) && grown.found(id).unwrap().owner()
                == client && published.found(id) == Some(
                MountedSegment { state: SegmentState::Accepting, ..grown.found(id).unwrap() },
            )),
        forall|id: SegmentId| #[trigger]
            after.found(id) == found_undone(published, client, attached, reactivated, id),
    ensures
        base.same_segments(after),
{
    assert forall|id: SegmentId| #[trigger] base.found(id) == after.found(id) by {
        assert(published.found(id) == grown.found(id) || published.found(id) is Some);
        if attached.contains(id) {
            let j = choose|j: int| 0 <= j < attached.len() && attached[j] == id;
            assert(base.found(attached[j]) is None);
        } else {
            assert(grown.found(id) == base.found(id));
            if existing.contains(id) {
                let j = choose|j: int| 0 <= j < existing.len() && existing[j] == id;
                assert(grown.found(existing[j]) is Some);
            }
        }
    }
}

} // verus!
