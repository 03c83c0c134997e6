//! What holds of objects over several operations of their manager.

use super::catalog::laws::law_get_after_commit;
use super::catalog::state::CatalogView;
use super::error::LookupError;
use super::manager::{plain_commit, ReplicaSelector};
use super::reclamation::CatalogTick;
use super::write::WriteOwner;
use crate::segment::pool::PoolView;
use vstd::prelude::*;

verus! {

/// Different names have different slots.
proof fn lemma_slots_differ(catalog: CatalogView, name: (u64, Seq<char>), other: (u64, Seq<char>))
    requires
        catalog.wf(),
        name != other,
        catalog.index.contains_key(name),
        catalog.index.contains_key(other),
    ensures
        catalog.index[name] != catalog.index[other],
{
    assert(catalog.slots[catalog.index[name]].identity@ == name);
    assert(catalog.slots[catalog.index[other]].identity@ == other);
}

/// Objects do not meet: what is done to one name, be it a lookup, a removal, or
/// the end of a write, leaves what a lookup of any other name finds. Names in
/// different namespaces differ, so tenants do not meet either.
pub proof fn law_names_do_not_meet(
    catalog: CatalogView,
    pool: PoolView,
    name: (u64, Seq<char>),
    other: (u64, Seq<char>),
    owner: WriteOwner,
    selector: ReplicaSelector,
    now: CatalogTick,
    force: bool,
)
    requires
        catalog.wf(),
        name != other,
    ensures
        catalog.after_get(pool, name, now).get_result(pool, other) == catalog.get_result(
            pool,
            other,
        ),
        catalog.removed(name, now, force).get_result(pool, other) == catalog.get_result(
            pool,
            other,
        ),
        catalog.finished(pool, name, owner, selector, now).get_result(pool, other)
            == catalog.get_result(pool, other),
        catalog.write_revoked(pool, name, owner, selector, now).get_result(pool, other)
            == catalog.get_result(pool, other),
{
    if catalog.index.contains_key(name) {
        let slot = catalog.index[name];
        assert(catalog.slot_wf(slot));
        if catalog.index.contains_key(other) {
            lemma_slots_differ(catalog, name, other);
            let kept = catalog.index[other];
            assert(catalog.slot_wf(kept));
        }
    }
}

/// A write that was finished is readable: a lookup finds the version that was
/// written.
pub proof fn law_finished_write_is_readable(
    catalog: CatalogView,
    pool: PoolView,
    name: (u64, Seq<char>),
    owner: WriteOwner,
    selector: ReplicaSelector,
    now: CatalogTick,
)
    requires
        catalog.wf(),
        catalog.finish_result(pool, name, owner, selector) is Ok,
    ensures
        catalog.resolve_result(name) matches Ok(place) && catalog.finished(
            pool,
            name,
            owner,
            selector,
            now,
        ).get_result(pool, name) == Ok::<(u64, u64), LookupError>((place.0, place.1)),
{
    assert(catalog.index.contains_key(name));
    let slot = catalog.index[name];
    assert(catalog.slot_wf(slot));
    if catalog.slots[slot].active is Some {
        law_get_after_commit(catalog, pool, slot, plain_commit(), now);
    }
}

/// Finishing twice is finishing once: the second time succeeds and changes
/// nothing, as long as a replica can be read.
pub proof fn law_finishing_is_idempotent(
    catalog: CatalogView,
    pool: PoolView,
    name: (u64, Seq<char>),
    owner: WriteOwner,
    selector: ReplicaSelector,
    now: CatalogTick,
    later: CatalogTick,
)
    requires
        catalog.wf(),
        catalog.finish_result(pool, name, owner, selector) is Ok,
    ensures
        ({
            let after = catalog.finished(pool, name, owner, selector, now);
            &&& after.finish_result(pool, name, owner, selector) is Ok
            &&& after.finished(pool, name, owner, selector, later) == after
        }),
{
    law_finished_write_is_readable(catalog, pool, name, owner, selector, now);
    assert(catalog.index.contains_key(name));
    let slot = catalog.index[name];
    assert(catalog.slot_wf(slot));
}

/// An object that was removed is not readable any more.
pub proof fn law_removed_object_is_gone(
    catalog: CatalogView,
    pool: PoolView,
    name: (u64, Seq<char>),
    now: CatalogTick,
    force: bool,
)
    requires
        catalog.wf(),
        catalog.remove_result(name, now, force) is Ok,
    ensures
        catalog.removed(name, now, force).get_result(pool, name) is Err,
        catalog.removed(name, now, force).remove_result(name, now, force) is Err,
{
    assert(catalog.index.contains_key(name));
    let slot = catalog.index[name];
    assert(catalog.slot_wf(slot));
}

/// A write that was revoked leaves no trace in what a lookup finds.
pub proof fn law_revoked_write_leaves_no_trace(
    catalog: CatalogView,
    pool: PoolView,
    name: (u64, Seq<char>),
    owner: WriteOwner,
    selector: ReplicaSelector,
    now: CatalogTick,
)
    requires
        catalog.wf(),
        catalog.revoke_result(pool, name, owner, selector) is Ok,
    ensures
        ({
            let after = catalog.write_revoked(pool, name, owner, selector, now);
            let slot = catalog.index[name];
            match catalog.slots[slot].committed {
                Some(_) => after.get_result(pool, name) == catalog.get_result(pool, name),
                None => after.get_result(pool, name) == Err::<(u64, u64), LookupError>(
                    LookupError::NotFound,
                ),
            }
        }),
{
    assert(catalog.index.contains_key(name));
    let slot = catalog.index[name];
    assert(catalog.slot_wf(slot));
}

} // verus!
