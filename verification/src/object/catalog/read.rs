//! Lookups, which pin what they find.

use super::super::content::ObjectContent;
use super::super::error::LookupError;
use super::super::identity::{NamespaceId, ObjectIdentity, ObjectLookup};
use super::super::reclamation::CatalogTick;
use super::super::replica::{has_live, live_part, ReplicaLease};
use super::super::write::{ObjectCommit, VersionId, WriteOwner};
use super::state::{CatalogView, VersionView};
use super::write::ObjectHandle;
use super::ObjectCatalog;
use crate::segment::pool::{PoolView, SegmentPool};
use vstd::prelude::*;

verus! {

/// An object that was found, and the end of its lease.
#[derive(Debug)]
pub struct ObjectRead {
    pub object: ObjectHandle,
    pub lease_expires_at: CatalogTick,
}

impl CatalogView {
    /// What a lookup finds: the slot and the transaction of the version.
    pub open spec fn get_result(self, pool: PoolView, name: (u64, Seq<char>)) -> Result<
        (u64, u64),
        LookupError,
    > {
        match self.find(name) {
            None => Err(LookupError::NotFound),
            Some(slot) => match self.slots[slot].committed {
                None => if self.slots[slot].active is Some {
                    Err(LookupError::NotReady)
                } else {
                    Err(LookupError::NotFound)
                },
                Some(id) => if has_live(self.versions[(slot, id)].replicas, pool) {
                    Ok((slot, id))
                } else {
                    Err(LookupError::NotFound)
                },
            },
        }
    }

    /// The version after it was looked up. Its lease is extended even where no
    /// replica is left to read.
    pub open spec fn read_version(self, slot: u64, now: CatalogTick) -> VersionView {
        let version = self.current(slot);
        version.with_access(
            version.access().read(
                now,
                self.config.lease_ttl_ticks,
                self.config.lease_refresh_ticks,
            ),
        )
    }

    /// The catalog after a lookup.
    pub open spec fn after_get(self, pool: PoolView, name: (u64, Seq<char>), now: CatalogTick) -> CatalogView {
        match self.find(name) {
            None => self,
            Some(slot) => match self.slots[slot].committed {
                None => self,
                Some(id) => if self.get_result(pool, name) is Ok {
                    self.with_version(slot, id, self.read_version(slot, now).pinned())
                } else {
                    self.with_version(slot, id, self.read_version(slot, now))
                },
            },
        }
    }

    /// Whether a lookup returned what there is.
    pub open spec fn get_matches(
        self,
        after: CatalogView,
        pool: PoolView,
        name: (u64, Seq<char>),
        found: Result<ObjectRead, LookupError>,
    ) -> bool {
        match self.get_result(pool, name) {
            Err(error) => found == Err::<ObjectRead, LookupError>(error),
            Ok((slot, id)) => {
                &&& found matches Ok(read) && after.is_handle(slot, id, read.object)
                    && read.lease_expires_at.value == after.versions[(
                    slot,
                    id,
                )].access().lease_until
            },
        }
    }
}

/// The names that lookups ask for.
pub open spec fn names_of(lookups: Seq<ObjectLookup<'_>>) -> Seq<(u64, Seq<char>)> {
    lookups.map_values(|lookup: ObjectLookup| lookup@)
}

/// The catalogs through which a batch of lookups leads.
pub open spec fn batch_trail(
    trail: Seq<CatalogView>,
    pool: PoolView,
    names: Seq<(u64, Seq<char>)>,
    now: CatalogTick,
    found: Seq<Result<ObjectRead, LookupError>>,
) -> bool {
    &&& trail.len() == names.len() + 1
    &&& found.len() == names.len()
    &&& forall|i: int|
        0 <= i < names.len() ==> {
            &&& trail[i + 1] == (#[trigger] trail[i]).after_get(pool, names[i], now)
            &&& trail[i].get_matches(trail[i + 1], pool, names[i], found[i])
        }
}

impl ObjectCatalog {
    /// Looks an object up and extends its lease. The handle that is returned
    /// keeps the version from being released.
    pub fn get(&mut self, pool: &SegmentPool, lookup: ObjectLookup<'_>, now: CatalogTick) -> (found: Result<
        ObjectRead,
        LookupError,
    >)
        requires
            old(self).wf(),
            pool.wf(),
        ensures
            final(self).wf(),
            final(self)@ == old(self)@.after_get(pool@, lookup@, now),
            old(self)@.get_matches(final(self)@, pool@, lookup@, found),
    {
        let ghost before = self@;
        let number: u64 = match self.lookup_slot(lookup) {
            None => return Err(LookupError::NotFound),
            Some(number) => number,
        };
        assert(before.index.contains_key(lookup@));
        assert(before.slot_wf(number));
        let (busy, committed) = match self.slot(number) {
            None => return Err(LookupError::NotFound),
            Some(slot) => (slot.active.is_some(), slot.committed),
        };
        let id: u64 = match committed {
            None => {
                return if busy {
                    Err(LookupError::NotReady)
                } else {
                    Err(LookupError::NotFound)
                };
            },
            Some(id) => id,
        };
        let (live, committed) = match self.version(number, id) {
            Some(version) => (version.replicas.has_live(pool), version.committed),
            None => {
                assert(false);
                return Err(LookupError::NotFound);
            },
        };
        let mut access = match committed {
            Some(committed) => committed.access,
            None => {
                assert(false);
                return Err(LookupError::NotFound);
            },
        };
        let lease_expires_at = access.record_access(
            now,
            self.config.lease_ttl_ticks,
            self.config.lease_refresh_ticks,
        );
        self.set_access(number, id, access);
        if !live {
            return Err(LookupError::NotFound);
        }
        let ghost read = self@;
        let object = self.hold(number, id);
        proof {
            assert(self@.versions =~= before.after_get(pool@, lookup@, now).versions);
        }
        Ok(ObjectRead { object, lease_expires_at })
    }

    /// Looks objects up one after the other and appends what was found.
    pub fn get_batch_into(
        &mut self,
        pool: &SegmentPool,
        lookups: &Vec<ObjectLookup<'_>>,
        now: CatalogTick,
        output: &mut Vec<Result<ObjectRead, LookupError>>,
    )
        requires
            old(self).wf(),
            pool.wf(),
        ensures
            final(self).wf(),
            final(output)@.len() == old(output)@.len() + lookups@.len(),
            final(output)@.take(old(output)@.len() as int) == old(output)@,
            exists|trail: Seq<CatalogView>|
                {
                    &&& #[trigger] batch_trail(
                        trail,
                        pool@,
                        names_of(lookups@),
                        now,
                        final(output)@.skip(old(output)@.len() as int),
                    )
                    &&& trail[0] == old(self)@
                    &&& trail.last() == final(self)@
                },
    {
        let ghost names = names_of(lookups@);
        let ghost first = output@;
        let ghost mut trail: Seq<CatalogView> = seq![self@];
        let mut i: usize = 0;
        proof {
            assert(output@.take(first.len() as int) =~= first);
            assert(output@.skip(first.len() as int) =~= Seq::empty());
            assert(names.take(0) =~= Seq::empty());
        }
        while i < lookups.len()
            invariant
                self.wf(),
                pool.wf(),
                names == names_of(lookups@),
                i <= names.len(),
                output@.len() == first.len() + i,
                output@.take(first.len() as int) == first,
                batch_trail(
                    trail,
                    pool@,
                    names.take(i as int),
                    now,
                    output@.skip(first.len() as int),
                ),
                trail[0] == old(self)@,
                trail.last() == self@,
            decreases names.len() - i,
        {
            let ghost before = output@;
            let ghost was = self@;
            let found = self.get(pool, lookups[i], now);
            output.push(found);
            proof {
                let old_trail = trail;
                trail = trail.push(self@);
                let done = output@.skip(first.len() as int);
                let known = before.skip(first.len() as int);
                assert(output@.take(first.len() as int) =~= first);
                assert(done =~= known.push(found));
                assert(names.take(i + 1) =~= names.take(i as int).push(names[i as int]));
                assert forall|j: int| 0 <= j < names.take(i + 1).len() implies {
                    &&& trail[j + 1] == (#[trigger] trail[j]).after_get(
                        pool@,
                        names.take(i + 1)[j],
                        now,
                    )
                    &&& trail[j].get_matches(trail[j + 1], pool@, names.take(i + 1)[j], done[j])
                } by {
                    if j < i {
                        assert(trail[j] == old_trail[j]);
                        assert(trail[j + 1] == old_trail[j + 1]);
                        assert(names.take(i as int)[j] == names[j]);
                    } else {
                        assert(trail[j] == was);
                    }
                }
            }
            i = i + 1;
        }
        proof {
            assert(names.take(i as int) =~= names);
        }
    }

    /// The names of the committed objects of a namespace, each once, in no
    /// order that is known.
    pub fn identities(&self, namespace: NamespaceId) -> (identities: Vec<ObjectIdentity>)
        requires
            self.wf(),
        ensures
            forall|i: int|
                0 <= i < identities@.len() ==> {
                    &&& (#[trigger] identities@[i])@.0 == namespace.value
                    &&& self@.index.contains_key(identities@[i]@)
                    &&& self@.slots[self@.index[identities@[i]@]].committed is Some
                },
            forall|name: (u64, Seq<char>)| #[trigger]
                self@.index.contains_key(name) && name.0 == namespace.value
                    && self@.slots[self@.index[name]].committed is Some ==> exists|i: int|
                    0 <= i < identities@.len() && (#[trigger] identities@[i])@ == name,
            forall|i: int, j: int|
                0 <= i < j < identities@.len() ==> (#[trigger] identities@[i])@ != (
                #[trigger] identities@[j])@,
    {
        let entries = self.index.walk();
        let ghost all = entries@;
        let mut identities: Vec<ObjectIdentity> = Vec::new();
        let ghost mut from: Seq<int> = Seq::empty();
        let mut i: usize = 0;
        while i < entries.len()
            invariant
                self.wf(),
                all == entries@,
                forall|k: int|
                    0 <= k < all.len() ==> self@.index.contains_pair(
                        ((#[trigger] all[k]).0, all[k].1@),
                        all[k].2,
                    ),
                forall|a: int, b: int|
                    0 <= a < b < all.len() ==> ((#[trigger] all[a]).0, all[a].1@) != ((
                    #[trigger] all[b]).0, all[b].1@),
                i <= all.len(),
                from.len() == identities@.len(),
                forall|k: int|
                    0 <= k < from.len() ==> {
                        &&& 0 <= #[trigger] from[k] < i
                        &&& identities@[k]@ == (all[from[k]].0, all[from[k]].1@)
                        &&& identities@[k]@.0 == namespace.value
                        &&& self@.slots[all[from[k]].2].committed is Some
                    },
                forall|a: int, b: int|
                    0 <= a < b < from.len() ==> (#[trigger] from[a]) < #[trigger] from[b],
                forall|k: int|
                    0 <= k < i && (#[trigger] all[k]).0 == namespace.value
                        && self@.slots[all[k].2].committed is Some ==> from.contains(k),
            decreases all.len() - i,
        {
            let entry = &entries[i];
            let number: u64 = entry.2;
            proof {
                let name = (all[i as int].0, all[i as int].1@);
                assert(self@.index.contains_pair(name, number));
                assert(self@.index.contains_key(name));
            }
            let committed = match self.slot(number) {
                Some(slot) => slot.committed.is_some(),
                None => false,
            };
            let ghost known = from;
            if entry.0 == namespace.value && committed {
                identities.push(ObjectIdentity::new(NamespaceId::new(entry.0), entry.1.clone()));
                proof {
                    from = from.push(i as int);
                    assert(from[known.len() as int] == i);
                }
            }
            proof {
                assert forall|k: int|
                    0 <= k < i + 1 && (#[trigger] all[k]).0 == namespace.value
                        && self@.slots[all[k].2].committed is Some implies from.contains(k) by {
                    if k < i {
                        assert(known.contains(k));
                        let at = choose|at: int| 0 <= at < known.len() && known[at] == k;
                        assert(from[at] == k);
                    }
                }
            }
            i = i + 1;
        }
        proof {
            assert forall|k: int| 0 <= k < identities@.len() implies {
                &&& (#[trigger] identities@[k])@.0 == namespace.value
                &&& self@.index.contains_key(identities@[k]@)
                &&& self@.slots[self@.index[identities@[k]@]].committed is Some
            } by {
                assert(0 <= from[k] < all.len());
                assert(self@.index.contains_pair(
                    (all[from[k]].0, all[from[k]].1@),
                    all[from[k]].2,
                ));
            }
            assert forall|name: (u64, Seq<char>)| #[trigger]
                self@.index.contains_key(name) && name.0 == namespace.value
                    && self@.slots[self@.index[name]].committed is Some implies exists|k: int|
                0 <= k < identities@.len() && (#[trigger] identities@[k])@ == name by {
                let at = choose|at: int|
                    0 <= at < all.len() && name == ((#[trigger] all[at]).0, all[at].1@);
                assert(self@.index.contains_pair((all[at].0, all[at].1@), all[at].2));
                assert(from.contains(at));
                let k = choose|k: int| 0 <= k < from.len() && from[k] == at;
                assert(identities@[k]@ == name);
            }
            assert forall|a: int, b: int| 0 <= a < b < identities@.len() implies (
            #[trigger] identities@[a])@ != (#[trigger] identities@[b])@ by {
                assert(from[a] < from[b]);
                assert(0 <= from[a] && from[b] < all.len());
            }
        }
        identities
    }
}

/// The replicas of an object that can still be read.
pub struct LiveReplicaView<'a> {
    pub replicas: &'a [ReplicaLease],
    pub pool: &'a SegmentPool,
}

impl<'a> LiveReplicaView<'a> {
    /// The live replicas.
    pub open spec fn live(&self) -> Seq<ReplicaLease> {
        live_part(self.replicas@, self.pool@)
    }

    /// The live replicas in order.
    pub fn iter(&self) -> (live: Vec<&'a ReplicaLease>)
        requires
            self.pool.wf(),
        ensures
            live@.len() == self.live().len(),
            forall|i: int| 0 <= i < live@.len() ==> *(#[trigger] live@[i]) == self.live()[i],
    {
        let ghost all = self.replicas@;
        let ghost keep = |replica: ReplicaLease| replica.lives(self.pool@);
        let mut live: Vec<&'a ReplicaLease> = Vec::new();
        let mut i: usize = 0;
        proof {
            assert(all.take(0) =~= Seq::empty());
            reveal(Seq::filter);
        }
        while i < self.replicas.len()
            invariant
                self.pool.wf(),
                all == self.replicas@,
                keep == (|replica: ReplicaLease| replica.lives(self.pool@)),
                i <= all.len(),
                live@.len() == all.take(i as int).filter(keep).len(),
                forall|j: int|
                    0 <= j < live@.len() ==> *(#[trigger] live@[j]) == all.take(i as int).filter(
                        keep,
                    )[j],
            decreases all.len() - i,
        {
            proof {
                assert(all.take(i + 1).drop_last() =~= all.take(i as int));
                assert(all.take(i + 1).last() == all[i as int]);
                reveal(Seq::filter);
            }
            let replica = &self.replicas[i];
            if replica.is_live(self.pool) {
                live.push(replica);
            }
            i = i + 1;
        }
        assert(all.take(i as int) =~= all);
        live
    }

    pub fn len(&self) -> (length: usize)
        requires
            self.pool.wf(),
        ensures
            length == self.live().len(),
    {
        self.iter().len()
    }

    pub fn is_empty(&self) -> (empty: bool)
        requires
            self.pool.wf(),
        ensures
            empty == (self.live().len() == 0),
    {
        self.iter().len() == 0
    }

    pub fn first(&self) -> (first: Option<&'a ReplicaLease>)
        requires
            self.pool.wf(),
        ensures
            match first {
                Some(replica) => self.live().len() > 0 && *replica == self.live()[0],
                None => self.live().len() == 0,
            },
    {
        let live = self.iter();
        if live.len() == 0 {
            None
        } else {
            Some(live[0])
        }
    }
}

impl ObjectHandle {
    /// Whether a catalog holds the handle's version.
    pub open spec fn is_kept(&self, catalog: CatalogView) -> bool {
        self.catalog_id == catalog.catalog_id && catalog.versions.contains_key(
            (self.slot, self.origin.value),
        )
    }

    /// The handle's version.
    pub open spec fn version(&self, catalog: CatalogView) -> VersionView {
        catalog.versions[(self.slot, self.origin.value)]
    }

    pub fn identity(&self) -> (identity: &ObjectIdentity)
        ensures
            *identity == *self.identity,
    {
        &self.identity
    }

    pub fn version_id(&self) -> (id: VersionId)
        ensures
            id == self.version_id,
    {
        self.version_id
    }

    pub fn content(&self) -> (content: ObjectContent)
        ensures
            content == self.content,
    {
        self.content
    }

    pub fn commit(&self) -> (commit: ObjectCommit)
        ensures
            commit == self.commit,
    {
        self.commit
    }

    pub fn owner(&self) -> (owner: WriteOwner)
        ensures
            owner == self.owner,
    {
        self.owner
    }

    pub fn is_hard_pinned(&self) -> (pinned: bool)
        ensures
            pinned == self.hard_pinned,
    {
        self.hard_pinned
    }

    /// The replicas that can still be read.
    pub fn replicas<'a>(&self, catalog: &'a ObjectCatalog, pool: &'a SegmentPool) -> (view: Option<
        LiveReplicaView<'a>,
    >)
        ensures
            view.is_some() == self.is_kept(catalog@),
            view matches Some(live) ==> live.replicas@ == self.version(catalog@).replicas
                && live.pool == pool,
    {
        if self.catalog_id != catalog.catalog_id {
            return None;
        }
        match catalog.version(self.slot, self.origin.value) {
            Some(version) => Some(LiveReplicaView { replicas: version.replicas.replicas(), pool }),
            None => None,
        }
    }

    /// Whether some replica can still be read.
    pub fn is_live(&self, catalog: &ObjectCatalog, pool: &SegmentPool) -> (live: bool)
        requires
            pool.wf(),
        ensures
            live == (self.is_kept(catalog@) && has_live(self.version(catalog@).replicas, pool@)),
    {
        if self.catalog_id != catalog.catalog_id {
            return false;
        }
        match catalog.version(self.slot, self.origin.value) {
            Some(version) => version.replicas.has_live(pool),
            None => false,
        }
    }

    /// The end of the soft pin.
    pub fn soft_pin_expires_at(&self, catalog: &ObjectCatalog) -> (deadline: Option<CatalogTick>)
        ensures
            deadline == if self.is_kept(catalog@) && self.version(catalog@).committed is Some
                && self.version(catalog@).access().soft_pin_until != 0 {
                Some(CatalogTick { value: self.version(catalog@).access().soft_pin_until })
            } else {
                None
            },
    {
        if self.catalog_id != catalog.catalog_id {
            return None;
        }
        match catalog.version(self.slot, self.origin.value) {
            Some(version) => match version.committed {
                Some(committed) => committed.access.soft_pin_until(),
                None => None,
            },
            None => None,
        }
    }

    pub fn is_soft_pinned(&self, catalog: &ObjectCatalog, now: CatalogTick) -> (pinned: bool)
        ensures
            pinned == (self.is_kept(catalog@) && self.version(catalog@).committed is Some
                && self.version(catalog@).access().soft_pinned(now)),
    {
        match self.soft_pin_expires_at(catalog) {
            Some(deadline) => deadline.value > now.value,
            None => false,
        }
    }
}

impl ObjectRead {
    pub fn object(&self) -> (object: &ObjectHandle)
        ensures
            *object == self.object,
    {
        &self.object
    }

    pub fn lease_expires_at(&self) -> (expires_at: CatalogTick)
        ensures
            expires_at == self.lease_expires_at,
    {
        self.lease_expires_at
    }

    /// Whether some replica can still be read.
    pub fn is_live(&self, catalog: &ObjectCatalog, pool: &SegmentPool) -> (live: bool)
        requires
            pool.wf(),
        ensures
            live == (self.object.is_kept(catalog@) && has_live(
                self.object.version(catalog@).replicas,
                pool@,
            )),
    {
        self.object.is_live(catalog, pool)
    }
}

} // verus!
