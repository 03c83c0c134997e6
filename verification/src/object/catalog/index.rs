//! The root index from object names to slots.

use super::super::config::MAX_EXPECTED_OBJECTS;
use super::super::identity::{ObjectIdentity, ObjectLookup};
use std::hash::RandomState;
use vstd::prelude::*;

verus! {

#[verifier::external_type_specification]
#[verifier::external_body]
#[verifier::reject_recursive_types(K)]
#[verifier::reject_recursive_types(V)]
#[verifier::reject_recursive_types(H)]
pub struct ExConcurrentMap<K, V, H: std::hash::BuildHasher>(scc::HashMap<K, V, H>);

/// The entries of an index: the slot of each name.
pub uninterp spec fn index_entries(
    map: scc::HashMap<(u64, String), u64, RandomState>,
) -> Map<(u64, Seq<char>), u64>;

/// `HashMap::with_capacity`: an empty map. The capacity is only a hint, but room
/// for it is set aside at once, and the call panics where the size in bytes of
/// that room cannot be expressed. The room is for less than three times the hint,
/// or for one smallest table, and an entry takes far less than 300 bytes of it.
/// Whether the machine has that much memory is not stated.
#[verifier::external_body]
fn index_new(capacity: usize) -> (map: scc::HashMap<(u64, String), u64, RandomState>)
    requires
        capacity <= MAX_EXPECTED_OBJECTS,
    ensures
        index_entries(map).dom() == Set::<(u64, Seq<char>)>::empty(),
{
    scc::HashMap::with_capacity(capacity)
}

/// `HashMap::read_sync`: what stands under a name, if anything does.
#[verifier::external_body]
fn index_read(
    map: &scc::HashMap<(u64, String), u64, RandomState>,
    namespace: u64,
    key: &str,
) -> (slot: Option<u64>)
    ensures
        slot == if index_entries(*map).contains_key((namespace, key@)) {
            Some(index_entries(*map)[(namespace, key@)])
        } else {
            None
        },
{
    map.read_sync(&(namespace, key.to_owned()), |_, slot| *slot)
}

/// `HashMap::insert_sync`: adds an entry under a name that has none, and leaves
/// the map alone where the name has one.
#[verifier::external_body]
fn index_insert(
    map: &mut scc::HashMap<(u64, String), u64, RandomState>,
    namespace: u64,
    key: String,
    slot: u64,
) -> (inserted: bool)
    ensures
        inserted == !index_entries(*old(map)).contains_key((namespace, key@)),
        index_entries(*final(map)) == if inserted {
            index_entries(*old(map)).insert((namespace, key@), slot)
        } else {
            index_entries(*old(map))
        },
{
    map.insert_sync((namespace, key), slot).is_ok()
}

/// `HashMap::remove_sync`: takes the entry under a name out, if there is one.
#[verifier::external_body]
fn index_remove(
    map: &mut scc::HashMap<(u64, String), u64, RandomState>,
    namespace: u64,
    key: &str,
) -> (removed: bool)
    ensures
        removed == index_entries(*old(map)).contains_key((namespace, key@)),
        index_entries(*final(map)) == index_entries(*old(map)).remove((namespace, key@)),
{
    map.remove_sync(&(namespace, key.to_owned())).is_some()
}

/// `HashMap::iter_sync`: every entry once, in no order that is known.
#[verifier::external_body]
fn index_walk(map: &scc::HashMap<(u64, String), u64, RandomState>) -> (entries: Vec<
    (u64, String, u64),
>)
    ensures
        forall|i: int|
            0 <= i < entries@.len() ==> index_entries(*map).contains_pair(
                ((#[trigger] entries@[i]).0, entries@[i].1@),
                entries@[i].2,
            ),
        forall|name: (u64, Seq<char>)| #[trigger]
            index_entries(*map).contains_key(name) ==> exists|i: int|
                0 <= i < entries@.len() && name == ((#[trigger] entries@[i]).0, entries@[i].1@),
        forall|i: int, j: int|
            0 <= i < j < entries@.len() ==> ((#[trigger] entries@[i]).0, entries@[i].1@) != ((
            #[trigger] entries@[j]).0, entries@[j].1@),
{
    let mut entries = Vec::new();
    map.iter_sync(|name, slot| { entries.push((name.0, name.1.clone(), *slot)); true });
    entries
}

/// Which slot stands for which object.
pub struct CatalogIndex {
    entries: scc::HashMap<(u64, String), u64, RandomState>,
}

impl View for CatalogIndex {
    type V = Map<(u64, Seq<char>), u64>;

    closed spec fn view(&self) -> Map<(u64, Seq<char>), u64> {
        index_entries(self.entries)
    }
}

impl CatalogIndex {
    pub fn new(expected_objects: usize) -> (index: Self)
        requires
            expected_objects <= MAX_EXPECTED_OBJECTS,
        ensures
            index@ == Map::<(u64, Seq<char>), u64>::empty(),
    {
        let index = Self { entries: index_new(expected_objects) };
        assert(index@ =~= Map::empty());
        index
    }

    /// The slot of an object.
    pub fn find(&self, lookup: ObjectLookup<'_>) -> (slot: Option<u64>)
        ensures
            slot == if self@.contains_key(lookup@) {
                Some(self@[lookup@])
            } else {
                None
            },
    {
        index_read(&self.entries, lookup.namespace.value, lookup.key)
    }

    /// Adds an object that has no slot yet.
    pub fn add(&mut self, identity: &ObjectIdentity, slot: u64)
        requires
            !old(self)@.contains_key(identity@),
        ensures
            final(self)@ == old(self)@.insert(identity@, slot),
    {
        let _ = index_insert(
            &mut self.entries,
            identity.namespace.value,
            identity.key.text.clone(),
            slot,
        );
    }

    /// Takes an object out.
    pub fn remove(&mut self, identity: &ObjectIdentity)
        ensures
            final(self)@ == old(self)@.remove(identity@),
    {
        let _ = index_remove(&mut self.entries, identity.namespace.value, identity.key.as_str());
    }

    /// Every object with its slot, once.
    pub fn walk(&self) -> (entries: Vec<(u64, String, u64)>)
        ensures
            forall|i: int|
                0 <= i < entries@.len() ==> self@.contains_pair(
                    ((#[trigger] entries@[i]).0, entries@[i].1@),
                    entries@[i].2,
                ),
            forall|name: (u64, Seq<char>)| #[trigger]
                self@.contains_key(name) ==> exists|i: int|
                    0 <= i < entries@.len() && name == ((#[trigger] entries@[i]).0, entries@[i].1@),
            forall|i: int, j: int|
                0 <= i < j < entries@.len() ==> ((#[trigger] entries@[i]).0, entries@[i].1@) != ((
                #[trigger] entries@[j]).0, entries@[j].1@),
    {
        index_walk(&self.entries)
    }
}

} // verus!
