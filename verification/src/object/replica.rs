//! The replicas of one object.

use crate::segment::descriptor::{ReservationDescriptor, ReservationDescriptorRef};
use crate::segment::identity::SegmentId;
use crate::segment::placement::ReservationSet;
use crate::segment::pool::{PoolView, SegmentPool};
use crate::segment::reservation::Reservation;
use crate::segment::spec::ReplicaClass;
use vstd::prelude::*;

verus! {

/// Number of a replica of one object.
#[derive(Clone, Copy, Debug, Eq, Hash, Ord, PartialEq, PartialOrd, Structural)]
pub struct ReplicaId {
    pub value: u32,
}

impl Default for ReplicaId {
    fn default() -> (id: Self)
        ensures
            id.value == 0,
    {
        Self { value: 0 }
    }
}

impl ReplicaId {
    pub fn new(value: u32) -> (id: Self)
        ensures
            id.value == value,
    {
        Self { value }
    }

    pub fn get(self) -> (value: u32)
        ensures
            value == self.value,
    {
        self.value
    }
}

/// One replica and the range that it lies in.
#[derive(Debug)]
pub struct ReplicaLease {
    pub id: ReplicaId,
    pub reservation: Reservation,
}

impl ReplicaLease {
    pub open spec fn lives(self, pool: PoolView) -> bool {
        pool.is_live(self.reservation)
    }

    pub fn new(id: ReplicaId, reservation: Reservation) -> (replica: Self)
        ensures
            replica == (ReplicaLease { id, reservation }),
    {
        Self { id, reservation }
    }

    pub fn id(&self) -> (id: ReplicaId)
        ensures
            id == self.id,
    {
        self.id
    }

    pub fn segment_id(&self) -> (id: SegmentId)
        ensures
            id == self.reservation.segment.identity.id,
    {
        self.reservation.segment_id()
    }

    pub fn replica_class(&self) -> (class: ReplicaClass)
        ensures
            class == ReplicaClass::Memory,
    {
        self.reservation.replica_class()
    }

    pub fn is_live(&self, pool: &SegmentPool) -> (live: bool)
        requires
            pool.wf(),
        ensures
            live == self.lives(pool@),
    {
        self.reservation.is_live(pool)
    }

    pub fn reserved_bytes(&self) -> (bytes: u64)
        ensures
            bytes == self.reservation.allocation.reserved_bytes,
    {
        self.reservation.reserved_bytes()
    }

    pub fn capacity_bytes(&self) -> (bytes: u64)
        ensures
            bytes == self.reservation.allocation.requested_bytes,
    {
        self.reservation.requested_bytes()
    }

    pub fn descriptor(&self) -> (descriptor: ReservationDescriptorRef<'_>)
        ensures
            descriptor@ == self.reservation.descriptor_view(),
    {
        self.reservation.descriptor()
    }

    pub fn owned_descriptor(&self) -> (descriptor: ReservationDescriptor)
        ensures
            descriptor@ == self.reservation.descriptor_view(),
    {
        self.reservation.owned_descriptor()
    }
}

pub type DirectReplica = ReplicaLease;

/// The bytes that replicas take, as a counter that stops at its largest value
/// shows them.
pub open spec fn replica_bytes(replicas: Seq<ReplicaLease>) -> u64
    decreases replicas.len(),
{
    if replicas.len() == 0 {
        0
    } else {
        let rest = replica_bytes(replicas.drop_last());
        let last = replicas.last().reservation.allocation.reserved_bytes;
        if rest + last > u64::MAX {
            u64::MAX
        } else {
            (rest + last) as u64
        }
    }
}

/// Whether there are replicas and all of them are live.
pub open spec fn all_live(replicas: Seq<ReplicaLease>, pool: PoolView) -> bool {
    replicas.len() > 0 && forall|i: int|
        0 <= i < replicas.len() ==> (#[trigger] replicas[i]).lives(pool)
}

/// Whether some replica is live.
pub open spec fn has_live(replicas: Seq<ReplicaLease>, pool: PoolView) -> bool {
    exists|i: int| 0 <= i < replicas.len() && (#[trigger] replicas[i]).lives(pool)
}

/// The replicas that are live.
pub open spec fn live_part(replicas: Seq<ReplicaLease>, pool: PoolView) -> Seq<ReplicaLease> {
    replicas.filter(|replica: ReplicaLease| replica.lives(pool))
}

/// The replicas that are not live.
pub open spec fn stale_part(replicas: Seq<ReplicaLease>, pool: PoolView) -> Seq<ReplicaLease> {
    replicas.filter(|replica: ReplicaLease| !replica.lives(pool))
}

/// The live and the dead replicas together are all of them and reserve what all
/// of them reserve, where that fits.
pub proof fn lemma_parts(replicas: Seq<ReplicaLease>, pool: PoolView)
    ensures
        live_part(replicas, pool).len() + stale_part(replicas, pool).len() == replicas.len(),
        has_live(replicas, pool) == (live_part(replicas, pool).len() > 0),
        replica_bytes(replicas) < u64::MAX ==> replica_bytes(live_part(replicas, pool))
            + replica_bytes(stale_part(replicas, pool)) == replica_bytes(replicas),
    decreases replicas.len(),
{
    reveal(Seq::filter);
    if replicas.len() > 0 {
        let rest = replicas.drop_last();
        let last = replicas.last();
        lemma_parts(rest, pool);
        if last.lives(pool) {
            assert(live_part(replicas, pool) =~= live_part(rest, pool).push(last));
            assert(live_part(rest, pool).push(last).drop_last() =~= live_part(rest, pool));
            assert(stale_part(replicas, pool) =~= stale_part(rest, pool));
            assert(replicas[replicas.len() - 1].lives(pool));
        } else {
            assert(stale_part(replicas, pool) =~= stale_part(rest, pool).push(last));
            assert(stale_part(rest, pool).push(last).drop_last() =~= stale_part(rest, pool));
            assert(live_part(replicas, pool) =~= live_part(rest, pool));
            if has_live(replicas, pool) {
                let i = choose|i: int| 0 <= i < replicas.len() && (#[trigger] replicas[i]).lives(
                    pool,
                );
                assert(rest[i] == replicas[i]);
            }
            if has_live(rest, pool) {
                let i = choose|i: int| 0 <= i < rest.len() && (#[trigger] rest[i]).lives(pool);
                assert(replicas[i] == rest[i]);
            }
        }
    }
}

/// The ranges that replicas lie in.
pub open spec fn reservations_of(replicas: Seq<ReplicaLease>) -> Seq<Reservation> {
    replicas.map_values(|replica: ReplicaLease| replica.reservation)
}

/// Reservations as replicas that are numbered from one on.
pub open spec fn numbered(reservations: Seq<Reservation>) -> Seq<ReplicaLease> {
    Seq::new(
        reservations.len(),
        |i: int|
            ReplicaLease {
                id: ReplicaId { value: (i + 1) as u32 },
                reservation: reservations[i],
            },
    )
}

/// All replicas of one object.
#[derive(Debug)]
pub struct ReplicaSet {
    pub storage: Vec<ReplicaLease>,
}

impl View for ReplicaSet {
    type V = Seq<ReplicaLease>;

    open spec fn view(&self) -> Seq<ReplicaLease> {
        self.storage@
    }
}

impl Default for ReplicaSet {
    fn default() -> (set: Self)
        ensures
            set@ == Seq::<ReplicaLease>::empty(),
    {
        Self { storage: Vec::new() }
    }
}

/// Replicas told apart by which of them are live.
pub enum ReplicaPartition {
    AllLive(ReplicaSet),
    AllStale(ReplicaSet),
    Mixed { live: ReplicaSet, stale: ReplicaSet },
}

impl ReplicaSet {
    pub fn new(replicas: Vec<ReplicaLease>) -> (set: Self)
        ensures
            set@ == replicas@,
    {
        Self { storage: replicas }
    }

    pub fn one(replica: ReplicaLease) -> (set: Self)
        ensures
            set@ == seq![replica],
    {
        let mut storage: Vec<ReplicaLease> = Vec::new();
        storage.push(replica);
        assert(storage@ =~= seq![replica]);
        Self { storage }
    }

    /// The reservations as replicas that are numbered from one on.
    pub fn from_reservations(reservations: ReservationSet) -> (set: Self)
        requires
            reservations@.len() <= u32::MAX,
        ensures
            set@ == numbered(reservations@),
    {
        let ghost all = reservations@;
        let mut rest = reservations.into_vec();
        let mut reversed: Vec<Reservation> = Vec::new();
        while rest.len() > 0
            invariant
                rest@.len() + reversed@.len() == all.len(),
                rest@ == all.take(rest@.len() as int),
                forall|i: int|
                    0 <= i < reversed@.len() ==> (#[trigger] reversed@[i]) == all[all.len() - 1
                        - i],
            decreases rest@.len(),
        {
            if let Some(reservation) = rest.pop() {
                reversed.push(reservation);
                assert(rest@ =~= all.take(rest@.len() as int));
            }
        }
        let mut storage: Vec<ReplicaLease> = Vec::new();
        let mut number: u32 = 0;
        while reversed.len() > 0
            invariant
                all.len() <= u32::MAX,
                number == storage@.len(),
                reversed@.len() + storage@.len() == all.len(),
                forall|i: int|
                    0 <= i < reversed@.len() ==> (#[trigger] reversed@[i]) == all[all.len() - 1
                        - i],
                forall|i: int|
                    0 <= i < storage@.len() ==> (#[trigger] storage@[i]) == (ReplicaLease {
                        id: ReplicaId { value: (i + 1) as u32 },
                        reservation: all[i],
                    }),
            decreases reversed@.len(),
        {
            if let Some(reservation) = reversed.pop() {
                number = number + 1;
                storage.push(ReplicaLease::new(ReplicaId::new(number), reservation));
            }
        }
        assert(storage@ =~= numbered(all));
        Self { storage }
    }

    pub fn replicas(&self) -> (replicas: &[ReplicaLease])
        ensures
            replicas@ == self@,
    {
        self.storage.as_slice()
    }

    pub fn len(&self) -> (length: usize)
        ensures
            length == self@.len(),
    {
        self.storage.len()
    }

    pub fn is_empty(&self) -> (empty: bool)
        ensures
            empty == (self@.len() == 0),
    {
        self.storage.len() == 0
    }

    pub fn all_live(&self, pool: &SegmentPool) -> (live: bool)
        requires
            pool.wf(),
        ensures
            live == all_live(self@, pool@),
    {
        let mut i: usize = 0;
        while i < self.storage.len()
            invariant
                pool.wf(),
                i <= self@.len(),
                forall|j: int| 0 <= j < i ==> (#[trigger] self@[j]).lives(pool@),
            decreases self@.len() - i,
        {
            if !self.storage[i].is_live(pool) {
                assert(!self@[i as int].lives(pool@));
                return false;
            }
            i = i + 1;
        }
        self.storage.len() > 0
    }

    pub fn has_live(&self, pool: &SegmentPool) -> (live: bool)
        requires
            pool.wf(),
        ensures
            live == has_live(self@, pool@),
    {
        let mut i: usize = 0;
        while i < self.storage.len()
            invariant
                pool.wf(),
                i <= self@.len(),
                forall|j: int| 0 <= j < i ==> !(#[trigger] self@[j]).lives(pool@),
            decreases self@.len() - i,
        {
            if self.storage[i].is_live(pool) {
                assert(self@[i as int].lives(pool@));
                return true;
            }
            i = i + 1;
        }
        false
    }

    /// The bytes that the replicas take.
    pub fn reserved_bytes(&self) -> (bytes: u64)
        ensures
            bytes == replica_bytes(self@),
    {
        let mut total: u64 = 0;
        let mut i: usize = 0;
        proof {
            assert(self@.take(0) =~= Seq::empty());
        }
        while i < self.storage.len()
            invariant
                i <= self@.len(),
                total == replica_bytes(self@.take(i as int)),
            decreases self@.len() - i,
        {
            proof {
                assert(self@.take(i + 1).drop_last() =~= self@.take(i as int));
                assert(self@.take(i + 1).last() == self@[i as int]);
            }
            total = total.saturating_add(self.storage[i].reserved_bytes());
            i = i + 1;
        }
        assert(self@.take(i as int) =~= self@);
        total
    }

    /// The smallest capacity of a replica.
    pub fn minimum_capacity_bytes(&self) -> (minimum: Option<u64>)
        ensures
            minimum.is_some() == (self@.len() > 0),
            minimum matches Some(bytes) ==> {
                &&& exists|i: int|
                    0 <= i < self@.len() && bytes == (
                    #[trigger] self@[i]).reservation.allocation.requested_bytes
                &&& forall|i: int|
                    0 <= i < self@.len() ==> bytes <= (
                    #[trigger] self@[i]).reservation.allocation.requested_bytes
            },
    {
        if self.storage.len() == 0 {
            return None;
        }
        let mut minimum: u64 = self.storage[0].capacity_bytes();
        let mut i: usize = 1;
        assert(self@[0].reservation.allocation.requested_bytes == minimum);
        while i < self.storage.len()
            invariant
                1 <= i <= self@.len(),
                exists|j: int|
                    0 <= j < i && minimum == (
                    #[trigger] self@[j]).reservation.allocation.requested_bytes,
                forall|j: int|
                    0 <= j < i ==> minimum <= (
                    #[trigger] self@[j]).reservation.allocation.requested_bytes,
            decreases self@.len() - i,
        {
            let bytes: u64 = self.storage[i].capacity_bytes();
            if bytes < minimum {
                minimum = bytes;
                assert(self@[i as int].reservation.allocation.requested_bytes == minimum);
            }
            i = i + 1;
        }
        Some(minimum)
    }

    /// Tells the replicas apart by which of them are live.
    pub fn partition_by_liveness(self, pool: &SegmentPool) -> (parts: ReplicaPartition)
        requires
            pool.wf(),
        ensures
            match parts {
                ReplicaPartition::AllStale(set) => !has_live(self@, pool@) && set@ == self@,
                ReplicaPartition::AllLive(set) => all_live(self@, pool@) && set@ == self@,
                ReplicaPartition::Mixed { live, stale } => {
                    &&& has_live(self@, pool@)
                    &&& !all_live(self@, pool@)
                    &&& live@ == live_part(self@, pool@)
                    &&& stale@ == stale_part(self@, pool@)
                    &&& live@.len() + stale@.len() == self@.len()
                },
            },
    {
        if !self.has_live(pool) {
            return ReplicaPartition::AllStale(self);
        }
        if self.all_live(pool) {
            return ReplicaPartition::AllLive(self);
        }
        let ghost all = self.storage@;
        let ghost lives = |replica: ReplicaLease| replica.lives(pool@);
        let ghost fails = |replica: ReplicaLease| !replica.lives(pool@);
        let mut rest = self.storage;
        let mut live: Vec<ReplicaLease> = Vec::new();
        let mut stale: Vec<ReplicaLease> = Vec::new();
        proof {
            assert(all.skip(all.len() as int) =~= Seq::empty());
            reveal(Seq::filter);
            assert(all.skip(all.len() as int).filter(lives) =~= Seq::empty());
            assert(all.skip(all.len() as int).filter(fails) =~= Seq::empty());
            assert(live@ =~= Seq::empty());
            assert(stale@ =~= Seq::empty());
        }
        while rest.len() > 0
            invariant
                pool.wf(),
                lives == (|replica: ReplicaLease| replica.lives(pool@)),
                fails == (|replica: ReplicaLease| !replica.lives(pool@)),
                rest@.len() <= all.len(),
                rest@ == all.take(rest@.len() as int),
                live@ == all.skip(rest@.len() as int).filter(lives),
                stale@ == all.skip(rest@.len() as int).filter(fails),
                live@.len() + stale@.len() + rest@.len() == all.len(),
            decreases rest@.len(),
        {
            let ghost n = rest@.len() - 1;
            if let Some(replica) = rest.pop() {
                proof {
                    assert(replica == all[n]);
                    assert(rest@ =~= all.take(n));
                    assert(all.skip(n) =~= seq![all[n]] + all.skip(n + 1));
                    all.skip(n + 1).lemma_filter_prepend(all[n], lives);
                    all.skip(n + 1).lemma_filter_prepend(all[n], fails);
                }
                if replica.is_live(pool) {
                    live.insert(0, replica);
                    assert(live@ =~= all.skip(n).filter(lives));
                    assert(stale@ =~= all.skip(n).filter(fails));
                } else {
                    stale.insert(0, replica);
                    assert(live@ =~= all.skip(n).filter(lives));
                    assert(stale@ =~= all.skip(n).filter(fails));
                }
            }
        }
        assert(all.skip(0) =~= all);
        ReplicaPartition::Mixed {
            live: ReplicaSet { storage: live },
            stale: ReplicaSet { storage: stale },
        }
    }

    /// Hands the ranges of the replicas over, behind those that are there.
    pub fn append_reclaim_resources(self, batch: &mut Vec<Reservation>)
        ensures
            final(batch)@ == old(batch)@ + reservations_of(self@),
    {
        let ghost all = self.storage@;
        let ghost before = batch@;
        let mut rest = self.storage;
        let at: usize = batch.len();
        proof {
            assert(reservations_of(all.skip(all.len() as int)) =~= Seq::empty());
        }
        while rest.len() > 0
            invariant
                at == before.len(),
                rest@.len() <= all.len(),
                rest@ == all.take(rest@.len() as int),
                batch@ == before + reservations_of(all.skip(rest@.len() as int)),
            decreases rest@.len(),
        {
            let ghost n = rest@.len() - 1;
            if let Some(replica) = rest.pop() {
                batch.insert(at, replica.reservation);
                proof {
                    assert(rest@ =~= all.take(n));
                    assert(replica == all[n]);
                    assert(reservations_of(all.skip(n)) =~= seq![all[n].reservation]
                        + reservations_of(all.skip(n + 1)));
                    assert(batch@ =~= before + reservations_of(all.skip(n)));
                }
            }
        }
        assert(all.skip(0) =~= all);
    }
}

} // verus!
