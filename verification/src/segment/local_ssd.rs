//! Admission of offloads to segments on local solid-state disks.

use super::error::LocalSsdError;
use super::identity::{ClientId, SegmentId};
use super::lifetime::{SegmentLease, SegmentLifetime};
use vstd::prelude::*;

verus! {

/// The capacity of a segment on a local disk. What is admitted is first pending
/// and then committed.
#[derive(Debug, Eq, PartialEq, Structural)]
pub struct LocalSsdCapacity {
    pub offload_enabled: bool,
    pub reported_capacity_bytes: Option<u64>,
    pub pending_bytes: u64,
    pub committed_bytes: u64,
}

/// Why an offload is not admitted.
#[derive(Clone, Copy, Debug, Eq, PartialEq, Structural)]
pub enum AdmissionFailure {
    OffloadDisabled,
    CapacityNotReported,
    OutOfSpace,
}

/// What an offload holds of a capacity.
#[derive(Debug, Eq, PartialEq, Structural)]
pub struct LocalSsdAllocation {
    pub bytes: u64,
    pub committed: bool,
}

/// Diagnostics of a capacity.
#[derive(Clone, Copy, Debug, Eq, PartialEq, Structural)]
pub struct LocalSsdStats {
    pub offload_enabled: bool,
    pub capacity_reported: bool,
    pub capacity_bytes: u64,
    pub admitted_bytes: u64,
    pub available_bytes: u64,
    pub pending_bytes: u64,
    pub committed_bytes: u64,
}

impl LocalSsdCapacity {
    /// What holds of every capacity: what is admitted can be counted.
    pub open spec fn wf(self) -> bool {
        self.pending_bytes + self.committed_bytes <= u64::MAX
    }

    /// The bytes that are admitted.
    pub open spec fn admitted(self) -> int {
        self.pending_bytes + self.committed_bytes
    }

    /// Why an offload of `bytes` is not admitted.
    pub open spec fn refusal(self, bytes: u64) -> Option<AdmissionFailure> {
        if !self.offload_enabled {
            Some(AdmissionFailure::OffloadDisabled)
        } else {
            match self.reported_capacity_bytes {
                None => Some(AdmissionFailure::CapacityNotReported),
                Some(capacity) => if self.admitted() + bytes > capacity {
                    Some(AdmissionFailure::OutOfSpace)
                } else {
                    None
                },
            }
        }
    }

    /// Whether an allocation is accounted for.
    pub open spec fn holds(self, allocation: LocalSsdAllocation) -> bool {
        if allocation.committed {
            allocation.bytes <= self.committed_bytes
        } else {
            allocation.bytes <= self.pending_bytes
        }
    }

    /// The capacity after an allocation was given back.
    pub open spec fn returned(self, allocation: LocalSsdAllocation) -> LocalSsdCapacity {
        if allocation.committed {
            LocalSsdCapacity {
                committed_bytes: (self.committed_bytes - allocation.bytes) as u64,
                ..self
            }
        } else {
            LocalSsdCapacity {
                pending_bytes: (self.pending_bytes - allocation.bytes) as u64,
                ..self
            }
        }
    }

    /// The capacity after a pending allocation was committed.
    pub open spec fn settled(self, bytes: u64) -> LocalSsdCapacity {
        LocalSsdCapacity {
            pending_bytes: (self.pending_bytes - bytes) as u64,
            committed_bytes: (self.committed_bytes + bytes) as u64,
            ..self
        }
    }

    pub fn new(offload_enabled: bool) -> (capacity: Self)
        ensures
            capacity == (LocalSsdCapacity {
                offload_enabled,
                reported_capacity_bytes: None,
                pending_bytes: 0,
                committed_bytes: 0,
            }),
            capacity.wf(),
    {
        Self {
            offload_enabled,
            reported_capacity_bytes: None,
            pending_bytes: 0,
            committed_bytes: 0,
        }
    }

    pub fn set_offload_enabled(&mut self, enabled: bool)
        ensures
            *final(self) == (LocalSsdCapacity { offload_enabled: enabled, ..*old(self) }),
    {
        self.offload_enabled = enabled;
    }

    pub fn offload_enabled(&self) -> (enabled: bool)
        ensures
            enabled == self.offload_enabled,
    {
        self.offload_enabled
    }

    pub fn report(&mut self, capacity_bytes: u64)
        ensures
            *final(self) == (LocalSsdCapacity {
                reported_capacity_bytes: Some(capacity_bytes),
                ..*old(self)
            }),
    {
        self.reported_capacity_bytes = Some(capacity_bytes);
    }

    /// Admits an offload of `bytes`, if what the disk reported allows it.
    pub fn admit_offload(&mut self, bytes: u64) -> (admitted: Result<LocalSsdAllocation, AdmissionFailure>)
        requires
            old(self).wf(),
        ensures
            final(self).wf(),
            match old(self).refusal(bytes) {
                Some(failure) => {
                    &&& admitted == Err::<LocalSsdAllocation, AdmissionFailure>(failure)
                    &&& *final(self) == *old(self)
                },
                None => {
                    &&& admitted == Ok::<LocalSsdAllocation, AdmissionFailure>(
                        LocalSsdAllocation { bytes, committed: false },
                    )
                    &&& *final(self) == (LocalSsdCapacity {
                        pending_bytes: (old(self).pending_bytes + bytes) as u64,
                        ..*old(self)
                    })
                },
            },
    {
        if !self.offload_enabled {
            return Err(AdmissionFailure::OffloadDisabled);
        }
        let capacity: u64 = match self.reported_capacity_bytes {
            Some(capacity) => capacity,
            None => return Err(AdmissionFailure::CapacityNotReported),
        };
        let admitted: u64 = self.pending_bytes.saturating_add(self.committed_bytes);
        match admitted.checked_add(bytes) {
            None => return Err(AdmissionFailure::OutOfSpace),
            Some(next) => {
                if next > capacity {
                    return Err(AdmissionFailure::OutOfSpace);
                }
            },
        }
        self.pending_bytes = self.pending_bytes + bytes;
        Ok(LocalSsdAllocation { bytes, committed: false })
    }

    /// Commits a pending allocation.
    pub fn commit(&mut self, allocation: &mut LocalSsdAllocation)
        requires
            old(self).wf(),
            !old(allocation).committed,
            old(self).holds(*old(allocation)),
        ensures
            final(self).wf(),
            *final(self) == old(self).settled(old(allocation).bytes),
            *final(allocation) == (LocalSsdAllocation { committed: true, ..*old(allocation) }),
            final(self).admitted() == old(self).admitted(),
            final(self).holds(*final(allocation)),
    {
        self.pending_bytes = self.pending_bytes - allocation.bytes;
        self.committed_bytes = self.committed_bytes + allocation.bytes;
        allocation.committed = true;
    }

    /// Gives an allocation back.
    pub fn release(&mut self, allocation: LocalSsdAllocation)
        requires
            old(self).wf(),
            old(self).holds(allocation),
        ensures
            final(self).wf(),
            *final(self) == old(self).returned(allocation),
            final(self).admitted() == old(self).admitted() - allocation.bytes,
    {
        if allocation.committed {
            self.committed_bytes = self.committed_bytes - allocation.bytes;
        } else {
            self.pending_bytes = self.pending_bytes - allocation.bytes;
        }
    }

    /// What diagnostics of the capacity show.
    pub open spec fn shown(self) -> LocalSsdStats {
        let capacity_bytes = match self.reported_capacity_bytes {
            Some(capacity) => capacity,
            None => 0,
        };
        LocalSsdStats {
            offload_enabled: self.offload_enabled,
            capacity_reported: self.reported_capacity_bytes is Some,
            capacity_bytes,
            admitted_bytes: self.admitted() as u64,
            available_bytes: if capacity_bytes < self.admitted() {
                0
            } else {
                (capacity_bytes - self.admitted()) as u64
            },
            pending_bytes: self.pending_bytes,
            committed_bytes: self.committed_bytes,
        }
    }

    pub fn stats(&self) -> (stats: LocalSsdStats)
        requires
            self.wf(),
        ensures
            stats == self.shown(),
    {
        let capacity_bytes: u64 = match self.reported_capacity_bytes {
            Some(capacity) => capacity,
            None => 0,
        };
        let admitted_bytes: u64 = self.pending_bytes.saturating_add(self.committed_bytes);
        LocalSsdStats {
            offload_enabled: self.offload_enabled,
            capacity_reported: self.reported_capacity_bytes.is_some(),
            capacity_bytes,
            admitted_bytes,
            available_bytes: capacity_bytes.saturating_sub(admitted_bytes),
            pending_bytes: self.pending_bytes,
            committed_bytes: self.committed_bytes,
        }
    }
}

/// An offload that was admitted. It is committed or aborted.
#[derive(Debug)]
pub struct OffloadPermit {
    pub allocation: LocalSsdAllocation,
    pub segment_lease: SegmentLease,
    pub segment: SegmentId,
    pub owner: ClientId,
}

/// An offload that is on the disk.
#[derive(Debug)]
pub struct LocalSsdLease {
    pub allocation: LocalSsdAllocation,
    pub segment_lease: SegmentLease,
    pub segment: SegmentId,
    pub owner: ClientId,
    pub transport_endpoint: String,
}

/// Where an offload can be read.
#[derive(Clone, Copy, Debug, Eq, PartialEq)]
pub struct LocalSsdDescriptorRef<'a> {
    pub owner: ClientId,
    pub bytes: u64,
    pub transport_endpoint: &'a str,
}

/// Where an offload can be read, for keeps.
#[derive(Clone, Debug, Eq, PartialEq)]
pub struct LocalSsdDescriptor {
    pub owner: ClientId,
    pub bytes: u64,
    pub transport_endpoint: String,
}

/// The capacity and the lifetime of a segment on a local disk.
pub struct LocalSsdMount {
    pub capacity: LocalSsdCapacity,
    pub lifetime: SegmentLifetime,
}

impl LocalSsdMount {
    /// Whether a permit or a lease is accounted for.
    pub open spec fn accounts_for(self, allocation: LocalSsdAllocation, lease: SegmentLease) -> bool {
        &&& self.capacity.wf()
        &&& self.capacity.holds(allocation)
        &&& lease.incarnation == self.lifetime.incarnation
        &&& self.lifetime.leases > 0
    }

    /// The mount after a permit or a lease was given back.
    pub open spec fn returned(self, allocation: LocalSsdAllocation) -> LocalSsdMount {
        LocalSsdMount {
            capacity: self.capacity.returned(allocation),
            lifetime: SegmentLifetime {
                leases: (self.lifetime.leases - 1) as u64,
                ..self.lifetime
            },
        }
    }
}

impl OffloadPermit {
    pub fn new(
        allocation: LocalSsdAllocation,
        segment_lease: SegmentLease,
        segment: SegmentId,
        owner: ClientId,
    ) -> (permit: Self)
        ensures
            permit.allocation == allocation,
            permit.segment_lease == segment_lease,
            permit.segment == segment,
            permit.owner == owner,
    {
        Self { allocation, segment_lease, segment, owner }
    }

    pub fn segment_id(&self) -> (id: SegmentId)
        ensures
            id == self.segment,
    {
        self.segment
    }

    pub fn bytes(&self) -> (bytes: u64)
        ensures
            bytes == self.allocation.bytes,
    {
        self.allocation.bytes
    }

    pub fn is_live(&self, mount: &LocalSsdMount) -> (live: bool)
        ensures
            live == mount.lifetime.keeps(self.segment_lease),
    {
        self.segment_lease.is_live(&mount.lifetime)
    }

    /// Why the permit is not committed.
    pub open spec fn commit_fault(self, mount: LocalSsdMount, endpoint: Seq<char>) -> Option<
        LocalSsdError,
    > {
        if !mount.lifetime.keeps(self.segment_lease) {
            Some(LocalSsdError::NotAccepting(self.segment))
        } else if endpoint.len() == 0 {
            Some(LocalSsdError::EmptyTransportEndpoint)
        } else {
            None
        }
    }

    /// Commits the offload. A permit that cannot be committed is given back.
    pub fn commit(self, mount: &mut LocalSsdMount, transport_endpoint: String) -> (committed: Result<
        LocalSsdLease,
        LocalSsdError,
    >)
        requires
            !self.allocation.committed,
            old(mount).accounts_for(self.allocation, self.segment_lease),
        ensures
            final(mount).capacity.wf(),
            match self.commit_fault(*old(mount), transport_endpoint@) {
                Some(fault) => {
                    &&& committed == Err::<LocalSsdLease, LocalSsdError>(fault)
                    &&& *final(mount) == old(mount).returned(self.allocation)
                },
                None => {
                    &&& committed == Ok::<LocalSsdLease, LocalSsdError>(
                        LocalSsdLease {
                            allocation: LocalSsdAllocation {
                                bytes: self.allocation.bytes,
                                committed: true,
                            },
                            segment_lease: self.segment_lease,
                            segment: self.segment,
                            owner: self.owner,
                            transport_endpoint,
                        },
                    )
                    &&& *final(mount) == (LocalSsdMount {
                        capacity: old(mount).capacity.settled(self.allocation.bytes),
                        lifetime: old(mount).lifetime,
                    })
                },
            },
    {
        let segment = self.segment;
        if !self.is_live(mount) {
            self.abort(mount);
            return Err(LocalSsdError::NotAccepting(segment));
        }
        if transport_endpoint.as_str().is_empty() {
            self.abort(mount);
            return Err(LocalSsdError::EmptyTransportEndpoint);
        }
        let OffloadPermit { allocation, segment_lease, segment, owner } = self;
        let mut allocation = allocation;
        mount.capacity.commit(&mut allocation);
        Ok(LocalSsdLease { allocation, segment_lease, segment, owner, transport_endpoint })
    }

    /// Gives the permit back.
    pub fn abort(self, mount: &mut LocalSsdMount)
        requires
            old(mount).accounts_for(self.allocation, self.segment_lease),
        ensures
            final(mount).capacity.wf(),
            *final(mount) == old(mount).returned(self.allocation),
    {
        mount.capacity.release(self.allocation);
        mount.lifetime.release(self.segment_lease);
    }
}

impl LocalSsdLease {
    pub fn segment_id(&self) -> (id: SegmentId)
        ensures
            id == self.segment,
    {
        self.segment
    }

    pub fn bytes(&self) -> (bytes: u64)
        ensures
            bytes == self.allocation.bytes,
    {
        self.allocation.bytes
    }

    /// Whether the mounted segment incarnation that issued this lease is still
    /// logically valid.
    pub fn is_live(&self, mount: &LocalSsdMount) -> (live: bool)
        ensures
            live == mount.lifetime.keeps(self.segment_lease),
    {
        self.segment_lease.is_live(&mount.lifetime)
    }

    pub fn transport_endpoint(&self) -> (endpoint: &str)
        ensures
            endpoint@ == self.transport_endpoint@,
    {
        self.transport_endpoint.as_str()
    }

    pub fn descriptor(&self) -> (descriptor: LocalSsdDescriptorRef<'_>)
        ensures
            descriptor.owner == self.owner,
            descriptor.bytes == self.allocation.bytes,
            descriptor.transport_endpoint@ == self.transport_endpoint@,
    {
        LocalSsdDescriptorRef {
            owner: self.owner,
            bytes: self.allocation.bytes,
            transport_endpoint: self.transport_endpoint.as_str(),
        }
    }

    pub fn owned_descriptor(&self) -> (descriptor: LocalSsdDescriptor)
        ensures
            descriptor.owner == self.owner,
            descriptor.bytes == self.allocation.bytes,
            descriptor.transport_endpoint@ == self.transport_endpoint@,
    {
        LocalSsdDescriptor {
            owner: self.owner,
            bytes: self.allocation.bytes,
            transport_endpoint: self.transport_endpoint.clone(),
        }
    }

    /// Gives the offload's capacity back.
    pub fn release(self, mount: &mut LocalSsdMount)
        requires
            old(mount).accounts_for(self.allocation, self.segment_lease),
        ensures
            final(mount).capacity.wf(),
            *final(mount) == old(mount).returned(self.allocation),
    {
        mount.capacity.release(self.allocation);
        mount.lifetime.release(self.segment_lease);
    }
}

/// What is admitted never exceeds what the disk reported when it was admitted,
/// and aborting or committing and releasing an offload gives back what admitting
/// it took.
pub proof fn law_offload_accounting_balances(capacity: LocalSsdCapacity, bytes: u64)
    requires
        capacity.wf(),
        capacity.refusal(bytes) is None,
    ensures
        ({
            let admitted = LocalSsdCapacity {
                pending_bytes: (capacity.pending_bytes + bytes) as u64,
                ..capacity
            };
            let pending = LocalSsdAllocation { bytes, committed: false };
            let committed = LocalSsdAllocation { bytes, committed: true };
            &&& admitted.admitted() <= capacity.reported_capacity_bytes.unwrap()
            &&& admitted.holds(pending)
            &&& admitted.returned(pending) == capacity
            &&& admitted.settled(bytes).holds(committed)
            &&& admitted.settled(bytes).admitted() == admitted.admitted()
            &&& admitted.settled(bytes).returned(committed) == capacity
        }),
{
}

/// An offload is admitted exactly where offloading is on, the disk reported what it
/// holds, and the offload fits beside what is admitted already, pending or committed.
pub proof fn law_offload_admission(capacity: LocalSsdCapacity, bytes: u64)
    ensures
        capacity.refusal(bytes) is None <==> capacity.offload_enabled
            && capacity.reported_capacity_bytes is Some && capacity.pending_bytes
            + capacity.committed_bytes + bytes <= capacity.reported_capacity_bytes.unwrap(),
        !capacity.offload_enabled ==> capacity.refusal(bytes) == Some(
            AdmissionFailure::OffloadDisabled,
        ),
        capacity.offload_enabled && capacity.reported_capacity_bytes is None ==> capacity.refusal(
            bytes,
        ) == Some(AdmissionFailure::CapacityNotReported),
        capacity.wf() && capacity.reported_capacity_bytes is Some && capacity.pending_bytes
            + capacity.committed_bytes <= capacity.reported_capacity_bytes.unwrap()
            ==> capacity.shown().available_bytes == capacity.reported_capacity_bytes.unwrap()
            - capacity.pending_bytes - capacity.committed_bytes,
        capacity.wf() ==> capacity.shown().admitted_bytes == capacity.pending_bytes
            + capacity.committed_bytes,
{
}

} // verus!
