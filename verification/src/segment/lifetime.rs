//! The lifetime of one mounted segment incarnation.

use vstd::prelude::*;

verus! {

/// Lifecycle control for one mounted segment incarnation.
///
/// The catalog owns the lifetime while each resource-bearing allocation owns a
/// [`SegmentLease`]. Logical invalidation is independent from physical
/// reclamation: leases observe the former and keep the latter alive.
#[derive(Debug, Eq, PartialEq, Structural)]
pub struct SegmentLifetime {
    /// The number of the incarnation.
    pub incarnation: u64,
    pub live: bool,
    pub leases: u64,
}

/// A resource-bearing reference to one mounted segment incarnation. Each lease
/// corresponds to one allocation that [`SegmentLifetime::active_leases`] counts.
#[derive(Debug, Eq, PartialEq, Structural)]
pub struct SegmentLease {
    pub incarnation: u64,
}

impl SegmentLifetime {
    /// Whether a lease of this incarnation may still be used.
    pub open spec fn keeps(self, lease: SegmentLease) -> bool {
        self.live && lease.incarnation == self.incarnation
    }

    pub fn new(incarnation: u64) -> (lifetime: Self)
        ensures
            lifetime == (SegmentLifetime { incarnation, live: true, leases: 0 }),
    {
        Self { incarnation, live: true, leases: 0 }
    }

    pub fn acquire(&mut self) -> (lease: SegmentLease)
        requires
            old(self).leases < u64::MAX,
        ensures
            lease.incarnation == old(self).incarnation,
            *final(self) == (SegmentLifetime {
                leases: (old(self).leases + 1) as u64,
                ..*old(self)
            }),
    {
        self.leases = self.leases + 1;
        SegmentLease { incarnation: self.incarnation }
    }

    /// Gives a lease back. A lease of another incarnation is none of this
    /// lifetime's.
    pub fn release(&mut self, lease: SegmentLease)
        ensures
            *final(self) == if lease.incarnation == old(self).incarnation && old(self).leases > 0 {
                SegmentLifetime { leases: (old(self).leases - 1) as u64, ..*old(self) }
            } else {
                *old(self)
            },
    {
        if lease.incarnation == self.incarnation && self.leases > 0 {
            self.leases = self.leases - 1;
        }
    }

    pub fn active_leases(&self) -> (leases: u64)
        ensures
            leases == self.leases,
    {
        self.leases
    }

    /// Fences every lease issued by this mounted incarnation.
    ///
    /// The leases still own physical reclamation; invalidation only prevents
    /// their logical use.
    pub fn invalidate(&mut self)
        ensures
            *final(self) == (SegmentLifetime { live: false, ..*old(self) }),
    {
        self.live = false;
    }
}

impl SegmentLease {
    pub fn is_live(&self, lifetime: &SegmentLifetime) -> (live: bool)
        ensures
            live == lifetime.keeps(*self),
    {
        lifetime.live && self.incarnation == lifetime.incarnation
    }
}

/// Invalidation fences every lease that was ever issued, and leaves the count of
/// those that still hold capacity.
pub proof fn law_invalidation_fences_every_lease(lifetime: SegmentLifetime, lease: SegmentLease)
    ensures
        ({
            let fenced = SegmentLifetime { live: false, ..lifetime };
            !fenced.keeps(lease) && fenced.leases == lifetime.leases
        }),
{
}

} // verus!
