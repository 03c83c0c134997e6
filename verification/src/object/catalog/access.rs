//! Leases and pins of a committed version.

use super::super::config::{ResolvedObjectPinRequest, SoftPinAction};
use super::super::reclamation::CatalogTick;
use vstd::prelude::*;

verus! {

/// What protects a committed version from being evicted.
#[derive(Clone, Copy, Debug, Eq, PartialEq, Structural)]
pub struct AccessControl {
    pub lease_until: u64,
    /// Whether the version was read since the collector last looked at it.
    pub recent: bool,
    /// Zero where the version is not soft-pinned.
    pub soft_pin_until: u64,
    pub hard_pinned: bool,
}

impl AccessControl {
    /// The soft pin that a version committed now gets.
    pub open spec fn committed_soft_pin(
        base: Option<AccessControl>,
        pins: ResolvedObjectPinRequest,
        now: CatalogTick,
    ) -> u64 {
        match pins.soft_pin.action {
            SoftPinAction::Preserve => match base {
                Some(access) => if access.soft_pin_until > now.value {
                    access.soft_pin_until
                } else {
                    0
                },
                None => 0,
            },
            SoftPinAction::Enable => if pins.soft_pin.ttl_ticks != 0 {
                now.later(pins.soft_pin.ttl_ticks).value
            } else {
                0
            },
            SoftPinAction::Disable => 0,
        }
    }

    /// The protection that a version committed now starts with. A hard pin is
    /// inherited from the version that is replaced.
    pub open spec fn committed(
        base: Option<AccessControl>,
        pins: ResolvedObjectPinRequest,
        now: CatalogTick,
    ) -> AccessControl {
        AccessControl {
            lease_until: 0,
            recent: false,
            soft_pin_until: Self::committed_soft_pin(base, pins, now),
            hard_pinned: pins.with_hard_pin || (base matches Some(access) && access.hard_pinned),
        }
    }

    /// The end of the lease after a read.
    pub open spec fn lease_after_read(
        self,
        now: CatalogTick,
        lease_ttl_ticks: u64,
        lease_refresh_ticks: u64,
    ) -> u64 {
        if self.lease_until < now.later(lease_refresh_ticks).value {
            now.later(lease_ttl_ticks).value
        } else {
            self.lease_until
        }
    }

    /// The protection after a read.
    pub open spec fn read(
        self,
        now: CatalogTick,
        lease_ttl_ticks: u64,
        lease_refresh_ticks: u64,
    ) -> AccessControl {
        AccessControl {
            lease_until: self.lease_after_read(now, lease_ttl_ticks, lease_refresh_ticks),
            recent: true,
            ..self
        }
    }

    pub open spec fn leased(self, now: CatalogTick) -> bool {
        self.lease_until > now.value
    }

    pub open spec fn soft_pinned(self, now: CatalogTick) -> bool {
        self.soft_pin_until > now.value
    }

    /// Whether eviction leaves the version alone whatever its use.
    pub open spec fn pinned(self, now: CatalogTick, evict_soft_pinned: bool) -> bool {
        self.hard_pinned || (self.soft_pinned(now) && !evict_soft_pinned)
    }

    pub fn for_commit(
        base: Option<AccessControl>,
        pins: ResolvedObjectPinRequest,
        now: CatalogTick,
    ) -> (access: Self)
        ensures
            access == AccessControl::committed(base, pins, now),
    {
        let soft_pin_until: u64 = match pins.soft_pin.action {
            SoftPinAction::Preserve => match base {
                Some(access) => if access.soft_pin_until > now.value {
                    access.soft_pin_until
                } else {
                    0
                },
                None => 0,
            },
            SoftPinAction::Enable => {
                if pins.soft_pin.ttl_ticks != 0 {
                    now.saturating_add(pins.soft_pin.ttl_ticks).value
                } else {
                    0
                }
            },
            SoftPinAction::Disable => 0,
        };
        let inherited = match base {
            Some(access) => access.hard_pinned,
            None => false,
        };
        Self {
            lease_until: 0,
            recent: false,
            soft_pin_until,
            hard_pinned: pins.with_hard_pin || inherited,
        }
    }

    /// Notes a read and extends the lease where it runs out soon.
    pub fn record_access(
        &mut self,
        now: CatalogTick,
        lease_ttl_ticks: u64,
        lease_refresh_ticks: u64,
    ) -> (lease_until: CatalogTick)
        ensures
            *final(self) == old(self).read(now, lease_ttl_ticks, lease_refresh_ticks),
            lease_until.value == final(self).lease_until,
    {
        let refresh_at = now.saturating_add(lease_refresh_ticks);
        if self.lease_until < refresh_at.value {
            self.lease_until = now.saturating_add(lease_ttl_ticks).value;
        }
        self.recent = true;
        CatalogTick::new(self.lease_until)
    }

    pub fn is_leased(&self, now: CatalogTick) -> (leased: bool)
        ensures
            leased == self.leased(now),
    {
        self.lease_until > now.value
    }

    pub fn is_soft_pinned(&self, now: CatalogTick) -> (pinned: bool)
        ensures
            pinned == self.soft_pinned(now),
    {
        self.soft_pin_until > now.value
    }

    /// The end of the soft pin.
    pub fn soft_pin_until(&self) -> (deadline: Option<CatalogTick>)
        ensures
            deadline == if self.soft_pin_until == 0 {
                None
            } else {
                Some(CatalogTick { value: self.soft_pin_until })
            },
    {
        if self.soft_pin_until == 0 {
            None
        } else {
            Some(CatalogTick::new(self.soft_pin_until))
        }
    }
}

/// A read leases for a while: the lease then lasts at least as long as leases are kept
/// up, never ends earlier than before, and is either the earlier one or a whole new
/// one. The version counts as read, and its pins stay.
pub proof fn law_reads_lease(access: AccessControl, now: CatalogTick, ttl: u64, refresh: u64)
    requires
        refresh <= ttl,
    ensures
        ({
            let end = access.read(now, ttl, refresh).lease_until;
            &&& end >= access.lease_until
            &&& end >= now.value + refresh || end == u64::MAX
            &&& end == access.lease_until || end == now.value + ttl || (end == u64::MAX && now.value
                + ttl > u64::MAX)
            &&& access.lease_until >= now.value + refresh ==> end == access.lease_until
            &&& access.read(now, ttl, refresh).recent
            &&& access.read(now, ttl, refresh).hard_pinned == access.hard_pinned
            &&& access.read(now, ttl, refresh).soft_pin_until == access.soft_pin_until
        }),
{
}

/// A hard pin is never lost by a write, and a write that asks for one gets it; a
/// version that was neither pinned nor asked to be is not.
pub proof fn law_hard_pins_outlast_writes(
    base: Option<AccessControl>,
    pins: ResolvedObjectPinRequest,
    now: CatalogTick,
)
    ensures
        ({
            let access = AccessControl::committed(base, pins, now);
            &&& base is Some && base.unwrap().hard_pinned ==> access.hard_pinned
            &&& pins.with_hard_pin ==> access.hard_pinned
            &&& access.hard_pinned ==> pins.with_hard_pin || (base is Some
                && base.unwrap().hard_pinned)
            &&& access.lease_until == 0 && !access.recent
        }),
{
}

/// A soft pin is kept, set or taken off as a write asks: one that is kept is the one
/// that runs, one that is set lasts for its time from now on.
pub proof fn law_soft_pins_follow_writes(
    base: Option<AccessControl>,
    pins: ResolvedObjectPinRequest,
    now: CatalogTick,
)
    ensures
        ({
            let end = AccessControl::committed(base, pins, now).soft_pin_until;
            let ttl = pins.soft_pin.ttl_ticks;
            &&& pins.soft_pin.action == SoftPinAction::Disable ==> end == 0
            &&& pins.soft_pin.action == SoftPinAction::Enable && ttl > 0 ==> end == now.value + ttl
                || (end == u64::MAX && now.value + ttl > u64::MAX)
            &&& pins.soft_pin.action == SoftPinAction::Enable && ttl == 0 ==> end == 0
            &&& pins.soft_pin.action == SoftPinAction::Preserve && base is Some
                && base.unwrap().soft_pin_until > now.value ==> end == base.unwrap().soft_pin_until
            &&& pins.soft_pin.action == SoftPinAction::Preserve && (base is None
                || base.unwrap().soft_pin_until <= now.value) ==> end == 0
        }),
{
}

} // verus!
