//! Object-catalog sizing, lease, and reclamation configuration.

use super::error::ObjectCatalogConfigError;
use vstd::prelude::*;

verus! {

/// Default soft-pin lifetime (30 minutes).
pub const DEFAULT_SOFT_PIN_TTL_TICKS: u64 = 1_800_000;

/// Maximum request-level soft-pin lifetime (24 hours).
pub const DEFAULT_MAX_SOFT_PIN_TTL_TICKS: u64 = 86_400_000;

/// Soft-pinned objects are a last-resort eviction candidate.
pub const DEFAULT_ALLOW_EVICT_SOFT_PINNED_OBJECTS: bool = true;

/// Number of objects a catalog is sized for.
pub const DEFAULT_EXPECTED_OBJECTS: usize = 65_536;

/// Largest number of objects that a catalog can be sized for: room for more
/// entries has no size that can be expressed.
pub const MAX_EXPECTED_OBJECTS: usize = usize::MAX / 1024;

/// Requested change to an object's committed soft pin.
#[derive(Clone, Copy, Debug, Eq, PartialEq, Structural)]
pub enum SoftPinAction {
    /// Keep the currently committed deadline, if any.
    Preserve,
    /// Install a new deadline when the write commits.
    Enable,
    /// Clear the committed deadline when the write commits.
    Disable,
}

impl Default for SoftPinAction {
    fn default() -> (action: Self)
        ensures
            action == SoftPinAction::Preserve,
    {
        Self::Preserve
    }
}

/// Pin policy carried by one put or upsert transaction.
#[derive(Clone, Copy, Debug, Eq, PartialEq, Structural)]
pub struct ObjectPinRequest {
    pub soft_pin_action: SoftPinAction,
    pub soft_pin_ttl_ticks: Option<u64>,
    pub with_hard_pin: bool,
}

impl Default for ObjectPinRequest {
    fn default() -> (request: Self)
        ensures
            request == (ObjectPinRequest {
                soft_pin_action: SoftPinAction::Preserve,
                soft_pin_ttl_ticks: None,
                with_hard_pin: false,
            }),
    {
        Self {
            soft_pin_action: SoftPinAction::Preserve,
            soft_pin_ttl_ticks: None,
            with_hard_pin: false,
        }
    }
}

impl ObjectPinRequest {
    pub fn new(
        soft_pin_action: SoftPinAction,
        soft_pin_ttl_ticks: Option<u64>,
        with_hard_pin: bool,
    ) -> (request: Self)
        ensures
            request == (ObjectPinRequest { soft_pin_action, soft_pin_ttl_ticks, with_hard_pin }),
    {
        Self { soft_pin_action, soft_pin_ttl_ticks, with_hard_pin }
    }

    pub fn soft_pin_action(self) -> (action: SoftPinAction)
        ensures
            action == self.soft_pin_action,
    {
        self.soft_pin_action
    }

    pub fn soft_pin_ttl_ticks(self) -> (ticks: Option<u64>)
        ensures
            ticks == self.soft_pin_ttl_ticks,
    {
        self.soft_pin_ttl_ticks
    }

    pub fn with_hard_pin(self) -> (pinned: bool)
        ensures
            pinned == self.with_hard_pin,
    {
        self.with_hard_pin
    }
}

/// A pin policy whose lifetime is settled.
#[derive(Clone, Copy, Debug, Eq, PartialEq, Structural)]
pub struct ResolvedObjectPinRequest {
    pub soft_pin: ResolvedSoftPinRequest,
    pub with_hard_pin: bool,
}

/// A soft-pin change whose lifetime is settled.
#[derive(Clone, Copy, Debug, Eq, PartialEq, Structural)]
pub struct ResolvedSoftPinRequest {
    pub action: SoftPinAction,
    pub ttl_ticks: u64,
}

/// Complete configuration for an object catalog.
///
/// Builder methods consume and return the configuration, so partially updated
/// values cannot be observed through shared mutable state.
#[derive(Clone, Copy, Debug, Eq, PartialEq, Structural)]
pub struct ObjectCatalogConfig {
    pub expected_objects: usize,
    pub lease_ttl_ticks: u64,
    pub lease_refresh_ticks: u64,
    pub pending_timeout_ticks: u64,
    pub empty_slot_grace_ticks: u64,
    pub max_retired_bytes: u64,
    pub default_soft_pin_ttl_ticks: u64,
    pub max_soft_pin_ttl_ticks: u64,
    pub allow_evict_soft_pinned_objects: bool,
}

impl ObjectCatalogConfig {
    /// The first thing that is wrong with a configuration.
    pub open spec fn fault(self) -> Option<ObjectCatalogConfigError> {
        if self.expected_objects == 0 {
            Some(ObjectCatalogConfigError::ZeroExpectedObjects)
        } else if self.lease_ttl_ticks == 0 {
            Some(ObjectCatalogConfigError::ZeroLeaseTtl)
        } else if self.lease_refresh_ticks > self.lease_ttl_ticks {
            Some(
                ObjectCatalogConfigError::LeaseRefreshExceedsTtl {
                    lease_ttl_ticks: self.lease_ttl_ticks,
                    lease_refresh_ticks: self.lease_refresh_ticks,
                },
            )
        } else if self.pending_timeout_ticks == 0 {
            Some(ObjectCatalogConfigError::ZeroPendingTimeout)
        } else if self.max_retired_bytes == 0 {
            Some(ObjectCatalogConfigError::ZeroMaxRetiredBytes)
        } else if self.default_soft_pin_ttl_ticks > self.max_soft_pin_ttl_ticks {
            Some(
                ObjectCatalogConfigError::DefaultSoftPinTtlExceedsMaximum {
                    default_soft_pin_ttl_ticks: self.default_soft_pin_ttl_ticks,
                    max_soft_pin_ttl_ticks: self.max_soft_pin_ttl_ticks,
                },
            )
        } else {
            None
        }
    }

    /// The lifetime that an enabling request asks for.
    pub open spec fn enabled_ttl(self, request: ObjectPinRequest) -> u64 {
        match request.soft_pin_ttl_ticks {
            Some(ticks) => ticks,
            None => self.default_soft_pin_ttl_ticks,
        }
    }

    /// What a pin request comes to under this configuration.
    pub open spec fn resolved(self, request: ObjectPinRequest) -> Result<
        ResolvedObjectPinRequest,
        ObjectCatalogConfigError,
    > {
        let enabled = request.soft_pin_action == SoftPinAction::Enable;
        if !enabled && request.soft_pin_ttl_ticks is Some {
            Err(ObjectCatalogConfigError::SoftPinTtlRequiresEnable)
        } else if enabled && self.enabled_ttl(request) > self.max_soft_pin_ttl_ticks {
            Err(
                ObjectCatalogConfigError::SoftPinTtlExceedsMaximum {
                    soft_pin_ttl_ticks: self.enabled_ttl(request),
                    max_soft_pin_ttl_ticks: self.max_soft_pin_ttl_ticks,
                },
            )
        } else {
            Ok(
                ResolvedObjectPinRequest {
                    soft_pin: ResolvedSoftPinRequest {
                        action: request.soft_pin_action,
                        ttl_ticks: if enabled {
                            self.enabled_ttl(request)
                        } else {
                            0
                        },
                    },
                    with_hard_pin: request.with_hard_pin,
                },
            )
        }
    }

    /// The configuration for a number of expected objects, otherwise as usual.
    pub open spec fn usual(expected_objects: usize) -> ObjectCatalogConfig {
        ObjectCatalogConfig {
            expected_objects,
            lease_ttl_ticks: 10_000,
            lease_refresh_ticks: 5_000,
            pending_timeout_ticks: 30_000,
            empty_slot_grace_ticks: 60_000,
            max_retired_bytes: 0x4000_0000,
            default_soft_pin_ttl_ticks: DEFAULT_SOFT_PIN_TTL_TICKS,
            max_soft_pin_ttl_ticks: DEFAULT_MAX_SOFT_PIN_TTL_TICKS,
            allow_evict_soft_pinned_objects: DEFAULT_ALLOW_EVICT_SOFT_PINNED_OBJECTS,
        }
    }

    pub fn new(expected_objects: usize) -> (config: Self)
        ensures
            config == ObjectCatalogConfig::usual(expected_objects),
    {
        Self {
            expected_objects,
            lease_ttl_ticks: 10_000,
            lease_refresh_ticks: 5_000,
            pending_timeout_ticks: 30_000,
            empty_slot_grace_ticks: 60_000,
            max_retired_bytes: 0x4000_0000,
            default_soft_pin_ttl_ticks: DEFAULT_SOFT_PIN_TTL_TICKS,
            max_soft_pin_ttl_ticks: DEFAULT_MAX_SOFT_PIN_TTL_TICKS,
            allow_evict_soft_pinned_objects: DEFAULT_ALLOW_EVICT_SOFT_PINNED_OBJECTS,
        }
    }

    pub fn with_lease(self, ttl_ticks: u64, refresh_ticks: u64) -> (config: Self)
        ensures
            config == (ObjectCatalogConfig {
                lease_ttl_ticks: ttl_ticks,
                lease_refresh_ticks: refresh_ticks,
                ..self
            }),
    {
        Self { lease_ttl_ticks: ttl_ticks, lease_refresh_ticks: refresh_ticks, ..self }
    }

    pub fn with_pending_timeout(self, ticks: u64) -> (config: Self)
        ensures
            config == (ObjectCatalogConfig { pending_timeout_ticks: ticks, ..self }),
    {
        Self { pending_timeout_ticks: ticks, ..self }
    }

    pub fn with_empty_slot_grace(self, ticks: u64) -> (config: Self)
        ensures
            config == (ObjectCatalogConfig { empty_slot_grace_ticks: ticks, ..self }),
    {
        Self { empty_slot_grace_ticks: ticks, ..self }
    }

    pub fn with_max_retired_bytes(self, bytes: u64) -> (config: Self)
        ensures
            config == (ObjectCatalogConfig { max_retired_bytes: bytes, ..self }),
    {
        Self { max_retired_bytes: bytes, ..self }
    }

    pub fn with_soft_pin_ttl(self, default_ticks: u64, max_ticks: u64) -> (config: Self)
        ensures
            config == (ObjectCatalogConfig {
                default_soft_pin_ttl_ticks: default_ticks,
                max_soft_pin_ttl_ticks: max_ticks,
                ..self
            }),
    {
        Self {
            default_soft_pin_ttl_ticks: default_ticks,
            max_soft_pin_ttl_ticks: max_ticks,
            ..self
        }
    }

    pub fn with_soft_pin_eviction(self, allow: bool) -> (config: Self)
        ensures
            config == (ObjectCatalogConfig { allow_evict_soft_pinned_objects: allow, ..self }),
    {
        Self { allow_evict_soft_pinned_objects: allow, ..self }
    }

    pub fn default_soft_pin_ttl_ticks(self) -> (ticks: u64)
        ensures
            ticks == self.default_soft_pin_ttl_ticks,
    {
        self.default_soft_pin_ttl_ticks
    }

    pub fn max_soft_pin_ttl_ticks(self) -> (ticks: u64)
        ensures
            ticks == self.max_soft_pin_ttl_ticks,
    {
        self.max_soft_pin_ttl_ticks
    }

    pub fn allow_evict_soft_pinned_objects(self) -> (allow: bool)
        ensures
            allow == self.allow_evict_soft_pinned_objects,
    {
        self.allow_evict_soft_pinned_objects
    }

    pub fn validate(self) -> (checked: Result<(), ObjectCatalogConfigError>)
        ensures
            checked == match self.fault() {
                Some(fault) => Err::<(), ObjectCatalogConfigError>(fault),
                None => Ok(()),
            },
    {
        if self.expected_objects == 0 {
            return Err(ObjectCatalogConfigError::ZeroExpectedObjects);
        }
        if self.lease_ttl_ticks == 0 {
            return Err(ObjectCatalogConfigError::ZeroLeaseTtl);
        }
        if self.lease_refresh_ticks > self.lease_ttl_ticks {
            return Err(
                ObjectCatalogConfigError::LeaseRefreshExceedsTtl {
                    lease_ttl_ticks: self.lease_ttl_ticks,
                    lease_refresh_ticks: self.lease_refresh_ticks,
                },
            );
        }
        if self.pending_timeout_ticks == 0 {
            return Err(ObjectCatalogConfigError::ZeroPendingTimeout);
        }
        if self.max_retired_bytes == 0 {
            return Err(ObjectCatalogConfigError::ZeroMaxRetiredBytes);
        }
        if self.default_soft_pin_ttl_ticks > self.max_soft_pin_ttl_ticks {
            return Err(
                ObjectCatalogConfigError::DefaultSoftPinTtlExceedsMaximum {
                    default_soft_pin_ttl_ticks: self.default_soft_pin_ttl_ticks,
                    max_soft_pin_ttl_ticks: self.max_soft_pin_ttl_ticks,
                },
            );
        }
        Ok(())
    }

    pub fn resolve_pin_request(self, request: ObjectPinRequest) -> (resolved: Result<
        ResolvedObjectPinRequest,
        ObjectCatalogConfigError,
    >)
        ensures
            resolved == self.resolved(request),
    {
        let ttl_ticks: u64 = match request.soft_pin_action {
            SoftPinAction::Preserve | SoftPinAction::Disable => {
                if request.soft_pin_ttl_ticks.is_some() {
                    return Err(ObjectCatalogConfigError::SoftPinTtlRequiresEnable);
                }
                0
            },
            SoftPinAction::Enable => {
                let ttl_ticks: u64 = match request.soft_pin_ttl_ticks {
                    Some(ticks) => ticks,
                    None => self.default_soft_pin_ttl_ticks,
                };
                if ttl_ticks > self.max_soft_pin_ttl_ticks {
                    return Err(
                        ObjectCatalogConfigError::SoftPinTtlExceedsMaximum {
                            soft_pin_ttl_ticks: ttl_ticks,
                            max_soft_pin_ttl_ticks: self.max_soft_pin_ttl_ticks,
                        },
                    );
                }
                ttl_ticks
            },
        };
        Ok(
            ResolvedObjectPinRequest {
                soft_pin: ResolvedSoftPinRequest { action: request.soft_pin_action, ttl_ticks },
                with_hard_pin: request.with_hard_pin,
            },
        )
    }
}

impl Default for ObjectCatalogConfig {
    fn default() -> (config: Self)
        ensures
            config == ObjectCatalogConfig::usual(DEFAULT_EXPECTED_OBJECTS),
            config.fault() is None,
    {
        Self::new(DEFAULT_EXPECTED_OBJECTS)
    }
}

/// A configuration is in order exactly where it expects objects, leases last and are
/// renewed within their time, writes have time and retired storage has room, and the
/// usual soft pin is no longer than the longest.
pub proof fn law_configurations_in_order(config: ObjectCatalogConfig)
    ensures
        config.fault() is None <==> config.expected_objects > 0 && config.lease_ttl_ticks > 0
            && config.lease_refresh_ticks <= config.lease_ttl_ticks
            && config.pending_timeout_ticks > 0 && config.max_retired_bytes > 0
            && config.default_soft_pin_ttl_ticks <= config.max_soft_pin_ttl_ticks,
        config.expected_objects == 0 ==> config.fault() == Some(
            ObjectCatalogConfigError::ZeroExpectedObjects,
        ),
        config.fault() == Some(ObjectCatalogConfigError::ZeroLeaseTtl) ==> config.lease_ttl_ticks
            == 0,
        config.fault() == Some(ObjectCatalogConfigError::ZeroPendingTimeout)
            ==> config.pending_timeout_ticks == 0,
        config.fault() == Some(ObjectCatalogConfigError::ZeroMaxRetiredBytes)
            ==> config.max_retired_bytes == 0,
{
}

/// What pins a write asks for come to. A time is taken only with a soft pin that is
/// enabled, and only up to the longest; without one the usual time is meant. A hard
/// pin is passed on as it is asked for.
pub proof fn law_pin_requests(config: ObjectCatalogConfig, request: ObjectPinRequest)
    ensures
        ({
            let result = config.resolved(request);
            let enabled = request.soft_pin_action == SoftPinAction::Enable;
            let given = request.soft_pin_ttl_ticks;
            &&& result is Ok ==> result->Ok_0.with_hard_pin == request.with_hard_pin
                && result->Ok_0.soft_pin.action == request.soft_pin_action
            &&& !enabled && given is Some ==> result is Err
            &&& !enabled && given is None ==> result is Ok && result->Ok_0.soft_pin.ttl_ticks == 0
            &&& enabled && given is Some ==> (result is Ok <==> given.unwrap()
                <= config.max_soft_pin_ttl_ticks)
            &&& enabled && given is Some && result is Ok ==> result->Ok_0.soft_pin.ttl_ticks
                == given.unwrap()
            &&& enabled && given is None && result is Ok ==> result->Ok_0.soft_pin.ttl_ticks
                == config.default_soft_pin_ttl_ticks
            &&& enabled && given is None && config.default_soft_pin_ttl_ticks
                <= config.max_soft_pin_ttl_ticks ==> result is Ok
        }),
{
}

} // verus!
