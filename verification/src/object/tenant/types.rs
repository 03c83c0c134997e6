//! Tenants, their policies and what goes wrong with them.

use super::super::error::ObjectManagerError;
use super::super::identity::NamespaceId;
use crate::segment::spec::ReplicaClass;
use vstd::prelude::*;

verus! {

/// External tenant identity. Its internal representation is deliberately
/// opaque so callers cannot depend on the namespace encoding.
#[derive(Debug, Eq, Hash, Ord, PartialEq, PartialOrd)]
pub struct TenantId {
    text: String,
}

/// Why a text names no tenant.
#[derive(Clone, Copy, Debug, Eq, PartialEq, Structural)]
pub enum TenantIdError {
    /// The tenant id must not be empty.
    Empty,
}

impl View for TenantId {
    type V = Seq<char>;

    closed spec fn view(&self) -> Seq<char> {
        self.text@
    }
}

impl TenantId {
    /// No tenant id is empty.
    #[verifier::type_invariant]
    spec fn is_named(self) -> bool {
        self.text@.len() > 0
    }

    pub fn new(value: String) -> (id: Result<Self, TenantIdError>)
        ensures
            id.is_ok() == (value@.len() > 0),
            id matches Ok(tenant) ==> tenant@ == value@,
            id matches Err(error) ==> error == TenantIdError::Empty,
    {
        if value.as_str().is_empty() {
            return Err(TenantIdError::Empty);
        }
        Ok(Self { text: value })
    }

    /// The text of the id, which is never empty.
    pub fn as_str(&self) -> (text: &str)
        ensures
            text@ == self@,
            text@.len() > 0,
    {
        proof {
            use_type_invariant(self);
        }
        self.text.as_str()
    }

    /// An id equal to this one.
    pub fn duplicate(&self) -> (copy: Self)
        ensures
            copy == *self,
    {
        proof {
            use_type_invariant(self);
        }
        Self { text: self.text.clone() }
    }
}

impl Clone for TenantId {
    fn clone(&self) -> (copy: Self)
        ensures
            copy == *self,
    {
        self.duplicate()
    }
}

/// A resource that tenants share.
#[derive(Clone, Copy, Debug, Eq, Hash, Ord, PartialEq, PartialOrd, Structural)]
pub enum TenantResourceClass {
    Memory,
    Nof,
}

impl TenantResourceClass {
    pub open spec fn of(replica_class: ReplicaClass) -> Option<TenantResourceClass> {
        match replica_class {
            ReplicaClass::Memory => Some(TenantResourceClass::Memory),
            ReplicaClass::Nof => Some(TenantResourceClass::Nof),
            ReplicaClass::LocalSsd => None,
        }
    }

    pub fn replica_class(self) -> (class: ReplicaClass)
        ensures
            TenantResourceClass::of(class) == Some(self),
    {
        match self {
            Self::Memory => ReplicaClass::Memory,
            Self::Nof => ReplicaClass::Nof,
        }
    }

    pub fn from_replica_class(replica_class: ReplicaClass) -> (class: Option<Self>)
        ensures
            class == TenantResourceClass::of(replica_class),
    {
        match replica_class {
            ReplicaClass::Memory => Some(Self::Memory),
            ReplicaClass::Nof => Some(Self::Nof),
            ReplicaClass::LocalSsd => None,
        }
    }
}

/// How much of each resource a tenant may use.
#[derive(Clone, Copy, Debug, Eq, PartialEq, Structural)]
pub struct TenantQuotaLimits {
    pub memory_bytes: u64,
    pub nof_bytes: u64,
}

impl Default for TenantQuotaLimits {
    fn default() -> (limits: Self)
        ensures
            limits == (TenantQuotaLimits { memory_bytes: 0, nof_bytes: 0 }),
    {
        Self { memory_bytes: 0, nof_bytes: 0 }
    }
}

impl TenantQuotaLimits {
    pub open spec fn limit(self, class: TenantResourceClass) -> u64 {
        match class {
            TenantResourceClass::Memory => self.memory_bytes,
            TenantResourceClass::Nof => self.nof_bytes,
        }
    }

    pub fn new(memory_bytes: u64, nof_bytes: u64) -> (limits: Self)
        ensures
            limits == (TenantQuotaLimits { memory_bytes, nof_bytes }),
    {
        Self { memory_bytes, nof_bytes }
    }

    pub fn memory_bytes(self) -> (bytes: u64)
        ensures
            bytes == self.memory_bytes,
    {
        self.memory_bytes
    }

    pub fn nof_bytes(self) -> (bytes: u64)
        ensures
            bytes == self.nof_bytes,
    {
        self.nof_bytes
    }

    pub fn for_class(self, class: TenantResourceClass) -> (bytes: u64)
        ensures
            bytes == self.limit(class),
    {
        match class {
            TenantResourceClass::Memory => self.memory_bytes,
            TenantResourceClass::Nof => self.nof_bytes,
        }
    }
}

/// What a tenant is promised.
#[derive(Clone, Copy, Debug, Eq, PartialEq, Structural)]
pub struct TenantPolicy {
    pub quota: TenantQuotaLimits,
}

impl Default for TenantPolicy {
    fn default() -> (policy: Self)
        ensures
            policy.quota == (TenantQuotaLimits { memory_bytes: 0, nof_bytes: 0 }),
    {
        Self { quota: TenantQuotaLimits::default() }
    }
}

impl TenantPolicy {
    pub fn new(quota: TenantQuotaLimits) -> (policy: Self)
        ensures
            policy.quota == quota,
    {
        Self { quota }
    }

    pub fn quota(self) -> (quota: TenantQuotaLimits)
        ensures
            quota == self.quota,
    {
        self.quota
    }
}

/// Which tenants there are at the start.
#[derive(Clone, Debug, Eq, PartialEq)]
pub enum TenantConfig {
    /// Compatibility mode: every external tenant ID maps to the default
    /// namespace and quota accounting is bypassed.
    Single,
    Multi { initial_policies: Vec<(TenantId, TenantPolicy)> },
}

impl Default for TenantConfig {
    fn default() -> (config: Self)
        ensures
            config is Single,
    {
        Self::Single
    }
}

impl TenantConfig {
    pub fn multi(initial_policies: Vec<(TenantId, TenantPolicy)>) -> (config: Self)
        ensures
            config == (TenantConfig::Multi { initial_policies }),
    {
        Self::Multi { initial_policies }
    }
}

/// A tenant's account of one resource at one moment.
#[derive(Clone, Copy, Debug, Eq, PartialEq, Structural)]
pub struct TenantQuotaSnapshot {
    pub requested_bytes: u64,
    pub effective_bytes: u64,
    pub demand_bytes: u64,
    pub reserved_bytes: u64,
    pub used_bytes: u64,
    pub retiring_bytes: u64,
}

/// A tenant at one moment.
#[derive(Clone, Debug, Eq, PartialEq)]
pub struct TenantSnapshot {
    pub id: TenantId,
    pub namespace: NamespaceId,
    pub generation: u64,
    pub policy: TenantPolicy,
    pub memory: TenantQuotaSnapshot,
    pub nof: TenantQuotaSnapshot,
}

/// Why tenants cannot be set up.
#[derive(Clone, Debug, Eq, PartialEq)]
pub enum TenantConfigError {
    /// A tenant appears more than once in the initial policy list.
    DuplicateTenant(TenantId),
    /// All namespaces have been given out.
    NamespaceExhausted,
}

/// Why a tenant was not changed.
#[derive(Clone, Copy, Debug, Eq, PartialEq, Structural)]
pub enum TenantAdminError {
    /// Tenant administration is unavailable in single-tenant mode.
    SingleTenantMode,
    /// The tenant is not registered.
    TenantNotRegistered,
    /// The tenant still has reserved, used, or retiring quota demand.
    TenantNotEmpty,
    /// All namespaces have been given out.
    NamespaceExhausted,
}

/// Why a tenant's object operation failed.
#[derive(Clone, Copy, Debug, Eq, PartialEq, Structural)]
pub enum TenantObjectError {
    /// The tenant is not registered.
    TenantNotRegistered,
    /// The resolved tenant belongs to another manager or generation.
    InvalidTenantHandle,
    /// The tenant's quota is exceeded.
    TenantQuotaExceeded {
        class: TenantResourceClass,
        requested_bytes: u64,
        demand_bytes: u64,
        effective_bytes: u64,
    },
    /// The object operation itself failed.
    Object(ObjectManagerError),
}

} // verus!
