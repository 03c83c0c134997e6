//! Errors returned by object-catalog operations.

use super::reclamation::CatalogTick;
use super::replica::ReplicaId;
use crate::segment::error::ReserveError;
use crate::segment::placement::PlacementError;
use crate::segment::spec::ReplicaClass;
use vstd::prelude::*;

verus! {

/// Why a catalog cannot be made or a pin request cannot be met.
#[derive(Clone, Copy, Debug, Eq, PartialEq, Structural)]
#[allow(inconsistent_fields)]
pub enum ObjectCatalogConfigError {
    /// The number of expected objects must be greater than zero.
    ZeroExpectedObjects,
    /// The lease lifetime must be greater than zero.
    ZeroLeaseTtl,
    /// The lease refresh must not exceed the lease lifetime.
    LeaseRefreshExceedsTtl { lease_ttl_ticks: u64, lease_refresh_ticks: u64 },
    /// The pending timeout must be greater than zero.
    ZeroPendingTimeout,
    /// The retired-bytes limit must be greater than zero.
    ZeroMaxRetiredBytes,
    /// The default soft-pin lifetime must not exceed the maximum.
    DefaultSoftPinTtlExceedsMaximum {
        default_soft_pin_ttl_ticks: u64,
        max_soft_pin_ttl_ticks: u64,
    },
    /// A soft-pin lifetime is only valid with the enable action.
    SoftPinTtlRequiresEnable,
    /// The soft-pin lifetime exceeds the configured maximum.
    SoftPinTtlExceedsMaximum { soft_pin_ttl_ticks: u64, max_soft_pin_ttl_ticks: u64 },
}

/// Why a write was not begun.
#[derive(Clone, Copy, Debug, Eq, PartialEq, Structural)]
pub enum BeginError {
    /// The object key must not be empty.
    EmptyKey,
    /// The object pin request is invalid.
    InvalidPinRequest(ObjectCatalogConfigError),
    /// The object already exists.
    AlreadyExists,
    /// An object write is already in progress.
    WriteInProgress,
    /// The reclamation backlog limit has been reached.
    ReclamationBacklog,
    /// The catalog has given out all numbers of slots or of the slot's writes.
    IdentifiersExhausted,
}

/// Why a claimed write was not staged.
#[derive(Clone, Copy, Debug, Eq, PartialEq, Structural)]
pub enum StageError {
    /// The catalog in which the write was claimed is not the one at hand.
    CatalogDropped,
    /// The object write claim was lost.
    ClaimLost,
    /// The client session that owns the write is no longer active.
    OwnerInactive,
    /// The object content size must not be zero.
    ZeroSize,
    /// An object must have at least one replica.
    NoReplicas,
    /// A replica does not hold the object's data.
    ReplicaTooSmall { replica: ReplicaId, required_bytes: u64, capacity_bytes: u64 },
    /// A replica belongs to an invalidated segment.
    ReplicaInvalidated { replica: ReplicaId },
}

/// Why a write was not committed.
#[derive(Clone, Copy, Debug, Eq, PartialEq, Structural)]
pub enum CommitError {
    /// The write transaction belongs to another object catalog.
    ForeignCatalog,
    /// The write transaction no longer exists.
    TransactionGone,
    /// The write transaction is not staged.
    NotStaged,
    /// The commit metadata conflicts with what was committed.
    CommitConflict,
    /// One or more replicas belong to an invalidated segment.
    ReplicasInvalidated,
}

/// Why a write was not aborted.
#[derive(Clone, Copy, Debug, Eq, PartialEq, Structural)]
pub enum AbortError {
    /// The write transaction belongs to another object catalog.
    ForeignCatalog,
    /// The write transaction no longer exists.
    TransactionGone,
    /// The write transaction has already committed.
    AlreadyCommitted,
}

/// Why an object was not read.
#[derive(Clone, Copy, Debug, Eq, PartialEq, Structural)]
pub enum LookupError {
    /// The object was not found.
    NotFound,
    /// The object is not ready.
    NotReady,
}

/// Why an object was not removed from the catalog.
#[derive(Clone, Copy, Debug, Eq, PartialEq, Structural)]
pub enum RemoveError {
    /// The object was not found.
    NotFound,
    /// The object is not ready.
    NotReady,
    /// The object is leased.
    Leased { expires_at: CatalogTick },
    /// The object is hard-pinned.
    HardPinned,
}

/// Why an object was not removed.
#[derive(Clone, Copy, Debug, Eq, PartialEq, Structural)]
pub enum ObjectRemoveError {
    /// The object was not found.
    NotFound,
    /// The object is not ready.
    NotReady,
    /// The object is leased.
    Leased { expires_at: CatalogTick },
    /// The object is hard-pinned.
    HardPinned,
}

impl vstd::std_specs::convert::FromSpecImpl<RemoveError> for ObjectRemoveError {
    open spec fn obeys_from_spec() -> bool {
        true
    }

    open spec fn from_spec(error: RemoveError) -> Self {
        match error {
            RemoveError::NotFound => ObjectRemoveError::NotFound,
            RemoveError::NotReady => ObjectRemoveError::NotReady,
            RemoveError::Leased { expires_at } => ObjectRemoveError::Leased { expires_at },
            RemoveError::HardPinned => ObjectRemoveError::HardPinned,
        }
    }
}

impl From<RemoveError> for ObjectRemoveError {
    fn from(error: RemoveError) -> Self {
        match error {
            RemoveError::NotFound => Self::NotFound,
            RemoveError::NotReady => Self::NotReady,
            RemoveError::Leased { expires_at } => Self::Leased { expires_at },
            RemoveError::HardPinned => Self::HardPinned,
        }
    }
}

/// Why a managed object operation failed.
#[derive(Clone, Copy, Debug, Eq, PartialEq, Structural)]
pub enum ObjectManagerError {
    /// The object put plan is invalid.
    InvalidPlan,
    /// The object already exists or has a write in progress.
    AlreadyExists,
    /// No suitable replicas are available.
    NoAvailableReplicas,
    /// The object or pending write was not found.
    NotFound,
    /// The pending write belongs to another owner.
    IllegalOwner,
    /// The pending write uses replicas of another class.
    ReplicaClassMismatch { requested: ReplicaClass, actual: ReplicaClass },
    /// The object write is no longer valid.
    InvalidWrite,
    /// An invariant of the object manager failed.
    Internal,
}

impl vstd::std_specs::convert::FromSpecImpl<BeginError> for ObjectManagerError {
    open spec fn obeys_from_spec() -> bool {
        true
    }

    open spec fn from_spec(error: BeginError) -> Self {
        match error {
            BeginError::EmptyKey => ObjectManagerError::InvalidPlan,
            BeginError::InvalidPinRequest(_) => ObjectManagerError::InvalidPlan,
            BeginError::AlreadyExists => ObjectManagerError::AlreadyExists,
            BeginError::WriteInProgress => ObjectManagerError::AlreadyExists,
            BeginError::ReclamationBacklog => ObjectManagerError::NoAvailableReplicas,
            BeginError::IdentifiersExhausted => ObjectManagerError::Internal,
        }
    }
}

impl From<BeginError> for ObjectManagerError {
    fn from(error: BeginError) -> Self {
        match error {
            BeginError::EmptyKey => Self::InvalidPlan,
            BeginError::InvalidPinRequest(_) => Self::InvalidPlan,
            BeginError::AlreadyExists => Self::AlreadyExists,
            BeginError::WriteInProgress => Self::AlreadyExists,
            BeginError::ReclamationBacklog => Self::NoAvailableReplicas,
            BeginError::IdentifiersExhausted => Self::Internal,
        }
    }
}

impl vstd::std_specs::convert::FromSpecImpl<PlacementError> for ObjectManagerError {
    open spec fn obeys_from_spec() -> bool {
        true
    }

    open spec fn from_spec(error: PlacementError) -> Self {
        match error {
            PlacementError::ZeroSize => ObjectManagerError::InvalidPlan,
            PlacementError::ZeroReplicas => ObjectManagerError::InvalidPlan,
            PlacementError::InsufficientReplicas {
                requested,
                allocated,
            } => ObjectManagerError::NoAvailableReplicas,
            PlacementError::Reserve(fault) => match fault {
                ReserveError::ZeroSize => ObjectManagerError::InvalidPlan,
                ReserveError::NotAccepting(_) => ObjectManagerError::NoAvailableReplicas,
                ReserveError::OutOfSpace(_) => ObjectManagerError::NoAvailableReplicas,
                ReserveError::NotFound(_) => ObjectManagerError::NoAvailableReplicas,
                ReserveError::ForeignCandidate => ObjectManagerError::Internal,
                ReserveError::NotDirectlyAllocatable(_) => ObjectManagerError::Internal,
                ReserveError::AddressOverflow(_) => ObjectManagerError::Internal,
            },
        }
    }
}

impl From<PlacementError> for ObjectManagerError {
    fn from(error: PlacementError) -> Self {
        match error {
            PlacementError::ZeroSize => Self::InvalidPlan,
            PlacementError::ZeroReplicas => Self::InvalidPlan,
            PlacementError::InsufficientReplicas {
                requested: _,
                allocated: _,
            } => Self::NoAvailableReplicas,
            PlacementError::Reserve(fault) => match fault {
                ReserveError::ZeroSize => Self::InvalidPlan,
                ReserveError::NotAccepting(_) => Self::NoAvailableReplicas,
                ReserveError::OutOfSpace(_) => Self::NoAvailableReplicas,
                ReserveError::NotFound(_) => Self::NoAvailableReplicas,
                ReserveError::ForeignCandidate => Self::Internal,
                ReserveError::NotDirectlyAllocatable(_) => Self::Internal,
                ReserveError::AddressOverflow(_) => Self::Internal,
            },
        }
    }
}

impl vstd::std_specs::convert::FromSpecImpl<StageError> for ObjectManagerError {
    open spec fn obeys_from_spec() -> bool {
        true
    }

    open spec fn from_spec(error: StageError) -> Self {
        match error {
            StageError::ZeroSize => ObjectManagerError::InvalidPlan,
            StageError::NoReplicas => ObjectManagerError::NoAvailableReplicas,
            StageError::ReplicaInvalidated { replica } => ObjectManagerError::NoAvailableReplicas,
            StageError::CatalogDropped => ObjectManagerError::Internal,
            StageError::ClaimLost => ObjectManagerError::Internal,
            StageError::ReplicaTooSmall {
                replica,
                required_bytes,
                capacity_bytes,
            } => ObjectManagerError::Internal,
            StageError::OwnerInactive => ObjectManagerError::InvalidWrite,
        }
    }
}

impl From<StageError> for ObjectManagerError {
    fn from(error: StageError) -> Self {
        match error {
            StageError::ZeroSize => Self::InvalidPlan,
            StageError::NoReplicas => Self::NoAvailableReplicas,
            StageError::ReplicaInvalidated { replica: _ } => Self::NoAvailableReplicas,
            StageError::CatalogDropped => Self::Internal,
            StageError::ClaimLost => Self::Internal,
            StageError::ReplicaTooSmall {
                replica: _,
                required_bytes: _,
                capacity_bytes: _,
            } => Self::Internal,
            StageError::OwnerInactive => Self::InvalidWrite,
        }
    }
}

} // verus!
