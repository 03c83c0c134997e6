//! Errors returned by client lifecycle operations.

use super::lifecycle::ClientState;
use vstd::prelude::*;

verus! {

/// Why a registry cannot be made.
#[derive(Clone, Copy, Debug, Eq, PartialEq, Structural)]
pub enum ClientLifecycleConfigError {
    /// The time to live must be greater than zero.
    ZeroTtl,
    /// The number of clients must be greater than zero.
    ZeroMaxClients,
    /// The cleanup scan budget must be greater than zero.
    ZeroCleanupScanBudget,
}

/// Why a session was not changed.
#[derive(Clone, Copy, Debug, Eq, PartialEq, Structural)]
pub enum ClientLifecycleError {
    /// The client id must not be nil.
    NilClientId,
    /// The registry holds as many clients as it may.
    CapacityExceeded { max_clients: usize },
    /// The client's cleanup is already in progress.
    CleanupInProgress { state: ClientState },
    /// The client does not have an active session.
    ClientNotActive,
    /// The client's cleanup has not been started.
    CleanupNotStarted,
    /// The client's session is of another generation.
    StaleSession,
    /// All session generations have been given out.
    GenerationExhausted,
}

} // verus!
