//! Client-registry TTL, capacity, and cleanup-scan configuration.

use super::error::ClientLifecycleConfigError;
use vstd::prelude::*;

verus! {

/// Complete configuration for a client registry.
#[derive(Clone, Copy, Debug, Eq, PartialEq, Structural)]
pub struct ClientLifecycleConfig {
    pub ttl_ticks: u64,
    pub max_clients: usize,
    pub cleanup_scan_budget: usize,
}

impl ClientLifecycleConfig {
    /// The first thing that is wrong with a configuration.
    pub open spec fn fault(self) -> Option<ClientLifecycleConfigError> {
        if self.ttl_ticks == 0 {
            Some(ClientLifecycleConfigError::ZeroTtl)
        } else if self.max_clients == 0 {
            Some(ClientLifecycleConfigError::ZeroMaxClients)
        } else if self.cleanup_scan_budget == 0 {
            Some(ClientLifecycleConfigError::ZeroCleanupScanBudget)
        } else {
            None
        }
    }

    pub fn new(max_clients: usize) -> (config: Self)
        ensures
            config == (ClientLifecycleConfig {
                ttl_ticks: 10_000,
                max_clients,
                cleanup_scan_budget: 256,
            }),
    {
        Self { ttl_ticks: 10_000, max_clients, cleanup_scan_budget: 256 }
    }

    pub fn with_ttl(self, ttl_ticks: u64) -> (config: Self)
        ensures
            config == (ClientLifecycleConfig { ttl_ticks, ..self }),
    {
        Self { ttl_ticks, ..self }
    }

    pub fn with_cleanup_scan_budget(self, cleanup_scan_budget: usize) -> (config: Self)
        ensures
            config == (ClientLifecycleConfig { cleanup_scan_budget, ..self }),
    {
        Self { cleanup_scan_budget, ..self }
    }

    pub fn ttl_ticks(self) -> (ticks: u64)
        ensures
            ticks == self.ttl_ticks,
    {
        self.ttl_ticks
    }

    pub fn max_clients(self) -> (clients: usize)
        ensures
            clients == self.max_clients,
    {
        self.max_clients
    }

    pub fn cleanup_scan_budget(self) -> (budget: usize)
        ensures
            budget == self.cleanup_scan_budget,
    {
        self.cleanup_scan_budget
    }

    pub fn validate(self) -> (checked: Result<(), ClientLifecycleConfigError>)
        ensures
            checked == match self.fault() {
                Some(fault) => Err::<(), ClientLifecycleConfigError>(fault),
                None => Ok(()),
            },
    {
        if self.ttl_ticks == 0 {
            return Err(ClientLifecycleConfigError::ZeroTtl);
        }
        if self.max_clients == 0 {
            return Err(ClientLifecycleConfigError::ZeroMaxClients);
        }
        if self.cleanup_scan_budget == 0 {
            return Err(ClientLifecycleConfigError::ZeroCleanupScanBudget);
        }
        Ok(())
    }
}

impl Default for ClientLifecycleConfig {
    fn default() -> (config: Self)
        ensures
            config == (ClientLifecycleConfig {
                ttl_ticks: 10_000,
                max_clients: 65_536,
                cleanup_scan_budget: 256,
            }),
    {
        Self::new(65_536)
    }
}

/// A configuration is in order exactly where leases last, clients are allowed and
/// rounds have a budget.
pub proof fn law_configurations_in_order(config: ClientLifecycleConfig)
    ensures
        config.fault() is None <==> config.ttl_ticks > 0 && config.max_clients > 0
            && config.cleanup_scan_budget > 0,
        config.ttl_ticks == 0 ==> config.fault() == Some(ClientLifecycleConfigError::ZeroTtl),
        config.fault() == Some(ClientLifecycleConfigError::ZeroMaxClients) ==> config.max_clients
            == 0,
        config.fault() == Some(ClientLifecycleConfigError::ZeroCleanupScanBudget)
            ==> config.cleanup_scan_budget == 0,
{
}

} // verus!
