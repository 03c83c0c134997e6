//! The tenants' accounts that a catalog keeps.

use super::super::tenant::quota::{
    reservation_released, with_account, QuotaReservationGuard, TenantAccounts,
};
use super::super::tenant::types::{TenantObjectError, TenantResourceClass};
use super::state::CatalogView;
use super::upkeep::lemma_same_core;
use super::ObjectCatalog;
use vstd::prelude::*;

verus! {

impl CatalogView {
    /// The catalog with another set of accounts for a tenant.
    pub open spec fn with_tenant(self, tenant: u64, accounts: TenantAccounts) -> CatalogView {
        CatalogView { accounts: self.accounts.insert(tenant, accounts), ..self }
    }

    /// The catalog after `bytes` more were admitted for a tenant.
    pub open spec fn admitted(
        self,
        tenant: u64,
        class: TenantResourceClass,
        bytes: u64,
    ) -> CatalogView {
        CatalogView {
            accounts: with_account(
                self.accounts,
                tenant,
                class,
                self.accounts[tenant].of(class).admitted(bytes),
            ),
            ..self
        }
    }

    /// The catalog after a reservation was given back.
    pub open spec fn given_back(
        self,
        tenant: u64,
        class: TenantResourceClass,
        bytes: u64,
    ) -> CatalogView {
        CatalogView {
            accounts: reservation_released(self.accounts, tenant, class, bytes),
            ..self
        }
    }

    /// What changing the size of a reservation comes to.
    pub open spec fn resize_result(self, guard: QuotaReservationGuard, bytes: u64) -> Result<
        (),
        TenantObjectError,
    > {
        let account = self.accounts[guard.tenant].of(guard.class);
        let additional = (bytes - guard.bytes) as u64;
        if bytes <= guard.bytes || account.admits(additional) {
            Ok(())
        } else {
            Err(account.refusal(guard.class, additional))
        }
    }

    /// The catalog after the size of a reservation was changed.
    pub open spec fn resized(self, guard: QuotaReservationGuard, bytes: u64) -> CatalogView {
        if bytes <= guard.bytes {
            self.given_back(guard.tenant, guard.class, (guard.bytes - bytes) as u64)
        } else if self.resize_result(guard, bytes) is Ok {
            self.admitted(guard.tenant, guard.class, (bytes - guard.bytes) as u64)
        } else {
            self
        }
    }
}

impl ObjectCatalog {
    /// The accounts of a tenant.
    pub fn tenant_accounts(&self, tenant: u64) -> (accounts: TenantAccounts)
        ensures
            accounts == self@.accounts[tenant],
    {
        self.ledger.accounts(tenant)
    }

    pub(in crate::object) fn set_tenant_accounts(&mut self, tenant: u64, accounts: TenantAccounts)
        requires
            old(self).wf(),
        ensures
            final(self).wf(),
            final(self)@ == old(self)@.with_tenant(tenant, accounts),
    {
        let ghost before = self@;
        self.ledger.set_accounts(tenant, accounts);
        proof {
            lemma_same_core(before, self@);
        }
    }

    /// Admits `bytes` more for a tenant.
    pub(in crate::object) fn reserve_quota(
        &mut self,
        tenant: u64,
        class: TenantResourceClass,
        bytes: u64,
    ) -> (reserved: Result<QuotaReservationGuard, TenantObjectError>)
        requires
            old(self).wf(),
        ensures
            final(self).wf(),
            ({
                let account = old(self)@.accounts[tenant].of(class);
                match reserved {
                    Ok(guard) => {
                        &&& account.admits(bytes)
                        &&& guard == (QuotaReservationGuard { tenant, class, bytes })
                        &&& final(self)@ == old(self)@.admitted(tenant, class, bytes)
                    },
                    Err(error) => {
                        &&& !account.admits(bytes)
                        &&& error == account.refusal(class, bytes)
                        &&& final(self)@ == old(self)@
                    },
                }
            }),
    {
        let ghost before = self@;
        let reserved = self.ledger.reserve(tenant, class, bytes);
        proof {
            lemma_same_core(before, self@);
        }
        reserved
    }

    /// Changes how much is reserved.
    pub(in crate::object) fn resize_quota(&mut self, guard: &mut QuotaReservationGuard, bytes: u64) -> (done: Result<
        (),
        TenantObjectError,
    >)
        requires
            old(self).wf(),
        ensures
            final(self).wf(),
            done == old(self)@.resize_result(*old(guard), bytes),
            final(self)@ == old(self)@.resized(*old(guard), bytes),
            *final(guard) == (QuotaReservationGuard {
                bytes: if done is Ok {
                    bytes
                } else {
                    old(guard).bytes
                },
                ..*old(guard)
            }),
    {
        let ghost before = self@;
        let done = guard.resize(&mut self.ledger, bytes);
        proof {
            lemma_same_core(before, self@);
            if let Ok(unit) = done {
                assert(unit == ());
            }
        }
        done
    }

    /// Rolls an admission back.
    pub(in crate::object) fn release_quota(&mut self, guard: QuotaReservationGuard)
        requires
            old(self).wf(),
        ensures
            final(self).wf(),
            final(self)@ == old(self)@.given_back(guard.tenant, guard.class, guard.bytes),
    {
        let ghost before = self@;
        guard.release(&mut self.ledger);
        proof {
            lemma_same_core(before, self@);
        }
    }
}

} // verus!
