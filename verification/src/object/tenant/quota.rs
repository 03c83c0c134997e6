//! Accounts of what tenants ask for, hold and are promised.

use super::types::{TenantObjectError, TenantQuotaLimits, TenantQuotaSnapshot, TenantResourceClass};
use std::collections::HashMap;
use vstd::prelude::*;

verus! {

/// A difference that stops at zero.
pub open spec fn less(value: u64, amount: u64) -> u64 {
    if value < amount {
        0
    } else {
        (value - amount) as u64
    }
}

/// A sum that wraps around.
pub open spec fn wrapped_sum(value: u64, amount: u64) -> u64 {
    if value + amount > u64::MAX {
        (value + amount - 0x1_0000_0000_0000_0000) as u64
    } else {
        (value + amount) as u64
    }
}

/// One tenant's account of one resource.
#[derive(Clone, Copy, Debug, Eq, PartialEq, Structural)]
pub struct QuotaAccount {
    /// What the policy asks for.
    pub requested: u64,
    /// What the capacity allows of it.
    pub effective: u64,
    /// What is admitted: reserved, used or retiring.
    pub demand: u64,
    /// What committed objects take.
    pub used: u64,
    /// What retired objects take until they are reclaimed.
    pub retiring: u64,
}

/// Where the charge of one object stands.
#[derive(Clone, Copy, Debug, Eq, PartialEq, Structural)]
pub enum ChargePhase {
    Reserved,
    Committed,
    Retiring,
    Released,
}

/// What happens to the charge of one object.
#[derive(Clone, Copy, Debug, Eq, PartialEq, Structural)]
pub enum ChargeStep {
    Commit,
    Abort,
    Retire,
    Release,
}

impl ChargePhase {
    /// The phase after a step.
    pub open spec fn after(step: ChargeStep) -> ChargePhase {
        match step {
            ChargeStep::Commit => ChargePhase::Committed,
            ChargeStep::Abort => ChargePhase::Released,
            ChargeStep::Retire => ChargePhase::Retiring,
            ChargeStep::Release => ChargePhase::Released,
        }
    }
}

impl QuotaAccount {
    /// An account on which nothing was admitted yet.
    pub open spec fn opened(requested: u64) -> QuotaAccount {
        QuotaAccount { requested, effective: 0, demand: 0, used: 0, retiring: 0 }
    }

    /// Whether `bytes` more are admitted.
    pub open spec fn admits(self, bytes: u64) -> bool {
        self.demand + bytes <= self.effective
    }

    /// Why `bytes` more are not admitted.
    pub open spec fn refusal(self, class: TenantResourceClass, bytes: u64) -> TenantObjectError {
        TenantObjectError::TenantQuotaExceeded {
            class,
            requested_bytes: bytes,
            demand_bytes: self.demand,
            effective_bytes: self.effective,
        }
    }

    /// The account after `bytes` more were admitted.
    pub open spec fn admitted(self, bytes: u64) -> QuotaAccount {
        QuotaAccount { demand: (self.demand + bytes) as u64, ..self }
    }

    /// The account after `bytes` that were only reserved were given back.
    pub open spec fn unreserved(self, bytes: u64) -> QuotaAccount {
        QuotaAccount { demand: less(self.demand, bytes), ..self }
    }

    /// The account after `bytes` of a committed object were given back.
    pub open spec fn shrunk(self, bytes: u64) -> QuotaAccount {
        QuotaAccount { used: less(self.used, bytes), demand: less(self.demand, bytes), ..self }
    }

    /// The account after a step of an object's charge.
    pub open spec fn stepped(self, phase: ChargePhase, step: ChargeStep, bytes: u64) -> QuotaAccount {
        match step {
            ChargeStep::Commit => QuotaAccount { used: wrapped_sum(self.used, bytes), ..self },
            ChargeStep::Abort => self.unreserved(bytes),
            ChargeStep::Retire => QuotaAccount {
                retiring: wrapped_sum(self.retiring, bytes),
                ..self
            },
            ChargeStep::Release => match phase {
                ChargePhase::Reserved => self.unreserved(bytes),
                ChargePhase::Committed => self.shrunk(bytes),
                ChargePhase::Retiring => QuotaAccount {
                    used: less(self.used, bytes),
                    retiring: less(self.retiring, bytes),
                    demand: less(self.demand, bytes),
                    ..self
                },
                ChargePhase::Released => self,
            },
        }
    }

    /// What a snapshot of the account shows.
    pub open spec fn shown(self) -> TenantQuotaSnapshot {
        TenantQuotaSnapshot {
            requested_bytes: self.requested,
            effective_bytes: self.effective,
            demand_bytes: self.demand,
            reserved_bytes: less(self.demand, self.used),
            used_bytes: self.used,
            retiring_bytes: self.retiring,
        }
    }

    pub fn new(requested: u64) -> (account: Self)
        ensures
            account == QuotaAccount::opened(requested),
    {
        Self { requested, effective: 0, demand: 0, used: 0, retiring: 0 }
    }

    /// Admits `bytes` more, if the effective quota allows it.
    pub fn reserve_demand(&mut self, class: TenantResourceClass, bytes: u64) -> (done: Result<
        (),
        TenantObjectError,
    >)
        ensures
            done.is_ok() == old(self).admits(bytes),
            done matches Err(error) ==> error == old(self).refusal(class, bytes) && *final(self)
                == *old(self),
            done is Ok ==> *final(self) == old(self).admitted(bytes),
    {
        let refused = TenantObjectError::TenantQuotaExceeded {
            class,
            requested_bytes: bytes,
            demand_bytes: self.demand,
            effective_bytes: self.effective,
        };
        match self.demand.checked_add(bytes) {
            None => Err(refused),
            Some(next) => {
                if next > self.effective {
                    Err(refused)
                } else {
                    self.demand = next;
                    Ok(())
                }
            },
        }
    }

    pub fn release_reserved(&mut self, bytes: u64)
        ensures
            *final(self) == old(self).unreserved(bytes),
    {
        self.demand = self.demand.saturating_sub(bytes);
    }

    /// Gives back `bytes` of a committed object that keeps the rest.
    pub fn release_committed_partial(&mut self, bytes: u64)
        ensures
            *final(self) == old(self).shrunk(bytes),
    {
        self.used = self.used.saturating_sub(bytes);
        self.demand = self.demand.saturating_sub(bytes);
    }

    /// Takes a step of an object's charge.
    pub fn take_step(&mut self, phase: ChargePhase, step: ChargeStep, bytes: u64)
        ensures
            *final(self) == old(self).stepped(phase, step, bytes),
    {
        match step {
            ChargeStep::Commit => {
                self.used = self.used.wrapping_add(bytes);
            },
            ChargeStep::Abort => {
                self.release_reserved(bytes);
            },
            ChargeStep::Retire => {
                self.retiring = self.retiring.wrapping_add(bytes);
            },
            ChargeStep::Release => match phase {
                ChargePhase::Reserved => {
                    self.release_reserved(bytes);
                },
                ChargePhase::Committed => {
                    self.release_committed_partial(bytes);
                },
                ChargePhase::Retiring => {
                    self.used = self.used.saturating_sub(bytes);
                    self.retiring = self.retiring.saturating_sub(bytes);
                    self.demand = self.demand.saturating_sub(bytes);
                },
                ChargePhase::Released => {},
            },
        }
    }

    pub fn snapshot(&self) -> (snapshot: TenantQuotaSnapshot)
        ensures
            snapshot == self.shown(),
    {
        TenantQuotaSnapshot {
            requested_bytes: self.requested,
            effective_bytes: self.effective,
            demand_bytes: self.demand,
            reserved_bytes: self.demand.saturating_sub(self.used),
            used_bytes: self.used,
            retiring_bytes: self.retiring,
        }
    }
}

/// One tenant's accounts.
#[derive(Clone, Copy, Debug, Eq, PartialEq, Structural)]
pub struct TenantAccounts {
    pub memory: QuotaAccount,
    pub nof: QuotaAccount,
}

impl TenantAccounts {
    pub open spec fn of(self, class: TenantResourceClass) -> QuotaAccount {
        match class {
            TenantResourceClass::Memory => self.memory,
            TenantResourceClass::Nof => self.nof,
        }
    }

    pub open spec fn with(self, class: TenantResourceClass, account: QuotaAccount) -> TenantAccounts {
        match class {
            TenantResourceClass::Memory => TenantAccounts { memory: account, ..self },
            TenantResourceClass::Nof => TenantAccounts { nof: account, ..self },
        }
    }

    /// Whether nothing is admitted.
    pub open spec fn idle(self) -> bool {
        self.memory.demand == 0 && self.nof.demand == 0
    }

    pub open spec fn opened(limits: TenantQuotaLimits) -> TenantAccounts {
        TenantAccounts {
            memory: QuotaAccount::opened(limits.memory_bytes),
            nof: QuotaAccount::opened(limits.nof_bytes),
        }
    }

    pub fn new(limits: TenantQuotaLimits) -> (accounts: Self)
        ensures
            accounts == TenantAccounts::opened(limits),
    {
        Self {
            memory: QuotaAccount::new(limits.memory_bytes),
            nof: QuotaAccount::new(limits.nof_bytes),
        }
    }

    pub fn account(&self, class: TenantResourceClass) -> (account: QuotaAccount)
        ensures
            account == self.of(class),
    {
        match class {
            TenantResourceClass::Memory => self.memory,
            TenantResourceClass::Nof => self.nof,
        }
    }

    pub fn set_account(&mut self, class: TenantResourceClass, account: QuotaAccount)
        ensures
            *final(self) == old(self).with(class, account),
    {
        match class {
            TenantResourceClass::Memory => {
                self.memory = account;
            },
            TenantResourceClass::Nof => {
                self.nof = account;
            },
        }
    }

    pub fn is_empty(&self) -> (empty: bool)
        ensures
            empty == self.idle(),
    {
        self.memory.demand == 0 && self.nof.demand == 0
    }
}

/// The accounts of all tenants by namespace. Those that were not opened are
/// empty.
pub struct QuotaLedger {
    accounts: HashMap<u64, TenantAccounts>,
}

/// The accounts of all tenants by namespace.
pub type Accounts = Map<u64, TenantAccounts>;

/// The accounts of a namespace that asks for nothing and holds nothing.
pub open spec fn blank() -> TenantAccounts {
    TenantAccounts { memory: QuotaAccount::opened(0), nof: QuotaAccount::opened(0) }
}

/// A ledger in which no account was opened.
pub open spec fn no_accounts() -> Accounts {
    Map::new(|tenant: u64| true, |tenant: u64| blank())
}

/// The accounts after one account of a tenant was changed.
pub open spec fn with_account(
    accounts: Accounts,
    tenant: u64,
    class: TenantResourceClass,
    account: QuotaAccount,
) -> Accounts {
    accounts.insert(tenant, accounts[tenant].with(class, account))
}

impl View for QuotaLedger {
    type V = Accounts;

    closed spec fn view(&self) -> Accounts {
        Map::new(
            |tenant: u64| true,
            |tenant: u64|
                if self.accounts@.contains_key(tenant) {
                    self.accounts@[tenant]
                } else {
                    blank()
                },
        )
    }
}

impl QuotaLedger {
    pub fn new() -> (ledger: Self)
        ensures
            ledger@ == no_accounts(),
    {
        let ledger = Self { accounts: HashMap::new() };
        assert(ledger@ =~= no_accounts());
        ledger
    }

    pub fn accounts(&self, tenant: u64) -> (accounts: TenantAccounts)
        ensures
            accounts == self@[tenant],
    {
        broadcast use vstd::std_specs::hash::group_hash_axioms;

        match self.accounts.get(&tenant) {
            Some(accounts) => *accounts,
            None => TenantAccounts::new(TenantQuotaLimits::default()),
        }
    }

    /// Opens or replaces the accounts of a tenant.
    pub fn set_accounts(&mut self, tenant: u64, accounts: TenantAccounts)
        ensures
            final(self)@ == old(self)@.insert(tenant, accounts),
    {
        broadcast use vstd::std_specs::hash::group_hash_axioms;

        let ghost before = self@;
        self.accounts.insert(tenant, accounts);
        assert(self@ =~= before.insert(tenant, accounts));
    }

    /// Replaces one account of a tenant.
    fn set_account(&mut self, tenant: u64, class: TenantResourceClass, account: QuotaAccount)
        ensures
            final(self)@ == with_account(old(self)@, tenant, class, account),
    {
        let mut accounts = self.accounts(tenant);
        accounts.set_account(class, account);
        self.set_accounts(tenant, accounts);
    }

    /// Admits `bytes` more for a tenant.
    pub fn reserve(&mut self, tenant: u64, class: TenantResourceClass, bytes: u64) -> (reserved: Result<
        QuotaReservationGuard,
        TenantObjectError,
    >)
        ensures
            reserved.is_ok() == old(self)@[tenant].of(class).admits(bytes),
            reserved matches Err(error) ==> error == old(self)@[tenant].of(class).refusal(
                class,
                bytes,
            ) && final(self)@ == old(self)@,
            reserved matches Ok(guard) ==> {
                &&& guard == (QuotaReservationGuard { tenant, class, bytes })
                &&& final(self)@ == with_account(
                    old(self)@,
                    tenant,
                    class,
                    old(self)@[tenant].of(class).admitted(bytes),
                )
            },
    {
        let mut account = self.accounts(tenant).account(class);
        match account.reserve_demand(class, bytes) {
            Err(error) => Err(error),
            Ok(()) => {
                self.set_account(tenant, class, account);
                Ok(QuotaReservationGuard { tenant, class, bytes })
            },
        }
    }

    /// Takes a step of an object's charge.
    pub fn take_step(
        &mut self,
        charge: TenantQuotaCharge,
        class: TenantResourceClass,
        step: ChargeStep,
        bytes: u64,
    ) -> (next: TenantQuotaCharge)
        ensures
            next == charge.after(step),
            final(self)@ == charge_stepped(old(self)@, charge, class, step, bytes),
    {
        let mut account = self.accounts(charge.tenant).account(class);
        account.take_step(charge.phase, step, bytes);
        self.set_account(charge.tenant, class, account);
        let phase = match step {
            ChargeStep::Commit => ChargePhase::Committed,
            ChargeStep::Abort => ChargePhase::Released,
            ChargeStep::Retire => ChargePhase::Retiring,
            ChargeStep::Release => ChargePhase::Released,
        };
        TenantQuotaCharge { phase, ..charge }
    }

    /// Gives back `bytes` of a committed object that keeps the rest.
    pub fn release_committed_partial(
        &mut self,
        charge: TenantQuotaCharge,
        class: TenantResourceClass,
        bytes: u64,
    )
        ensures
            final(self)@ == charge_shrunk(old(self)@, charge, class, bytes),
    {
        let mut account = self.accounts(charge.tenant).account(class);
        account.release_committed_partial(bytes);
        self.set_account(charge.tenant, class, account);
    }
}

/// Temporary quota reservation made before replica placement. Successful staging
/// turns it into a [`TenantQuotaCharge`]; otherwise it is given back with
/// [`QuotaReservationGuard::release`].
#[derive(Debug)]
pub struct QuotaReservationGuard {
    pub tenant: u64,
    pub class: TenantResourceClass,
    pub bytes: u64,
}

/// Accounting token stored with an object record.
#[derive(Clone, Copy, Debug, Eq, PartialEq, Structural)]
pub struct TenantQuotaCharge {
    pub tenant: u64,
    pub phase: ChargePhase,
}

impl TenantQuotaCharge {
    pub open spec fn after(self, step: ChargeStep) -> TenantQuotaCharge {
        TenantQuotaCharge { phase: ChargePhase::after(step), ..self }
    }
}

/// The accounts after a step of an object's charge.
pub open spec fn charge_stepped(
    accounts: Accounts,
    charge: TenantQuotaCharge,
    class: TenantResourceClass,
    step: ChargeStep,
    bytes: u64,
) -> Accounts {
    with_account(
        accounts,
        charge.tenant,
        class,
        accounts[charge.tenant].of(class).stepped(charge.phase, step, bytes),
    )
}

/// The accounts after a committed object gave back a part of its charge.
pub open spec fn charge_shrunk(
    accounts: Accounts,
    charge: TenantQuotaCharge,
    class: TenantResourceClass,
    bytes: u64,
) -> Accounts {
    with_account(accounts, charge.tenant, class, accounts[charge.tenant].of(class).shrunk(bytes))
}

/// The accounts after a reservation was given back.
pub open spec fn reservation_released(
    accounts: Accounts,
    tenant: u64,
    class: TenantResourceClass,
    bytes: u64,
) -> Accounts {
    with_account(accounts, tenant, class, accounts[tenant].of(class).unreserved(bytes))
}

impl QuotaReservationGuard {
    /// Changes how much is reserved. More is admitted only within the quota.
    pub fn resize(&mut self, ledger: &mut QuotaLedger, bytes: u64) -> (done: Result<
        (),
        TenantObjectError,
    >)
        ensures
            ({
                let account = old(ledger)@[old(self).tenant].of(old(self).class);
                let class = old(self).class;
                let tenant = old(self).tenant;
                if bytes <= old(self).bytes {
                    &&& done is Ok
                    &&& final(ledger)@ == reservation_released(
                        old(ledger)@,
                        tenant,
                        class,
                        (old(self).bytes - bytes) as u64,
                    )
                } else {
                    let additional = (bytes - old(self).bytes) as u64;
                    &&& done.is_ok() == account.admits(additional)
                    &&& done matches Err(error) ==> error == account.refusal(class, additional)
                        && final(ledger)@ == old(ledger)@
                    &&& done is Ok ==> final(ledger)@ == with_account(
                        old(ledger)@,
                        tenant,
                        class,
                        account.admitted(additional),
                    )
                }
            }),
            *final(self) == (QuotaReservationGuard {
                bytes: if done is Ok {
                    bytes
                } else {
                    old(self).bytes
                },
                ..*old(self)
            }),
    {
        let mut account = ledger.accounts(self.tenant).account(self.class);
        if bytes <= self.bytes {
            account.release_reserved(self.bytes - bytes);
        } else {
            let additional: u64 = bytes - self.bytes;
            if let Err(error) = account.reserve_demand(self.class, additional) {
                return Err(error);
            }
        }
        ledger.set_account(self.tenant, self.class, account);
        self.bytes = bytes;
        Ok(())
    }

    pub fn into_charge(self) -> (charge: TenantQuotaCharge)
        ensures
            charge == (TenantQuotaCharge { tenant: self.tenant, phase: ChargePhase::Reserved }),
    {
        TenantQuotaCharge { tenant: self.tenant, phase: ChargePhase::Reserved }
    }

    /// Rolls the admission back.
    pub fn release(self, ledger: &mut QuotaLedger)
        ensures
            final(ledger)@ == reservation_released(
                old(ledger)@,
                self.tenant,
                self.class,
                self.bytes,
            ),
    {
        let mut account = ledger.accounts(self.tenant).account(self.class);
        account.release_reserved(self.bytes);
        ledger.set_account(self.tenant, self.class, account);
    }
}

/// The sum of what tenants ask for.
pub open spec fn sum(values: Seq<u64>) -> int
    decreases values.len(),
{
    if values.len() == 0 {
        0
    } else {
        sum(values.drop_last()) + values.last()
    }
}

/// A tenant's share of the capacity, rounded down.
pub open spec fn share(requested: u64, capacity: u64, all_requested: int) -> int {
    (requested * capacity) / all_requested
}

/// The sum of the rounded shares of the first tenants.
pub open spec fn sum_of_shares(requested: Seq<u64>, capacity: u64, all_requested: int) -> int
    decreases requested.len(),
{
    if requested.len() == 0 {
        0
    } else {
        sum_of_shares(requested.drop_last(), capacity, all_requested) + share(
            requested.last(),
            capacity,
            all_requested,
        )
    }
}

/// How many of the tenants get less than they ask for.
pub open spec fn short_of(requested: Seq<u64>, capacity: u64, all_requested: int) -> int
    decreases requested.len(),
{
    if requested.len() == 0 {
        0
    } else {
        short_of(requested.drop_last(), capacity, all_requested) + if share(
            requested.last(),
            capacity,
            all_requested,
        ) < requested.last() {
            1int
        } else {
            0
        }
    }
}

/// What each tenant is promised. Where the capacity covers all requests, each
/// tenant gets what it asks for. Otherwise each gets its share, rounded down,
/// and what rounding left over goes, a byte each, to the first tenants that get
/// less than they ask for.
pub open spec fn effective_quotas(requested: Seq<u64>, capacity: u64) -> Seq<u64> {
    let all = sum(requested);
    if all <= capacity {
        requested
    } else {
        let left = capacity - sum_of_shares(requested, capacity, all);
        Seq::new(
            requested.len(),
            |i: int|
                {
                    let part = share(requested[i], capacity, all);
                    if part < requested[i] && short_of(requested.take(i), capacity, all) < left {
                        (part + 1) as u64
                    } else {
                        part as u64
                    }
                },
        )
    }
}

/// Every share is at most what was asked for, and shares never exceed the
/// capacity together.
proof fn lemma_shares(requested: Seq<u64>, capacity: u64, all: int)
    requires
        sum(requested) <= all,
        all > 0,
    ensures
        0 <= sum_of_shares(requested, capacity, all),
        sum_of_shares(requested, capacity, all) * all <= sum(requested) * capacity,
        0 <= sum(requested),
    decreases requested.len(),
{
    if requested.len() > 0 {
        lemma_sum_nonnegative(requested);
        let rest = requested.drop_last();
        lemma_shares(rest, capacity, all);
        let last = requested.last();
        let part = share(last, capacity, all);
        let product = last * capacity;
        assert(product >= 0) by (nonlinear_arith)
            requires
                product == last * capacity,
                last >= 0,
                capacity >= 0,
        ;
        vstd::arithmetic::div_mod::lemma_fundamental_div_mod(product, all);
        vstd::arithmetic::div_mod::lemma_mod_bound(product, all);
        vstd::arithmetic::div_mod::lemma_div_pos_is_pos(product, all);
        assert(part * all <= product) by (nonlinear_arith)
            requires
                product == all * part + product % all,
                product % all >= 0,
        ;
        let so_far = sum_of_shares(rest, capacity, all);
        assert((so_far + part) * all == so_far * all + part * all) by (nonlinear_arith);
        assert((sum(rest) + last) * capacity == sum(rest) * capacity + last * capacity)
            by (nonlinear_arith);
    }
}

proof fn lemma_sum_nonnegative(values: Seq<u64>)
    ensures
        0 <= sum(values),
        values.len() > 0 ==> 0 <= sum(values.drop_last()) && sum(values) == sum(
            values.drop_last(),
        ) + values.last(),
        sum(values) <= values.len() * u64::MAX,
    decreases values.len(),
{
    if values.len() > 0 {
        lemma_sum_nonnegative(values.drop_last());
        assert((values.len() - 1) * u64::MAX + u64::MAX == values.len() * u64::MAX)
            by (nonlinear_arith);
    }
}

/// A prefix asks for no more than all.
proof fn lemma_sum_prefix(values: Seq<u64>, i: int)
    requires
        0 <= i <= values.len(),
    ensures
        sum(values.take(i)) <= sum(values),
        i < values.len() ==> sum(values.take(i + 1)) == sum(values.take(i)) + values[i],
    decreases values.len() - i,
{
    if i < values.len() {
        lemma_sum_prefix(values, i + 1);
        lemma_sum_nonnegative(values.take(i + 1));
        assert(values.take(i + 1).drop_last() =~= values.take(i));
    } else {
        assert(values.take(i) =~= values);
    }
}

/// A share of too small a capacity is less than what was asked for.
proof fn lemma_share_bound(requested: u64, capacity: u64, all: int)
    requires
        capacity < all,
    ensures
        0 <= share(requested, capacity, all) <= requested,
        requested > 0 ==> share(requested, capacity, all) < requested,
        0 <= requested * capacity <= 0xffff_ffff_ffff_ffff * 0xffff_ffff_ffff_ffff,
{
    let product = requested * capacity;
    assert(0 <= product <= 0xffff_ffff_ffff_ffff * 0xffff_ffff_ffff_ffff) by (nonlinear_arith)
        requires
            product == requested * capacity,
            0 <= requested <= 0xffff_ffff_ffff_ffff,
            0 <= capacity <= 0xffff_ffff_ffff_ffff,
    ;
    vstd::arithmetic::div_mod::lemma_fundamental_div_mod(product, all);
    vstd::arithmetic::div_mod::lemma_mod_bound(product, all);
    vstd::arithmetic::div_mod::lemma_div_pos_is_pos(product, all);
    let part = product / all;
    assert(part <= requested && (requested > 0 ==> part < requested)) by (nonlinear_arith)
        requires
            product == all * part + product % all,
            product % all >= 0,
            product == requested * capacity,
            capacity < all,
            0 <= capacity,
            0 <= requested,
            part >= 0,
    ;
}

/// Works out what each tenant is promised of a capacity.
pub fn distribute_effective_quota(requested: &Vec<u64>, capacity: u64) -> (effective: Vec<u64>)
    ensures
        effective@ == effective_quotas(requested@, capacity),
{
    let ghost asked = requested@;
    let count: usize = requested.len();
    let mut total_requested: u128 = 0;
    let mut i: usize = 0;
    assert(asked.take(0) =~= Seq::empty());
    while i < count
        invariant
            asked == requested@,
            i <= asked.len(),
            asked.len() == count,
            total_requested == sum(asked.take(i as int)),
        decreases asked.len() - i,
    {
        proof {
            lemma_sum_prefix(asked, i as int);
            lemma_sum_nonnegative(asked.take(i as int + 1));
            assert((i + 1) * u64::MAX <= 0xffff_ffff_ffff_ffff * 0xffff_ffff_ffff_ffff)
                by (nonlinear_arith)
                requires
                    i + 1 <= 0xffff_ffff_ffff_ffff,
            ;
        }
        total_requested = total_requested + requested[i] as u128;
        i = i + 1;
    }
    assert(asked.take(i as int) =~= asked);
    let ghost all = sum(asked);
    let mut effective: Vec<u64> = Vec::new();
    if total_requested <= capacity as u128 {
        let mut i: usize = 0;
        while i < requested.len()
            invariant
                asked == requested@,
                i <= asked.len(),
                effective@ == asked.take(i as int),
            decreases asked.len() - i,
        {
            effective.push(requested[i]);
            assert(effective@ =~= asked.take(i as int + 1));
            i = i + 1;
        }
        assert(asked.take(i as int) =~= asked);
        return effective;
    }
    let mut assigned: u64 = 0;
    let mut i: usize = 0;
    assert(asked.take(0) =~= Seq::empty());
    while i < requested.len()
        invariant
            asked == requested@,
            all == sum(asked),
            total_requested == all,
            all > capacity,
            i <= asked.len(),
            effective@.len() == i,
            forall|j: int| 0 <= j < i ==> (#[trigger] effective@[j]) == share(asked[j], capacity, all),
            assigned == sum_of_shares(asked.take(i as int), capacity, all),
            assigned <= capacity,
        decreases asked.len() - i,
    {
        proof {
            lemma_share_bound(asked[i as int], capacity, all);
            lemma_sum_prefix(asked, i as int);
            lemma_sum_prefix(asked, i as int + 1);
            assert(asked.take(i as int + 1).drop_last() =~= asked.take(i as int));
            lemma_shares(asked.take(i as int + 1), capacity, all);
            let next = sum_of_shares(asked.take(i as int + 1), capacity, all);
            assert(next <= capacity) by (nonlinear_arith)
                requires
                    next * all <= sum(asked.take(i as int + 1)) * capacity,
                    sum(asked.take(i as int + 1)) <= all,
                    all > 0,
                    capacity >= 0,
            ;
        }
        let part: u64 = ((requested[i] as u128 * capacity as u128) / total_requested) as u64;
        effective.push(part);
        assigned = assigned.saturating_add(part);
        i = i + 1;
    }
    assert(asked.take(i as int) =~= asked);
    let mut remainder: u64 = capacity.saturating_sub(assigned);
    let ghost left = capacity - sum_of_shares(asked, capacity, all);
    let ghost goal = effective_quotas(asked, capacity);
    let mut i: usize = 0;
    assert(asked.take(0) =~= Seq::empty());
    while i < effective.len()
        invariant
            asked == requested@,
            all == sum(asked),
            all > capacity,
            effective@.len() == asked.len(),
            i <= asked.len(),
            goal == effective_quotas(asked, capacity),
            left == capacity - sum_of_shares(asked, capacity, all),
            left >= 0,
            remainder == if short_of(asked.take(i as int), capacity, all) < left {
                left - short_of(asked.take(i as int), capacity, all)
            } else {
                0
            },
            forall|j: int| 0 <= j < i ==> (#[trigger] effective@[j]) == goal[j],
            forall|j: int|
                i <= j < asked.len() ==> (#[trigger] effective@[j]) == share(
                    asked[j],
                    capacity,
                    all,
                ),
        decreases asked.len() - i,
    {
        proof {
            lemma_share_bound(asked[i as int], capacity, all);
            assert(asked.take(i as int + 1).drop_last() =~= asked.take(i as int));
            assert(asked.take(i as int + 1).last() == asked[i as int]);
        }
        if remainder > 0 && effective[i] < requested[i] {
            let part: u64 = effective[i];
            effective.set(i, part + 1);
            remainder = remainder - 1;
        }
        i = i + 1;
    }
    assert(effective@ =~= goal);
    effective
}

} // verus!
