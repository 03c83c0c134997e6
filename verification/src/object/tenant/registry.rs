//! The tenants of a manager: who is registered, under which namespace, and what
//! each is promised.

use super::super::identity::NamespaceId;
use super::super::manager::{ManagerView, ObjectManager};
use super::super::catalog::state::CatalogView;
use super::super::reclamation::{ReclaimFilter, ReclaimTarget};
use super::quota::{
    distribute_effective_quota, effective_quotas, less, with_account, Accounts, QuotaAccount,
    TenantAccounts,
};
use super::types::{
    TenantAdminError, TenantConfig, TenantConfigError, TenantId, TenantObjectError, TenantPolicy,
    TenantQuotaLimits, TenantQuotaSnapshot, TenantResourceClass, TenantSnapshot,
};
use crate::client::lifecycle::capped_sum;
use crate::segment::pool::{PoolView, SegmentPool};
use crate::segment::spec::ReplicaClass;
use crate::text::{comes_before, lemma_text_order, same_text, text_before};
use vstd::prelude::*;

verus! {

/// The last generation that a tenant can have.
pub const TENANT_MAX_GENERATION: u64 = 0x3fff_ffff_ffff_ffff;

/// Opaque, manager-bound resolution result. Resolving once per request batch
/// avoids repeated directory lookups on the item path.
#[derive(Clone, Copy, Debug, Eq, PartialEq, Structural)]
pub struct ResolvedTenant {
    pub manager_id: u64,
    pub namespace: NamespaceId,
    pub generation: u64,
    /// Whether what the tenant stores is accounted for. It is not where there is
    /// only one tenant.
    pub accounted: bool,
}

impl ResolvedTenant {
    pub fn namespace(&self) -> (namespace: NamespaceId)
        ensures
            namespace == self.namespace,
    {
        self.namespace
    }
}

/// One tenant that was ever registered. Its namespace stays its own after it was
/// removed.
#[derive(Debug)]
pub struct TenantEntry {
    pub id: TenantId,
    pub namespace: u64,
    pub generation: u64,
    pub registered: bool,
}

/// The contents of a [`TenantEntry`].
pub struct TenantEntryView {
    pub id: Seq<char>,
    pub namespace: u64,
    pub generation: u64,
    pub registered: bool,
}

impl View for TenantEntry {
    type V = TenantEntryView;

    open spec fn view(&self) -> TenantEntryView {
        TenantEntryView {
            id: self.id@,
            namespace: self.namespace,
            generation: self.generation,
            registered: self.registered,
        }
    }
}

/// The contents of a [`TenantSnapshot`].
pub struct TenantSnapshotView {
    pub id: Seq<char>,
    pub namespace: NamespaceId,
    pub generation: u64,
    pub policy: TenantPolicy,
    pub memory: TenantQuotaSnapshot,
    pub nof: TenantQuotaSnapshot,
}

impl View for TenantSnapshot {
    type V = TenantSnapshotView;

    open spec fn view(&self) -> TenantSnapshotView {
        TenantSnapshotView {
            id: self.id@,
            namespace: self.namespace,
            generation: self.generation,
            policy: self.policy,
            memory: self.memory,
            nof: self.nof,
        }
    }
}

impl TenantEntryView {
    /// What a snapshot of the tenant shows.
    pub open spec fn shown(self, accounts: TenantAccounts) -> TenantSnapshotView {
        TenantSnapshotView {
            id: self.id,
            namespace: NamespaceId { value: self.namespace },
            generation: self.generation,
            policy: TenantPolicy {
                quota: TenantQuotaLimits {
                    memory_bytes: accounts.memory.requested,
                    nof_bytes: accounts.nof.requested,
                },
            },
            memory: accounts.memory.shown(),
            nof: accounts.nof.shown(),
        }
    }
}

/// The contents of a [`TenantRegistry`].
pub struct TenantsView {
    pub manager_id: u64,
    pub single: bool,
    /// All tenants that were ever registered, in the order of their ids.
    pub entries: Seq<TenantEntryView>,
    pub next_namespace: u64,
    /// The change of the segments for which quotas were worked out last.
    pub capacity_generation: u64,
    /// Whether a tenant may hold more than it is promised.
    pub reclaim_hint: bool,
}

/// The tenants together with their accounts.
pub struct Tenancy {
    pub tenants: TenantsView,
    pub accounts: Accounts,
}

pub open spec fn tenancy_of(tenants: TenantsView, accounts: Accounts) -> Tenancy {
    Tenancy { tenants, accounts }
}

/// The namespaces of the tenants that are registered, in the order of their ids.
pub open spec fn registered_namespaces(entries: Seq<TenantEntryView>) -> Seq<u64>
    decreases entries.len(),
{
    if entries.len() == 0 {
        Seq::empty()
    } else if entries.last().registered {
        registered_namespaces(entries.drop_last()).push(entries.last().namespace)
    } else {
        registered_namespaces(entries.drop_last())
    }
}

/// What tenants ask for.
pub open spec fn requests(accounts: Accounts, namespaces: Seq<u64>) -> Seq<u64> {
    namespaces.map_values(|namespace: u64| accounts[namespace].memory.requested)
}

/// The accounts with another promise to one tenant.
pub open spec fn with_effective(accounts: Accounts, namespace: u64, effective: u64) -> Accounts {
    with_account(
        accounts,
        namespace,
        TenantResourceClass::Memory,
        QuotaAccount { effective, ..accounts[namespace].memory },
    )
}

/// The accounts with other promises to tenants.
pub open spec fn with_promises(accounts: Accounts, namespaces: Seq<u64>, promises: Seq<u64>) -> Accounts
    decreases namespaces.len(),
{
    if namespaces.len() == 0 {
        accounts
    } else {
        with_effective(
            with_promises(accounts, namespaces.drop_last(), promises.drop_last()),
            namespaces.last(),
            promises.last(),
        )
    }
}

/// How many bytes a tenant holds beyond what it is promised, without those that
/// are on their way out.
pub open spec fn overdraft(account: QuotaAccount) -> u64 {
    less(less(account.demand, account.retiring), account.effective)
}

/// Whether a tenant holds more than it is promised.
pub open spec fn in_debt(account: QuotaAccount) -> bool {
    account.demand > capped_sum(account.effective, account.retiring)
}

/// Whether one of some tenants holds more than it is promised.
pub open spec fn any_in_debt(accounts: Accounts, namespaces: Seq<u64>) -> bool {
    exists|i: int|
        0 <= i < namespaces.len() && in_debt(accounts[#[trigger] namespaces[i]].memory)
}

/// Where a tenant belongs in the order of ids.
pub open spec fn place_for(entries: Seq<TenantEntryView>, id: Seq<char>) -> int
    decreases entries.len(),
{
    if entries.len() == 0 {
        0
    } else if text_before(entries.last().id, id) {
        entries.len() as int
    } else {
        place_for(entries.drop_last(), id)
    }
}

/// Whether entries are in the order of their ids.
pub open spec fn ids_in_order(entries: Seq<TenantEntryView>) -> bool {
    forall|i: int, j: int|
        0 <= i < j < entries.len() ==> text_before(
            (#[trigger] entries[i]).id,
            (#[trigger] entries[j]).id,
        )
}

impl TenantsView {
    /// What holds of every registry: tenants are kept in the order of their ids,
    /// each under a namespace of its own that was given out once.
    pub open spec fn wf(self) -> bool {
        &&& ids_in_order(self.entries)
        &&& self.next_namespace >= 1
        &&& forall|i: int|
            0 <= i < self.entries.len() ==> {
                &&& 1 <= (#[trigger] self.entries[i]).namespace < self.next_namespace
                &&& 1 <= self.entries[i].generation <= TENANT_MAX_GENERATION
            }
        &&& forall|i: int, j: int|
            0 <= i < j < self.entries.len() ==> (#[trigger] self.entries[i]).namespace != (
            #[trigger] self.entries[j]).namespace
        &&& self.single ==> self.entries.len() == 0
    }

    /// Where a tenant stands in the registry.
    pub open spec fn position(self, id: Seq<char>) -> Option<int> {
        if exists|i: int| 0 <= i < self.entries.len() && #[trigger] self.entries[i].id == id {
            Some(choose|i: int| 0 <= i < self.entries.len() && #[trigger] self.entries[i].id == id)
        } else {
            None
        }
    }

    /// Which tenant a namespace belongs to.
    pub open spec fn holder(self, namespace: u64) -> Option<int> {
        if exists|i: int|
            0 <= i < self.entries.len() && #[trigger] self.entries[i].namespace == namespace {
            Some(
                choose|i: int|
                    0 <= i < self.entries.len() && #[trigger] self.entries[i].namespace
                        == namespace,
            )
        } else {
            None
        }
    }

    /// The handle of a tenant.
    pub open spec fn handle(self, i: int) -> ResolvedTenant {
        ResolvedTenant {
            manager_id: self.manager_id,
            namespace: NamespaceId { value: self.entries[i].namespace },
            generation: self.entries[i].generation,
            accounted: true,
        }
    }

    /// What resolving a tenant comes to.
    pub open spec fn resolve_result(self, id: Seq<char>) -> Result<ResolvedTenant, TenantObjectError> {
        if self.single {
            Ok(
                ResolvedTenant {
                    manager_id: self.manager_id,
                    namespace: NamespaceId { value: 0 },
                    generation: 0,
                    accounted: false,
                },
            )
        } else {
            match self.position(id) {
                Some(i) => if self.entries[i].registered {
                    Ok(self.handle(i))
                } else {
                    Err(TenantObjectError::TenantNotRegistered)
                },
                None => Err(TenantObjectError::TenantNotRegistered),
            }
        }
    }

    /// Whether a handle was given out by this manager.
    pub open spec fn is_bound(self, tenant: ResolvedTenant) -> bool {
        tenant.manager_id == self.manager_id && tenant.accounted == !self.single
    }

    /// Whether a handle is this manager's and its tenant is registered in the
    /// same generation still.
    pub open spec fn is_valid(self, tenant: ResolvedTenant) -> bool {
        &&& self.is_bound(tenant)
        &&& tenant.accounted ==> match self.holder(tenant.namespace.value) {
            Some(i) => self.entries[i].registered && self.entries[i].generation
                == tenant.generation,
            None => false,
        }
    }

    /// The registry with one tenant changed.
    pub open spec fn with_entry(self, i: int, entry: TenantEntryView) -> TenantsView {
        TenantsView { entries: self.entries.update(i, entry), ..self }
    }

    /// The registry with a tenant that was never registered before.
    pub open spec fn joined_by(self, id: Seq<char>) -> TenantsView {
        TenantsView {
            entries: self.entries.insert(
                place_for(self.entries, id),
                TenantEntryView {
                    id,
                    namespace: self.next_namespace,
                    generation: 1,
                    registered: true,
                },
            ),
            next_namespace: (self.next_namespace + 1) as u64,
            ..self
        }
    }
}

/// A tenant stands where it is found.
pub proof fn lemma_tenant_position(tenants: TenantsView, i: int)
    requires
        tenants.wf(),
        0 <= i < tenants.entries.len(),
    ensures
        tenants.position(tenants.entries[i].id) == Some(i),
        tenants.holder(tenants.entries[i].namespace) == Some(i),
{
    let id = tenants.entries[i].id;
    let j = tenants.position(id).unwrap();
    assert(tenants.entries[j].id == id);
    lemma_text_order(id, id, id);
    let k = tenants.holder(tenants.entries[i].namespace).unwrap();
    assert(tenants.entries[k].namespace == tenants.entries[i].namespace);
}

/// Where a tenant belongs, those before it stand before, the others after.
proof fn lemma_place(entries: Seq<TenantEntryView>, id: Seq<char>)
    requires
        ids_in_order(entries),
        forall|i: int| 0 <= i < entries.len() ==> (#[trigger] entries[i]).id != id,
    ensures
        0 <= place_for(entries, id) <= entries.len(),
        forall|i: int|
            0 <= i < place_for(entries, id) ==> text_before((#[trigger] entries[i]).id, id),
        forall|i: int|
            place_for(entries, id) <= i < entries.len() ==> text_before(
                id,
                (#[trigger] entries[i]).id,
            ),
    decreases entries.len(),
{
    if entries.len() > 0 {
        let rest = entries.drop_last();
        let last = entries.last();
        lemma_text_order(last.id, id, id);
        if text_before(last.id, id) {
            assert forall|i: int| 0 <= i < entries.len() implies text_before(
                (#[trigger] entries[i]).id,
                id,
            ) by {
                if i < entries.len() - 1 {
                    lemma_text_order(entries[i].id, last.id, id);
                }
            }
        } else {
            assert(forall|i: int| 0 <= i < rest.len() ==> (#[trigger] rest[i]) == entries[i]);
            lemma_place(rest, id);
            assert forall|i: int| place_for(entries, id) <= i < entries.len() implies text_before(
                id,
                (#[trigger] entries[i]).id,
            ) by {
                if i < entries.len() - 1 {
                    assert(rest[i] == entries[i]);
                }
            }
            assert forall|i: int| 0 <= i < place_for(entries, id) implies text_before(
                (#[trigger] entries[i]).id,
                id,
            ) by {
                assert(rest[i] == entries[i]);
            }
        }
    }
}

impl Tenancy {
    /// Quotas are worked out anew for the capacity that the pool has.
    pub open spec fn recomputed(self, pool: PoolView) -> Tenancy {
        let namespaces = registered_namespaces(self.tenants.entries);
        let promises = effective_quotas(
            requests(self.accounts, namespaces),
            pool.capacity_of(ReplicaClass::Memory),
        );
        let accounts = with_promises(self.accounts, namespaces, promises);
        Tenancy {
            tenants: TenantsView {
                capacity_generation: pool.capacity_epoch,
                reclaim_hint: any_in_debt(accounts, namespaces),
                ..self.tenants
            },
            accounts,
        }
    }

    /// Quotas are worked out anew if the segments have changed.
    pub open spec fn refreshed(self, pool: PoolView) -> Tenancy {
        if self.tenants.single || self.tenants.capacity_generation == pool.capacity_epoch {
            self
        } else {
            self.recomputed(pool)
        }
    }

    /// The accounts with another policy for a tenant.
    pub open spec fn with_policy(self, namespace: u64, policy: TenantPolicy) -> Tenancy {
        let held = self.accounts[namespace];
        Tenancy {
            accounts: self.accounts.insert(
                namespace,
                TenantAccounts {
                    memory: QuotaAccount { requested: policy.quota.memory_bytes, ..held.memory },
                    nof: QuotaAccount { requested: policy.quota.nof_bytes, ..held.nof },
                },
            ),
            ..self
        }
    }

    /// Why a tenant is not registered or changed.
    pub open spec fn upsert_fault(self, id: Seq<char>) -> Option<TenantAdminError> {
        if self.tenants.single {
            Some(TenantAdminError::SingleTenantMode)
        } else {
            match self.tenants.position(id) {
                None => if self.tenants.next_namespace == u64::MAX {
                    Some(TenantAdminError::NamespaceExhausted)
                } else {
                    None
                },
                Some(i) => {
                    let entry = self.tenants.entries[i];
                    if entry.registered {
                        None
                    } else if !self.accounts[entry.namespace].idle() {
                        Some(TenantAdminError::TenantNotEmpty)
                    } else if entry.generation >= TENANT_MAX_GENERATION {
                        Some(TenantAdminError::NamespaceExhausted)
                    } else {
                        None
                    }
                },
            }
        }
    }

    /// The tenants after one was registered, registered again or given another
    /// policy.
    pub open spec fn upserted(self, id: Seq<char>, policy: TenantPolicy, pool: PoolView) -> Tenancy {
        match self.tenants.position(id) {
            None => Tenancy {
                tenants: self.tenants.joined_by(id),
                accounts: self.accounts.insert(
                    self.tenants.next_namespace,
                    TenantAccounts::opened(policy.quota),
                ),
            }.recomputed(pool),
            Some(i) => {
                let entry = self.tenants.entries[i];
                let tenants = if entry.registered {
                    self.tenants
                } else {
                    self.tenants.with_entry(
                        i,
                        TenantEntryView {
                            generation: (entry.generation + 1) as u64,
                            registered: true,
                            ..entry
                        },
                    )
                };
                Tenancy { tenants, ..self.with_policy(entry.namespace, policy) }.recomputed(pool)
            },
        }
    }

    /// Why a tenant is not removed.
    pub open spec fn delete_fault(self, id: Seq<char>) -> Option<TenantAdminError> {
        if self.tenants.single {
            Some(TenantAdminError::SingleTenantMode)
        } else {
            match self.tenants.position(id) {
                None => Some(TenantAdminError::TenantNotRegistered),
                Some(i) => {
                    let entry = self.tenants.entries[i];
                    if !entry.registered {
                        Some(TenantAdminError::TenantNotRegistered)
                    } else if !self.accounts[entry.namespace].idle() {
                        Some(TenantAdminError::TenantNotEmpty)
                    } else {
                        None
                    }
                },
            }
        }
    }

    /// The tenants after one was removed.
    pub open spec fn deleted(self, id: Seq<char>, pool: PoolView) -> Tenancy {
        let i = self.tenants.position(id).unwrap();
        let entry = self.tenants.entries[i];
        Tenancy {
            tenants: self.tenants.with_entry(i, TenantEntryView { registered: false, ..entry }),
            accounts: with_effective(self.accounts, entry.namespace, 0),
        }.recomputed(pool)
    }

    /// Whether targets are what the registered tenants hold beyond their
    /// promises.
    pub open spec fn are_targets(self, targets: Seq<ReclaimTarget>) -> bool {
        lists_overdrafts(self.accounts, registered_namespaces(self.tenants.entries), targets)
    }

    /// Whether targets are what a maintenance round asks for.
    pub open spec fn reclaims(self, targets: Seq<ReclaimTarget>) -> bool {
        if self.tenants.single || !self.tenants.reclaim_hint {
            targets.len() == 0
        } else {
            self.are_targets(targets)
        }
    }

    /// The tenants after a maintenance round asked for targets. Where there are
    /// none, the next round need not look.
    pub open spec fn reclaim_asked(self, targets: Seq<ReclaimTarget>) -> Tenancy {
        if self.tenants.single || !self.tenants.reclaim_hint {
            self
        } else {
            Tenancy {
                tenants: TenantsView { reclaim_hint: targets.len() > 0, ..self.tenants },
                ..self
            }
        }
    }

    /// What the registered tenants look like, in the order of their ids.
    pub open spec fn listed(self) -> Seq<TenantSnapshotView> {
        shown_tenants(self.tenants.entries, self.accounts)
    }
}

/// What tenants that are registered look like.
pub open spec fn shown_tenants(entries: Seq<TenantEntryView>, accounts: Accounts) -> Seq<
    TenantSnapshotView,
>
    decreases entries.len(),
{
    if entries.len() == 0 {
        Seq::empty()
    } else if entries.last().registered {
        shown_tenants(entries.drop_last(), accounts).push(
            entries.last().shown(accounts[entries.last().namespace]),
        )
    } else {
        shown_tenants(entries.drop_last(), accounts)
    }
}

/// Whether targets are what some tenants hold beyond their promises: one for
/// each tenant that does, in the order of their namespaces.
pub open spec fn lists_overdrafts(
    accounts: Accounts,
    namespaces: Seq<u64>,
    targets: Seq<ReclaimTarget>,
) -> bool {
    &&& forall|i: int, j: int|
        0 <= i < j < targets.len() ==> target_scope(#[trigger] targets[i]) < target_scope(
            #[trigger] targets[j],
        )
    &&& forall|k: int|
        0 <= k < targets.len() ==> {
            let namespace = target_scope(#[trigger] targets[k]);
            &&& namespaces.contains(namespace)
            &&& overdraft(accounts[namespace].memory) > 0
            &&& targets[k] == target_for(namespace, accounts[namespace].memory)
        }
    &&& forall|namespace: u64| #[trigger]
        namespaces.contains(namespace) && overdraft(accounts[namespace].memory) > 0
            ==> exists|k: int|
            0 <= k < targets.len() && target_scope(#[trigger] targets[k]) == namespace
}

/// Registered tenants have different namespaces.
proof fn lemma_registered_distinct(tenants: TenantsView, n: int)
    requires
        tenants.wf(),
        0 <= n <= tenants.entries.len(),
    ensures
        forall|i: int, j: int|
            0 <= i < j < registered_namespaces(tenants.entries.take(n)).len() ==> (
            #[trigger] registered_namespaces(tenants.entries.take(n))[i]) != (
            #[trigger] registered_namespaces(tenants.entries.take(n))[j]),
        forall|i: int|
            0 <= i < registered_namespaces(tenants.entries.take(n)).len() ==> exists|k: int|
                0 <= k < n && (#[trigger] tenants.entries[k]).namespace == (
                #[trigger] registered_namespaces(tenants.entries.take(n))[i]),
    decreases n,
{
    if n > 0 {
        lemma_registered_distinct(tenants, n - 1);
        let before = registered_namespaces(tenants.entries.take(n - 1));
        let after = registered_namespaces(tenants.entries.take(n));
        assert(tenants.entries.take(n).drop_last() =~= tenants.entries.take(n - 1));
        assert(tenants.entries.take(n).last() == tenants.entries[n - 1]);
        assert forall|i: int| 0 <= i < after.len() implies exists|k: int|
            0 <= k < n && (#[trigger] tenants.entries[k]).namespace == (#[trigger] after[i]) by {
            if i < before.len() {
                assert(after[i] == before[i]);
                let k = choose|k: int|
                    0 <= k < n - 1 && (#[trigger] tenants.entries[k]).namespace == before[i];
                assert(tenants.entries[k].namespace == after[i]);
            } else {
                assert(tenants.entries[n - 1].namespace == after[i]);
            }
        }
        assert forall|i: int, j: int| 0 <= i < j < after.len() implies (#[trigger] after[i]) != (
        #[trigger] after[j]) by {
            assert(after[i] == before[i]);
            if j < before.len() {
                assert(after[j] == before[j]);
            } else {
                let k = choose|k: int|
                    0 <= k < n - 1 && (#[trigger] tenants.entries[k]).namespace == before[i];
                assert(tenants.entries[k].namespace != tenants.entries[n - 1].namespace);
            }
        }
    }
}

/// The namespace that a target is about.
pub open spec fn target_scope(target: ReclaimTarget) -> u64 {
    match target.filter {
        ReclaimFilter::Scope { namespace, replica_class } => namespace.value,
        _ => 0,
    }
}

/// The target for what a tenant holds beyond its promise.
pub open spec fn target_for(namespace: u64, account: QuotaAccount) -> ReclaimTarget {
    ReclaimTarget {
        filter: ReclaimFilter::Scope {
            namespace: NamespaceId { value: namespace },
            replica_class: ReplicaClass::Memory,
        },
        bytes: overdraft(account),
    }
}

impl ManagerView {
    /// The objects with other accounts.
    pub open spec fn with_accounts(self, accounts: Accounts) -> ManagerView {
        ManagerView { catalog: CatalogView { accounts, ..self.catalog }, ..self }
    }
}

/// The contents of a [`TenantConfigError`].
pub enum TenantConfigErrorView {
    DuplicateTenant(Seq<char>),
    NamespaceExhausted,
}

impl View for TenantConfigError {
    type V = TenantConfigErrorView;

    open spec fn view(&self) -> TenantConfigErrorView {
        match *self {
            TenantConfigError::DuplicateTenant(id) => TenantConfigErrorView::DuplicateTenant(id@),
            TenantConfigError::NamespaceExhausted => TenantConfigErrorView::NamespaceExhausted,
        }
    }
}

impl TenantsView {
    /// A registry without tenants for which no quotas were worked out.
    pub open spec fn empty(manager_id: u64, single: bool) -> TenantsView {
        TenantsView {
            manager_id,
            single,
            entries: Seq::empty(),
            next_namespace: 1,
            capacity_generation: u64::MAX,
            reclaim_hint: false,
        }
    }

    /// The registry with the tenants of an initial policy list, in the order of
    /// the list.
    pub open spec fn enrolled(self, ids: Seq<Seq<char>>) -> TenantsView
        decreases ids.len(),
    {
        if ids.len() == 0 {
            self
        } else {
            self.enrolled(ids.drop_last()).joined_by(ids.last())
        }
    }

    /// What is wrong with an initial policy list.
    pub open spec fn enroll_fault(self, ids: Seq<Seq<char>>) -> Option<TenantConfigErrorView>
        decreases ids.len(),
    {
        if ids.len() == 0 {
            None
        } else {
            match self.enroll_fault(ids.drop_last()) {
                Some(fault) => Some(fault),
                None => {
                    let before = self.enrolled(ids.drop_last());
                    if before.position(ids.last()) is Some {
                        Some(TenantConfigErrorView::DuplicateTenant(ids.last()))
                    } else if before.next_namespace == u64::MAX {
                        Some(TenantConfigErrorView::NamespaceExhausted)
                    } else {
                        None
                    }
                },
            }
        }
    }
}

/// The ids of an initial policy list.
pub open spec fn listed_ids(policies: Seq<(TenantId, TenantPolicy)>) -> Seq<Seq<char>> {
    policies.map_values(|listed: (TenantId, TenantPolicy)| listed.0@)
}

/// The accounts with those of an initial policy list opened. Namespaces are
/// numbered from one on.
pub open spec fn accounts_opened(accounts: Accounts, policies: Seq<(TenantId, TenantPolicy)>) -> Accounts
    decreases policies.len(),
{
    if policies.len() == 0 {
        accounts
    } else {
        accounts_opened(accounts, policies.drop_last()).insert(
            policies.len() as u64,
            TenantAccounts::opened(policies.last().1.quota),
        )
    }
}

/// A fault in the first policies is one of the list.
proof fn lemma_enroll_fault_stays(tenants: TenantsView, ids: Seq<Seq<char>>, at: int)
    requires
        0 <= at <= ids.len(),
        tenants.enroll_fault(ids.take(at)) is Some,
    ensures
        tenants.enroll_fault(ids) == tenants.enroll_fault(ids.take(at)),
    decreases ids.len() - at,
{
    if at < ids.len() {
        assert(ids.take(at + 1).drop_last() =~= ids.take(at));
        lemma_enroll_fault_stays(tenants, ids, at + 1);
    } else {
        assert(ids.take(at) =~= ids);
    }
}

/// A registry is in order with one tenant more.
proof fn lemma_joined_wf(tenants: TenantsView, id: Seq<char>)
    requires
        tenants.wf(),
        !tenants.single,
        tenants.position(id) is None,
        tenants.next_namespace < u64::MAX,
    ensures
        tenants.joined_by(id).wf(),
        0 <= place_for(tenants.entries, id) <= tenants.entries.len(),
        tenants.joined_by(id).position(id) == Some(place_for(tenants.entries, id)),
{
    let after = tenants.joined_by(id);
    let p = place_for(tenants.entries, id);
    assert forall|i: int| 0 <= i < tenants.entries.len() implies (#[trigger] tenants.entries[i]).id
        != id by {}
    lemma_place(tenants.entries, id);
    assert forall|i: int, j: int| 0 <= i < j < after.entries.len() implies text_before(
        (#[trigger] after.entries[i]).id,
        (#[trigger] after.entries[j]).id,
    ) && after.entries[i].namespace != after.entries[j].namespace by {
        let a = if i < p { i } else { i - 1 };
        let b = if j < p { j } else { j - 1 };
        if i != p {
            assert(after.entries[i] == tenants.entries[a]);
        }
        if j != p {
            assert(after.entries[j] == tenants.entries[b]);
        }
    }
    assert forall|i: int| 0 <= i < after.entries.len() implies {
        &&& 1 <= (#[trigger] after.entries[i]).namespace < after.next_namespace
        &&& 1 <= after.entries[i].generation <= TENANT_MAX_GENERATION
    } by {
        let a = if i < p { i } else { i - 1 };
        if i != p {
            assert(after.entries[i] == tenants.entries[a]);
        }
    }
    assert(after.entries[p].id == id);
    lemma_tenant_position(after, p);
}

/// A registry is in order with one tenant in another state.
proof fn lemma_changed_wf(tenants: TenantsView, i: int, entry: TenantEntryView)
    requires
        tenants.wf(),
        0 <= i < tenants.entries.len(),
        entry.id == tenants.entries[i].id,
        entry.namespace == tenants.entries[i].namespace,
        1 <= entry.generation <= TENANT_MAX_GENERATION,
    ensures
        tenants.with_entry(i, entry).wf(),
{
    let after = tenants.with_entry(i, entry);
    assert forall|a: int, b: int| 0 <= a < b < after.entries.len() implies text_before(
        (#[trigger] after.entries[a]).id,
        (#[trigger] after.entries[b]).id,
    ) && after.entries[a].namespace != after.entries[b].namespace by {
        assert(text_before(tenants.entries[a].id, tenants.entries[b].id));
    }
}

/// Who is registered with a manager.
pub struct TenantRegistry {
    manager_id: u64,
    single: bool,
    entries: Vec<TenantEntry>,
    next_namespace: u64,
    capacity_generation: u64,
    reclaim_hint: bool,
}

impl View for TenantRegistry {
    type V = TenantsView;

    closed spec fn view(&self) -> TenantsView {
        TenantsView {
            manager_id: self.manager_id,
            single: self.single,
            entries: self.entries@.map_values(|entry: TenantEntry| entry@),
            next_namespace: self.next_namespace,
            capacity_generation: self.capacity_generation,
            reclaim_hint: self.reclaim_hint,
        }
    }
}

impl TenantRegistry {
    /// What holds of every registry.
    pub closed spec fn wf(&self) -> bool {
        self@.wf()
    }

    /// A registry's own invariant, for callers that hold the registry.
    pub proof fn lemma_wf(&self)
        requires
            self.wf(),
        ensures
            self@.wf(),
    {
    }

    /// Sets the tenants of a manager up and opens their accounts.
    pub(super) fn new(
        manager_id: u64,
        objects: &mut ObjectManager,
        pool: &SegmentPool,
        config: &TenantConfig,
    ) -> (made: Result<Self, TenantConfigError>)
        requires
            old(objects).wf(),
            pool.wf(),
        ensures
            final(objects).wf(),
            match *config {
                TenantConfig::Single => {
                    &&& made matches Ok(registry) && registry.wf() && registry@
                        == TenantsView::empty(manager_id, true)
                    &&& final(objects)@ == old(objects)@
                },
                TenantConfig::Multi { initial_policies } => {
                    let empty = TenantsView::empty(manager_id, false);
                    let ids = listed_ids(initial_policies@);
                    let start = tenancy_of(
                        empty.enrolled(ids),
                        accounts_opened(old(objects)@.catalog.accounts, initial_policies@),
                    );
                    match made {
                        Ok(registry) => {
                            &&& empty.enroll_fault(ids) is None
                            &&& registry.wf()
                            &&& registry@ == start.refreshed(pool@).tenants
                            &&& final(objects)@ == old(objects)@.with_accounts(
                                start.refreshed(pool@).accounts,
                            )
                        },
                        Err(error) => {
                            &&& empty.enroll_fault(ids) == Some(error@)
                            &&& final(objects)@ == old(objects)@
                        },
                    }
                },
            },
    {
        let (single, listed) = match config {
            TenantConfig::Single => (true, None),
            TenantConfig::Multi { initial_policies } => (false, Some(initial_policies)),
        };
        let mut registry = Self {
            manager_id,
            single,
            entries: Vec::new(),
            next_namespace: 1,
            capacity_generation: u64::MAX,
            reclaim_hint: false,
        };
        let ghost empty = TenantsView::empty(manager_id, single);
        assert(registry@.entries =~= empty.entries);
        if let Some(policies) = listed {
            let ghost ids = listed_ids(policies@);
            let mut i: usize = 0;
            assert(ids.take(0) =~= Seq::empty());
            while i < policies.len()
                invariant
                    i <= policies@.len(),
                    ids == listed_ids(policies@),
                    registry.wf(),
                    !registry@.single,
                    empty == TenantsView::empty(manager_id, false),
                    registry@ == empty.enrolled(ids.take(i as int)),
                    empty.enroll_fault(ids.take(i as int)) is None,
                    registry@.next_namespace == i + 1,
                    *objects == *old(objects),
                    old(objects).wf(),
                    *config matches TenantConfig::Multi { initial_policies } && initial_policies
                        == *policies,
                decreases policies@.len() - i,
            {
                let id = &policies[i].0;
                proof {
                    assert(ids.take(i as int + 1).drop_last() =~= ids.take(i as int));
                    assert(ids.take(i as int + 1).last() == id@);
                }
                if registry.find(id).is_some() {
                    proof {
                        lemma_enroll_fault_stays(empty, ids, i as int + 1);
                    }
                    return Err(TenantConfigError::DuplicateTenant(id.duplicate()));
                }
                if registry.next_namespace == u64::MAX {
                    proof {
                        lemma_enroll_fault_stays(empty, ids, i as int + 1);
                    }
                    return Err(TenantConfigError::NamespaceExhausted);
                }
                registry.join(id.duplicate());
                i = i + 1;
            }
            assert(ids.take(i as int) =~= ids);
            let ghost before = objects@;
            let mut i: usize = 0;
            proof {
                assert(policies@.take(0) =~= Seq::empty());
                assert(before == before.with_accounts(before.catalog.accounts));
            }
            while i < policies.len()
                invariant
                    i <= policies@.len(),
                    policies@.len() < u64::MAX,
                    objects.wf(),
                    objects@ == before.with_accounts(
                        accounts_opened(before.catalog.accounts, policies@.take(i as int)),
                    ),
                decreases policies@.len() - i,
            {
                proof {
                    assert(policies@.take(i as int + 1).drop_last() =~= policies@.take(i as int));
                }
                objects.set_tenant_accounts(
                    (i + 1) as u64,
                    TenantAccounts::new(policies[i].1.quota()),
                );
                i = i + 1;
            }
            assert(policies@.take(i as int) =~= policies@);
            registry.refresh_capacity(objects, pool);
        }
        Ok(registry)
    }

    /// Where a tenant stands in the registry.
    fn find(&self, id: &TenantId) -> (found: Option<usize>)
        requires
            self.wf(),
        ensures
            match found {
                Some(i) => i < self@.entries.len() && self@.position(id@) == Some(i as int),
                None => self@.position(id@) is None,
            },
    {
        let mut i: usize = 0;
        while i < self.entries.len()
            invariant
                i <= self.entries@.len(),
                self.wf(),
                forall|j: int| 0 <= j < i ==> (#[trigger] self@.entries[j]).id != id@,
            decreases self.entries@.len() - i,
        {
            assert(self@.entries[i as int] == self.entries@[i as int]@);
            if same_text(self.entries[i].id.as_str(), id.as_str()) {
                proof {
                    lemma_tenant_position(self@, i as int);
                }
                return Some(i);
            }
            i = i + 1;
        }
        None
    }

    /// Which tenant a namespace belongs to.
    fn find_holder(&self, namespace: u64) -> (found: Option<usize>)
        requires
            self.wf(),
        ensures
            match found {
                Some(i) => i < self@.entries.len() && self@.holder(namespace) == Some(i as int),
                None => self@.holder(namespace) is None,
            },
    {
        let mut i: usize = 0;
        while i < self.entries.len()
            invariant
                i <= self.entries@.len(),
                self.wf(),
                forall|j: int| 0 <= j < i ==> (#[trigger] self@.entries[j]).namespace != namespace,
            decreases self.entries@.len() - i,
        {
            assert(self@.entries[i as int] == self.entries@[i as int]@);
            if self.entries[i].namespace == namespace {
                proof {
                    lemma_tenant_position(self@, i as int);
                }
                return Some(i);
            }
            i = i + 1;
        }
        None
    }

    /// Adds a tenant that was never registered before.
    fn join(&mut self, id: TenantId)
        requires
            old(self).wf(),
            !old(self)@.single,
            old(self)@.position(id@) is None,
            old(self)@.next_namespace < u64::MAX,
        ensures
            final(self).wf(),
            final(self)@ == old(self)@.joined_by(id@),
    {
        let ghost before = self@;
        let namespace: u64 = self.next_namespace;
        let mut place: usize = self.entries.len();
        assert(before.entries.take(place as int) =~= before.entries);
        while place > 0
            invariant
                place <= self.entries@.len(),
                before == self@,
                place_for(before.entries, id@) == place_for(before.entries.take(place as int), id@),
            ensures
                place_for(before.entries, id@) == place,
                place <= self.entries@.len(),
                before == self@,
            decreases place,
        {
            proof {
                assert(before.entries[place - 1] == self.entries@[place - 1]@);
                assert(before.entries.take(place as int).drop_last() =~= before.entries.take(
                    place - 1,
                ));
            }
            if comes_before(self.entries[place - 1].id.as_str(), id.as_str()) {
                break ;
            }
            place = place - 1;
        }
        proof {
            lemma_joined_wf(before, id@);
        }
        let entry = TenantEntry { id, namespace, generation: 1, registered: true };
        let ghost added = entry@;
        self.entries.insert(place, entry);
        self.next_namespace = namespace + 1;
        assert(self@.entries =~= before.entries.insert(place as int, added));
    }

    /// Resolves a tenant once for a batch of requests.
    pub fn resolve(&self, id: &TenantId) -> (resolved: Result<ResolvedTenant, TenantObjectError>)
        requires
            self.wf(),
        ensures
            resolved == self@.resolve_result(id@),
    {
        if self.single {
            return Ok(
                ResolvedTenant {
                    manager_id: self.manager_id,
                    namespace: NamespaceId::default(),
                    generation: 0,
                    accounted: false,
                },
            );
        }
        match self.find(id) {
            Some(i) => {
                assert(self@.entries[i as int] == self.entries@[i as int]@);
                if !self.entries[i].registered {
                    return Err(TenantObjectError::TenantNotRegistered);
                }
                Ok(self.resolved(i))
            },
            None => Err(TenantObjectError::TenantNotRegistered),
        }
    }

    fn resolved(&self, i: usize) -> (resolved: ResolvedTenant)
        requires
            i < self@.entries.len(),
        ensures
            resolved == self@.handle(i as int),
    {
        ResolvedTenant {
            manager_id: self.manager_id,
            namespace: NamespaceId::new(self.entries[i].namespace),
            generation: self.entries[i].generation,
            accounted: true,
        }
    }

    /// Whether a handle is good for an operation.
    pub fn validate(&self, tenant: &ResolvedTenant) -> (valid: Result<(), TenantObjectError>)
        requires
            self.wf(),
        ensures
            valid == if self@.is_valid(*tenant) {
                Ok::<(), TenantObjectError>(())
            } else {
                Err(TenantObjectError::InvalidTenantHandle)
            },
    {
        if let Err(error) = self.validate_binding(tenant) {
            return Err(error);
        }
        if !tenant.accounted {
            return Ok(());
        }
        match self.find_holder(tenant.namespace.value) {
            Some(i) => {
                assert(self@.entries[i as int] == self.entries@[i as int]@);
                if self.entries[i].registered && self.entries[i].generation == tenant.generation {
                    Ok(())
                } else {
                    Err(TenantObjectError::InvalidTenantHandle)
                }
            },
            None => Err(TenantObjectError::InvalidTenantHandle),
        }
    }

    /// Whether a handle was given out by this manager.
    pub fn validate_binding(&self, tenant: &ResolvedTenant) -> (valid: Result<
        (),
        TenantObjectError,
    >)
        ensures
            valid == if self@.is_bound(*tenant) {
                Ok::<(), TenantObjectError>(())
            } else {
                Err(TenantObjectError::InvalidTenantHandle)
            },
    {
        if tenant.manager_id != self.manager_id || tenant.accounted == self.single {
            return Err(TenantObjectError::InvalidTenantHandle);
        }
        Ok(())
    }

    /// Registers a tenant, registers it again after it was removed, or gives it
    /// another policy.
    pub(super) fn upsert(
        &mut self,
        objects: &mut ObjectManager,
        pool: &SegmentPool,
        id: TenantId,
        policy: TenantPolicy,
    ) -> (upserted: Result<ResolvedTenant, TenantAdminError>)
        requires
            old(self).wf(),
            old(objects).wf(),
            pool.wf(),
        ensures
            final(self).wf(),
            final(objects).wf(),
            ({
                let before = tenancy_of(old(self)@, old(objects)@.catalog.accounts);
                let after = before.upserted(id@, policy, pool@);
                match before.upsert_fault(id@) {
                    Some(fault) => {
                        &&& upserted == Err::<ResolvedTenant, TenantAdminError>(fault)
                        &&& final(self)@ == old(self)@
                        &&& final(objects)@ == old(objects)@
                    },
                    None => {
                        &&& final(self)@ == after.tenants
                        &&& final(objects)@ == old(objects)@.with_accounts(after.accounts)
                        &&& after.tenants.position(id@) is Some
                        &&& upserted == Ok::<ResolvedTenant, TenantAdminError>(
                            after.tenants.handle(after.tenants.position(id@).unwrap()),
                        )
                    },
                }
            }),
    {
        let ghost before = self@;
        if self.single {
            return Err(TenantAdminError::SingleTenantMode);
        }
        let ghost name = id@;
        let namespace: u64;
        match self.find(&id) {
            Some(i) => {
                assert(before.entries[i as int] == self.entries@[i as int]@);
                namespace = self.entries[i].namespace;
                let mut accounts = objects.tenant_accounts(namespace);
                if !self.entries[i].registered {
                    if !accounts.is_empty() {
                        return Err(TenantAdminError::TenantNotEmpty);
                    }
                    if self.entries[i].generation >= TENANT_MAX_GENERATION {
                        return Err(TenantAdminError::NamespaceExhausted);
                    }
                    let generation: u64 = self.entries[i].generation + 1;
                    self.set_entry(i, generation, true);
                    proof {
                        lemma_tenant_position(self@, i as int);
                    }
                }
                accounts.memory.requested = policy.quota.memory_bytes;
                accounts.nof.requested = policy.quota.nof_bytes;
                objects.set_tenant_accounts(namespace, accounts);
            },
            None => {
                namespace = self.next_namespace;
                if namespace == u64::MAX {
                    return Err(TenantAdminError::NamespaceExhausted);
                }
                proof {
                    lemma_joined_wf(before, id@);
                }
                self.join(id);
                objects.set_tenant_accounts(namespace, TenantAccounts::new(policy.quota()));
            },
        }
        self.recompute_quotas(objects, pool);
        proof {
            let p = self@.position(name).unwrap();
            lemma_tenant_position(self@, p);
        }
        match self.find_holder(namespace) {
            Some(i) => Ok(self.resolved(i)),
            None => {
                assert(false);
                Err(TenantAdminError::TenantNotRegistered)
            },
        }
    }

    /// Changes the generation and state of a tenant.
    fn set_entry(&mut self, i: usize, generation: u64, registered: bool)
        requires
            old(self).wf(),
            i < old(self)@.entries.len(),
            1 <= generation <= TENANT_MAX_GENERATION,
        ensures
            final(self).wf(),
            final(self)@ == old(self)@.with_entry(
                i as int,
                TenantEntryView { generation, registered, ..old(self)@.entries[i as int] },
            ),
    {
        let ghost before = self@;
        assert(before.entries[i as int] == self.entries@[i as int]@);
        let entry = TenantEntry {
            id: self.entries[i].id.duplicate(),
            namespace: self.entries[i].namespace,
            generation,
            registered,
        };
        let ghost changed = entry@;
        self.entries.set(i, entry);
        proof {
            assert(self@.entries =~= before.entries.update(i as int, changed));
            lemma_changed_wf(before, i as int, changed);
        }
    }

    /// Removes a tenant that stores nothing.
    pub(super) fn delete(&mut self, objects: &mut ObjectManager, pool: &SegmentPool, id: &TenantId) -> (deleted: Result<
        (),
        TenantAdminError,
    >)
        requires
            old(self).wf(),
            old(objects).wf(),
            pool.wf(),
        ensures
            final(self).wf(),
            final(objects).wf(),
            ({
                let before = tenancy_of(old(self)@, old(objects)@.catalog.accounts);
                let after = before.deleted(id@, pool@);
                match before.delete_fault(id@) {
                    Some(fault) => {
                        &&& deleted == Err::<(), TenantAdminError>(fault)
                        &&& final(self)@ == old(self)@
                        &&& final(objects)@ == old(objects)@
                    },
                    None => {
                        &&& deleted is Ok
                        &&& final(self)@ == after.tenants
                        &&& final(objects)@ == old(objects)@.with_accounts(after.accounts)
                    },
                }
            }),
    {
        let ghost before = self@;
        if self.single {
            return Err(TenantAdminError::SingleTenantMode);
        }
        let i: usize = match self.find(id) {
            Some(i) => i,
            None => return Err(TenantAdminError::TenantNotRegistered),
        };
        assert(before.entries[i as int] == self.entries@[i as int]@);
        if !self.entries[i].registered {
            return Err(TenantAdminError::TenantNotRegistered);
        }
        let namespace: u64 = self.entries[i].namespace;
        let mut accounts = objects.tenant_accounts(namespace);
        if !accounts.is_empty() {
            return Err(TenantAdminError::TenantNotEmpty);
        }
        let generation: u64 = self.entries[i].generation;
        self.set_entry(i, generation, false);
        accounts.memory.effective = 0;
        objects.set_tenant_accounts(namespace, accounts);
        self.recompute_quotas(objects, pool);
        Ok(())
    }

    /// Works quotas out anew if the segments have changed.
    pub(super) fn refresh_capacity(&mut self, objects: &mut ObjectManager, pool: &SegmentPool)
        requires
            old(self).wf(),
            old(objects).wf(),
            pool.wf(),
        ensures
            final(self).wf(),
            final(objects).wf(),
            ({
                let after = tenancy_of(old(self)@, old(objects)@.catalog.accounts).refreshed(pool@);
                &&& final(self)@ == after.tenants
                &&& final(objects)@ == old(objects)@.with_accounts(after.accounts)
            }),
    {
        if self.single || self.capacity_generation == pool.direct_capacity_epoch() {
            return ;
        }
        self.recompute_quotas(objects, pool);
    }

    /// Works quotas out anew.
    fn recompute_quotas(&mut self, objects: &mut ObjectManager, pool: &SegmentPool)
        requires
            old(self).wf(),
            old(objects).wf(),
            pool.wf(),
        ensures
            final(self).wf(),
            final(objects).wf(),
            ({
                let after = tenancy_of(old(self)@, old(objects)@.catalog.accounts).recomputed(
                    pool@,
                );
                &&& final(self)@ == after.tenants
                &&& final(objects)@ == old(objects)@.with_accounts(after.accounts)
            }),
    {
        let ghost before = objects@;
        let capacity: u64 = pool.capacity_for(ReplicaClass::Memory).capacity_bytes();
        let namespaces = self.registered();
        let mut requested: Vec<u64> = Vec::new();
        let mut i: usize = 0;
        let ghost asked = requests(before.catalog.accounts, namespaces@);
        while i < namespaces.len()
            invariant
                i <= namespaces@.len(),
                asked == requests(objects@.catalog.accounts, namespaces@),
                requested@ == asked.take(i as int),
            decreases namespaces@.len() - i,
        {
            requested.push(objects.tenant_accounts(namespaces[i]).memory.requested);
            i = i + 1;
            assert(requested@ =~= asked.take(i as int));
        }
        assert(asked.take(i as int) =~= asked);
        let promises = distribute_effective_quota(&requested, capacity);
        assert(promises@.len() == namespaces@.len());
        let mut i: usize = 0;
        proof {
            assert(before == before.with_accounts(before.catalog.accounts));
            assert(namespaces@.take(0) =~= Seq::empty());
        }
        while i < namespaces.len()
            invariant
                i <= namespaces@.len(),
                promises@.len() == namespaces@.len(),
                objects.wf(),
                objects@ == before.with_accounts(
                    with_promises(
                        before.catalog.accounts,
                        namespaces@.take(i as int),
                        promises@.take(i as int),
                    ),
                ),
            decreases namespaces@.len() - i,
        {
            proof {
                assert(namespaces@.take(i as int + 1).drop_last() =~= namespaces@.take(i as int));
                assert(promises@.take(i as int + 1).drop_last() =~= promises@.take(i as int));
            }
            let mut accounts = objects.tenant_accounts(namespaces[i]);
            accounts.memory.effective = promises[i];
            objects.set_tenant_accounts(namespaces[i], accounts);
            i = i + 1;
        }
        assert(namespaces@.take(i as int) =~= namespaces@);
        assert(promises@.take(i as int) =~= promises@);
        let ghost after = objects@.catalog.accounts;
        let mut in_debt_found = false;
        let mut i: usize = 0;
        while i < namespaces.len()
            invariant
                i <= namespaces@.len(),
                after == objects@.catalog.accounts,
                in_debt_found == exists|j: int|
                    0 <= j < i && in_debt(after[#[trigger] namespaces@[j]].memory),
            decreases namespaces@.len() - i,
        {
            let account = objects.tenant_accounts(namespaces[i]).memory;
            let indebted = account.demand > account.effective.saturating_add(account.retiring);
            assert(indebted == in_debt(after[namespaces@[i as int]].memory));
            if indebted {
                in_debt_found = true;
            }
            i = i + 1;
        }
        self.reclaim_hint = in_debt_found;
        self.capacity_generation = pool.direct_capacity_epoch();
    }

    /// The namespaces of the tenants that are registered, in the order of their
    /// ids.
    pub(super) fn registered(&self) -> (namespaces: Vec<u64>)
        ensures
            namespaces@ == registered_namespaces(self@.entries),
    {
        let mut namespaces: Vec<u64> = Vec::new();
        let mut i: usize = 0;
        assert(self@.entries.take(0) =~= Seq::empty());
        while i < self.entries.len()
            invariant
                i <= self.entries@.len(),
                namespaces@ == registered_namespaces(self@.entries.take(i as int)),
            decreases self.entries@.len() - i,
        {
            proof {
                assert(self@.entries[i as int] == self.entries@[i as int]@);
                assert(self@.entries.take(i as int + 1).drop_last() =~= self@.entries.take(
                    i as int,
                ));
            }
            if self.entries[i].registered {
                namespaces.push(self.entries[i].namespace);
            }
            i = i + 1;
        }
        assert(self@.entries.take(i as int) =~= self@.entries);
        namespaces
    }

    /// What a registered tenant looks like.
    pub(super) fn snapshot(&self, objects: &ObjectManager, id: &TenantId) -> (snapshot: Option<
        TenantSnapshot,
    >)
        requires
            self.wf(),
        ensures
            match self@.position(id@) {
                Some(i) => if self@.entries[i].registered && !self@.single {
                    snapshot matches Some(shown) && shown@ == self@.entries[i].shown(
                        objects@.catalog.accounts[self@.entries[i].namespace],
                    )
                } else {
                    snapshot is None
                },
                None => snapshot is None,
            },
    {
        if self.single {
            return None;
        }
        match self.find(id) {
            Some(i) => {
                assert(self@.entries[i as int] == self.entries@[i as int]@);
                if !self.entries[i].registered {
                    return None;
                }
                Some(self.shown(objects, i))
            },
            None => None,
        }
    }

    fn shown(&self, objects: &ObjectManager, i: usize) -> (snapshot: TenantSnapshot)
        requires
            i < self@.entries.len(),
        ensures
            snapshot@ == self@.entries[i as int].shown(
                objects@.catalog.accounts[self@.entries[i as int].namespace],
            ),
    {
        assert(self@.entries[i as int] == self.entries@[i as int]@);
        let entry = &self.entries[i];
        let accounts = objects.tenant_accounts(entry.namespace);
        let memory = accounts.memory.snapshot();
        let nof = accounts.nof.snapshot();
        TenantSnapshot {
            id: entry.id.duplicate(),
            namespace: NamespaceId::new(entry.namespace),
            generation: entry.generation,
            policy: TenantPolicy::new(
                TenantQuotaLimits::new(memory.requested_bytes, nof.requested_bytes),
            ),
            memory,
            nof,
        }
    }

    /// What the registered tenants look like, in the order of their ids.
    pub(super) fn list(&self, objects: &ObjectManager) -> (tenants: Vec<TenantSnapshot>)
        requires
            self.wf(),
        ensures
            tenants@.map_values(|tenant: TenantSnapshot| tenant@) == tenancy_of(
                self@,
                objects@.catalog.accounts,
            ).listed(),
    {
        let ghost accounts = objects@.catalog.accounts;
        let ghost show = |tenant: TenantSnapshot| tenant@;
        let mut tenants: Vec<TenantSnapshot> = Vec::new();
        let mut i: usize = 0;
        proof {
            assert(self@.entries.take(0) =~= Seq::empty());
            assert(tenants@.map_values(show) =~= Seq::empty());
        }
        while i < self.entries.len()
            invariant
                i <= self.entries@.len(),
                accounts == objects@.catalog.accounts,
                show == (|tenant: TenantSnapshot| tenant@),
                tenants@.map_values(show) == shown_tenants(
                    self@.entries.take(i as int),
                    accounts,
                ),
            decreases self.entries@.len() - i,
        {
            let ghost before = tenants@;
            proof {
                assert(self@.entries[i as int] == self.entries@[i as int]@);
                assert(self@.entries.take(i as int + 1).drop_last() =~= self@.entries.take(
                    i as int,
                ));
            }
            if self.entries[i].registered {
                tenants.push(self.shown(objects, i));
                assert(tenants@.map_values(show) =~= before.map_values(show).push(
                    tenants@.last()@,
                ));
            }
            i = i + 1;
        }
        assert(self@.entries.take(i as int) =~= self@.entries);
        tenants
    }

    /// What tenants hold beyond their promises. Where none does, the next call
    /// need not look.
    pub(super) fn reclaim_targets(&mut self, objects: &ObjectManager) -> (targets: Vec<
        ReclaimTarget,
    >)
        requires
            old(self).wf(),
        ensures
            final(self).wf(),
            ({
                let before = tenancy_of(old(self)@, objects@.catalog.accounts);
                &&& before.reclaims(targets@)
                &&& final(self)@ == before.reclaim_asked(targets@).tenants
            }),
    {
        let mut targets: Vec<ReclaimTarget> = Vec::new();
        if self.single || !self.reclaim_hint {
            return targets;
        }
        let namespaces = self.registered();
        let ghost accounts = objects@.catalog.accounts;
        proof {
            lemma_registered_distinct(self@, self@.entries.len() as int);
            assert(self@.entries.take(self@.entries.len() as int) =~= self@.entries);
        }
        let mut i: usize = 0;
        while i < namespaces.len()
            invariant
                i <= namespaces@.len(),
                accounts == objects@.catalog.accounts,
                forall|a: int, b: int|
                    0 <= a < b < namespaces@.len() ==> (#[trigger] namespaces@[a]) != (
                    #[trigger] namespaces@[b]),
                lists_overdrafts(accounts, namespaces@.take(i as int), targets@),
            decreases namespaces@.len() - i,
        {
            let namespace: u64 = namespaces[i];
            let account = objects.tenant_accounts(namespace).memory;
            let bytes: u64 = account.demand.saturating_sub(account.retiring).saturating_sub(
                account.effective,
            );
            assert(bytes == overdraft(account));
            let ghost before = targets@;
            if bytes > 0 {
                let target = ReclaimTarget {
                    filter: ReclaimFilter::Scope {
                        namespace: NamespaceId::new(namespace),
                        replica_class: ReplicaClass::Memory,
                    },
                    bytes,
                };
                put_target(&mut targets, target, Ghost(accounts), Ghost(namespaces@.take(i as int)));
            }
            proof {
                assert(namespaces@.take(i as int + 1) =~= namespaces@.take(i as int).push(
                    namespace,
                ));
                lemma_overdraft_noted(accounts, namespaces@.take(i as int), before, namespace);
            }
            i = i + 1;
        }
        assert(namespaces@.take(i as int) =~= namespaces@);
        self.reclaim_hint = targets.len() > 0;
        targets
    }
}

/// A tenant that holds no more than it is promised needs no target.
proof fn lemma_overdraft_noted(
    accounts: Accounts,
    namespaces: Seq<u64>,
    targets: Seq<ReclaimTarget>,
    namespace: u64,
)
    requires
        lists_overdrafts(accounts, namespaces, targets),
    ensures
        overdraft(accounts[namespace].memory) == 0 ==> lists_overdrafts(
            accounts,
            namespaces.push(namespace),
            targets,
        ),
{
    let more = namespaces.push(namespace);
    assert forall|other: u64| more.contains(other) == (namespaces.contains(other) || other
        == namespace) by {
        if namespaces.contains(other) {
            let i = choose|i: int| 0 <= i < namespaces.len() && namespaces[i] == other;
            assert(more[i] == other);
        }
        assert(more[namespaces.len() as int] == namespace);
    }
}

/// Puts the target of one more tenant where it belongs.
fn put_target(
    targets: &mut Vec<ReclaimTarget>,
    target: ReclaimTarget,
    accounts: Ghost<Accounts>,
    namespaces: Ghost<Seq<u64>>,
)
    requires
        lists_overdrafts(accounts@, namespaces@, old(targets)@),
        overdraft(accounts@[target_scope(target)].memory) > 0,
        target == target_for(target_scope(target), accounts@[target_scope(target)].memory),
        !namespaces@.contains(target_scope(target)),
    ensures
        lists_overdrafts(accounts@, namespaces@.push(target_scope(target)), final(targets)@),
{
    let ghost before = targets@;
    let ghost namespace = target_scope(target);
    let scope: u64 = scope_of(&target);
    let mut place: usize = targets.len();
    while place > 0 && scope_of(&targets[place - 1]) > scope
        invariant
            place <= targets@.len(),
            targets@ == before,
            forall|k: int| place <= k < before.len() ==> target_scope(#[trigger] before[k]) > scope,
        decreases place,
    {
        place = place - 1;
    }
    targets.insert(place, target);
    proof {
        let after = targets@;
        let more = namespaces@.push(namespace);
        assert forall|other: u64| more.contains(other) == (namespaces@.contains(other) || other
            == namespace) by {
            if namespaces@.contains(other) {
                let i = choose|i: int| 0 <= i < namespaces@.len() && namespaces@[i] == other;
                assert(more[i] == other);
            }
            assert(more[namespaces@.len() as int] == namespace);
        }
        assert forall|k: int| 0 <= k < place implies target_scope(#[trigger] before[k])
            < namespace by {
            assert(namespaces@.contains(target_scope(before[k])));
            assert(target_scope(before[place - 1]) <= scope);
            assert(namespaces@.contains(target_scope(before[place - 1])));
        }
        assert forall|i: int, j: int| 0 <= i < j < after.len() implies target_scope(
            #[trigger] after[i],
        ) < target_scope(#[trigger] after[j]) by {
            let a = if i < place { i } else { i - 1 };
            let b = if j < place { j } else { j - 1 };
            if i != place {
                assert(after[i] == before[a]);
            }
            if j != place {
                assert(after[j] == before[b]);
            }
        }
        assert forall|k: int| 0 <= k < after.len() implies {
            let found = target_scope(#[trigger] after[k]);
            &&& more.contains(found)
            &&& overdraft(accounts@[found].memory) > 0
            &&& after[k] == target_for(found, accounts@[found].memory)
        } by {
            if k != place {
                let a = if k < place { k } else { k - 1 };
                assert(after[k] == before[a]);
            }
        }
        assert forall|other: u64| #[trigger]
            more.contains(other) && overdraft(accounts@[other].memory) > 0 implies exists|k: int|
            0 <= k < after.len() && target_scope(#[trigger] after[k]) == other by {
            if other == namespace {
                assert(target_scope(after[place as int]) == other);
            } else {
                assert(namespaces@.contains(other));
                let k = choose|k: int|
                    0 <= k < before.len() && target_scope(#[trigger] before[k]) == other;
                let a = if k < place { k } else { k + 1 };
                assert(after[a] == before[k]);
            }
        }
    }
}

/// The namespace that a target is about.
fn scope_of(target: &ReclaimTarget) -> (scope: u64)
    ensures
        scope == target_scope(*target),
{
    match target.filter {
        ReclaimFilter::Scope { namespace, replica_class: _ } => namespace.value,
        _ => 0,
    }
}

} // verus!
