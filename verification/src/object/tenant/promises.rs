//! What tenants are promised of their quotas and handles.

use super::manager::{
    batch_count, batch_total, charge_of, lifted, TenantPutRequest, TenantWrite,
};
use super::quota::{
    charge_shrunk, charge_stepped, effective_quotas, reservation_released, short_of, sum, Accounts,
    ChargePhase, ChargeStep, QuotaAccount, QuotaReservationGuard,
    TenantAccounts, TenantQuotaCharge,
};
use super::registry::{
    in_debt, overdraft, place_for, registered_namespaces, requests, target_for, target_scope,
    with_effective, with_promises, ResolvedTenant, Tenancy, TenantEntryView, TenantsView,
};
use super::types::{TenantAdminError, TenantObjectError, TenantPolicy, TenantResourceClass};
use crate::client::lifecycle::RegistryView;
use crate::object::error::ObjectManagerError;
use crate::object::identity::NamespaceId;
use crate::object::manager::{ObjectPutPlan, PreparedPut, StartedPut, Store};
use crate::object::reclamation::{ReclaimFilter, ReclaimTarget};
use crate::segment::pool::PoolView;
use crate::segment::spec::ReplicaClass;
use crate::text::{lemma_text_order, text_before};
use vstd::prelude::*;

verus! {

/// A request is admitted exactly where it fits beside what is demanded already, and
/// adds to the demand alone. A refusal says what was asked for, what is demanded and
/// what is promised.
pub proof fn law_admission(account: QuotaAccount, class: TenantResourceClass, bytes: u64)
    ensures
        account.admits(bytes) <==> account.demand + bytes <= account.effective,
        account.admits(bytes) ==> account.admitted(bytes).demand == account.demand + bytes,
        account.admitted(bytes).used == account.used,
        account.admitted(bytes).retiring == account.retiring,
        account.admitted(bytes).effective == account.effective,
        account.admitted(bytes).requested == account.requested,
        account.refusal(class, bytes) == (TenantObjectError::TenantQuotaExceeded {
            class,
            requested_bytes: bytes,
            demand_bytes: account.demand,
            effective_bytes: account.effective,
        }),
{
}

/// What a charge does on its way: committing turns demand into use, retiring notes
/// what is on its way out, and releasing takes the charge out wherever it was counted.
/// Aborting takes it out of the demand. None of them changes what is promised.
pub proof fn law_charges_on_their_way(account: QuotaAccount, phase: ChargePhase, bytes: u64)
    requires
        bytes <= account.demand,
        account.used + bytes <= u64::MAX,
        account.retiring + bytes <= u64::MAX,
    ensures
        ({
            let committed = account.stepped(phase, ChargeStep::Commit, bytes);
            let aborted = account.stepped(phase, ChargeStep::Abort, bytes);
            let retired = account.stepped(phase, ChargeStep::Retire, bytes);
            let released = account.stepped(phase, ChargeStep::Release, bytes);
            &&& committed.used == account.used + bytes && committed.demand == account.demand
                && committed.retiring == account.retiring
            &&& aborted.demand == account.demand - bytes && aborted.used == account.used
                && aborted.retiring == account.retiring
            &&& retired.retiring == account.retiring + bytes && retired.demand == account.demand
                && retired.used == account.used
            &&& phase == ChargePhase::Released ==> released == account
            &&& phase != ChargePhase::Released ==> released.demand == account.demand - bytes
            &&& phase == ChargePhase::Reserved ==> released.used == account.used
                && released.retiring == account.retiring
            &&& phase == ChargePhase::Committed && bytes <= account.used ==> released.used
                == account.used - bytes && released.retiring == account.retiring
            &&& phase == ChargePhase::Retiring && bytes <= account.used && bytes
                <= account.retiring ==> released.used == account.used - bytes && released.retiring
                == account.retiring - bytes
            &&& committed.effective == account.effective && aborted.effective == account.effective
                && retired.effective == account.effective && released.effective
                == account.effective
            &&& bytes <= account.used ==> account.shrunk(bytes).used == account.used - bytes
                && account.shrunk(bytes).demand == account.demand - bytes
                && account.shrunk(bytes).retiring == account.retiring
        }),
{
}

/// A charge that moves changes its own tenant's account of its own class.
pub proof fn law_charges_stay_with_their_tenant(
    accounts: Accounts,
    charge: TenantQuotaCharge,
    class: TenantResourceClass,
    step: ChargeStep,
    bytes: u64,
    other: u64,
)
    requires
        other != charge.tenant,
    ensures
        charge_stepped(accounts, charge, class, step, bytes)[other] == accounts[other],
        charge_shrunk(accounts, charge, class, bytes)[other] == accounts[other],
        reservation_released(accounts, charge.tenant, class, bytes)[other] == accounts[other],
        class == TenantResourceClass::Memory ==> charge_stepped(
            accounts,
            charge,
            class,
            step,
            bytes,
        )[charge.tenant].nof == accounts[charge.tenant].nof,
        class == TenantResourceClass::Nof ==> charge_stepped(
            accounts,
            charge,
            class,
            step,
            bytes,
        )[charge.tenant].memory == accounts[charge.tenant].memory,
        class == TenantResourceClass::Memory ==> charge_shrunk(
            accounts,
            charge,
            class,
            bytes,
        )[charge.tenant].nof == accounts[charge.tenant].nof,
        charge.after(step).tenant == charge.tenant,
        charge.after(ChargeStep::Commit).phase == ChargePhase::Committed,
        charge.after(ChargeStep::Retire).phase == ChargePhase::Retiring,
        charge.after(ChargeStep::Abort).phase == ChargePhase::Released,
        charge.after(ChargeStep::Release).phase == ChargePhase::Released,
{
}

proof fn lemma_short_of_grows(requested: Seq<u64>, capacity: u64, all: int, i: int, j: int)
    requires
        0 <= i <= j <= requested.len(),
    ensures
        short_of(requested.take(i), capacity, all) <= short_of(requested.take(j), capacity, all),
    decreases j - i,
{
    if i < j {
        lemma_short_of_grows(requested, capacity, all, i, j - 1);
        assert(requested.take(j).drop_last() =~= requested.take(j - 1));
    }
}

/// Where tenants ask for more than there is, each is promised its part of the
/// capacity, in proportion to what it asks for, rounded down or up by one byte; and
/// earlier tenants are rounded up before later ones.
pub proof fn law_promises_are_in_proportion(requested: Seq<u64>, capacity: u64, i: int, j: int)
    requires
        sum(requested) > capacity,
        0 <= i < j < requested.len(),
    ensures
        ({
            let all = sum(requested);
            let promised = effective_quotas(requested, capacity);
            let part = |k: int| (requested[k] * capacity) / all;
            &&& promised.len() == requested.len()
            &&& part(i) <= promised[i] <= part(i) + 1
            &&& part(j) <= promised[j] <= part(j) + 1
            &&& promised[i] <= requested[i]
            &&& promised[j] <= requested[j]
            &&& promised[j] == part(j) + 1 && part(i) < requested[i] ==> promised[i] == part(i) + 1
        }),
{
    let all = sum(requested);
    lemma_part_fits(requested[i], capacity, all);
    lemma_part_fits(requested[j], capacity, all);
    lemma_short_of_grows(requested, capacity, all, i, j);
}

proof fn lemma_part_fits(requested: u64, capacity: u64, all: int)
    requires
        all > capacity,
    ensures
        0 <= (requested * capacity) / all <= requested,
{
    assert(0 <= (requested * capacity) / all <= requested) by (nonlinear_arith)
        requires
            all > capacity,
            capacity >= 0,
            requested >= 0,
    ;
}

/// What a tenant is to give back is what it demands beyond what is promised and what
/// is on its way out already; and it is in debt exactly where that is something.
pub proof fn law_overdraft(account: QuotaAccount)
    ensures
        account.demand > account.retiring + account.effective ==> overdraft(account)
            == account.demand - account.retiring - account.effective,
        account.demand <= account.retiring + account.effective ==> overdraft(account) == 0,
        in_debt(account) <==> account.demand > account.retiring + account.effective,
{
}

proof fn lemma_promises_set(accounts: Accounts, namespaces: Seq<u64>, promises: Seq<u64>, tenant: u64)
    requires
        namespaces.len() == promises.len(),
    ensures
        ({
            let after = with_promises(accounts, namespaces, promises)[tenant];
            let was = accounts[tenant];
            &&& after.nof == was.nof
            &&& after.memory.requested == was.memory.requested
            &&& after.memory.demand == was.memory.demand
            &&& after.memory.used == was.memory.used
            &&& after.memory.retiring == was.memory.retiring
            &&& !namespaces.contains(tenant) ==> after == was
        }),
    decreases namespaces.len(),
{
    if namespaces.len() > 0 {
        lemma_promises_set(accounts, namespaces.drop_last(), promises.drop_last(), tenant);
        if namespaces.drop_last().contains(tenant) {
            let i = choose|i: int|
                0 <= i < namespaces.drop_last().len() && namespaces.drop_last()[i] == tenant;
            assert(namespaces[i] == tenant);
        }
        if namespaces.last() == tenant {
            assert(namespaces[namespaces.len() - 1] == tenant);
        }
    }
}

proof fn lemma_promise_at(accounts: Accounts, namespaces: Seq<u64>, promises: Seq<u64>, i: int)
    requires
        namespaces.len() == promises.len(),
        0 <= i < namespaces.len(),
        forall|j: int, k: int|
            0 <= j < k < namespaces.len() ==> #[trigger] namespaces[j] != #[trigger] namespaces[k],
    ensures
        with_promises(accounts, namespaces, promises)[namespaces[i]].memory.effective
            == promises[i],
    decreases namespaces.len(),
{
    let fewer = namespaces.drop_last();
    if i < fewer.len() {
        assert(fewer[i] == namespaces[i]);
        assert(namespaces[i] != namespaces[namespaces.len() - 1]);
        lemma_promise_at(accounts, fewer, promises.drop_last(), i);
    }
}

proof fn lemma_registered(entries: Seq<TenantEntryView>, namespace: u64)
    ensures
        registered_namespaces(entries).contains(namespace) <==> exists|i: int|
            0 <= i < entries.len() && (#[trigger] entries[i]).registered && entries[i].namespace
                == namespace,
        forall|k: int|
            0 <= k < registered_namespaces(entries).len() ==> exists|i: int|
                0 <= i < entries.len() && (#[trigger] entries[i]).registered
                    && entries[i].namespace == #[trigger] registered_namespaces(entries)[k],
    decreases entries.len(),
{
    if entries.len() > 0 {
        let fewer = entries.drop_last();
        lemma_registered(fewer, namespace);
        let before = registered_namespaces(fewer);
        let now = registered_namespaces(entries);
        let last = entries.len() - 1;
        if before.contains(namespace) {
            let k = choose|k: int| 0 <= k < before.len() && before[k] == namespace;
            assert(now[k] == namespace);
            let i = choose|i: int|
                0 <= i < fewer.len() && (#[trigger] fewer[i]).registered && fewer[i].namespace
                    == namespace;
            assert(entries[i] == fewer[i]);
        }
        if entries[last].registered && entries[last].namespace == namespace {
            assert(now[now.len() - 1] == namespace);
        }
        if now.contains(namespace) && !before.contains(namespace) {
            let k = choose|k: int| 0 <= k < now.len() && now[k] == namespace;
            assert(k == now.len() - 1);
            assert(entries[last].registered);
        }
        if exists|i: int|
            0 <= i < entries.len() && (#[trigger] entries[i]).registered && entries[i].namespace
                == namespace {
            let i = choose|i: int|
                0 <= i < entries.len() && (#[trigger] entries[i]).registered
                    && entries[i].namespace == namespace;
            if i < last {
                assert(fewer[i] == entries[i]);
            }
        }
        assert forall|k: int| 0 <= k < now.len() implies exists|i: int|
            0 <= i < entries.len() && (#[trigger] entries[i]).registered && entries[i].namespace
                == #[trigger] now[k] by {
            if k < before.len() {
                assert(before[k] == now[k]);
                let i = choose|i: int|
                    0 <= i < fewer.len() && (#[trigger] fewer[i]).registered
                        && fewer[i].namespace == before[k];
                assert(entries[i] == fewer[i]);
            } else {
                assert(entries[last].registered);
            }
        }
    }
}

/// Promises are made anew when the capacity changed, and only then; they are made to
/// registered tenants, and change nothing but what is promised.
pub proof fn law_promises_follow_the_capacity(tenancy: Tenancy, pool: PoolView, namespace: u64)
    ensures
        ({
            let after = tenancy.refreshed(pool);
            let was = tenancy.accounts[namespace];
            let account = after.accounts[namespace];
            &&& tenancy.tenants.single ==> after == tenancy
            &&& tenancy.tenants.capacity_generation == pool.capacity_epoch ==> after == tenancy
            &&& !tenancy.tenants.single ==> after.tenants.capacity_generation
                == pool.capacity_epoch
            &&& after.tenants.entries == tenancy.tenants.entries
            &&& account.memory.requested == was.memory.requested
            &&& account.memory.demand == was.memory.demand
            &&& account.memory.used == was.memory.used
            &&& account.memory.retiring == was.memory.retiring
            &&& account.nof == was.nof
            &&& (forall|i: int|
                0 <= i < tenancy.tenants.entries.len() && (
                #[trigger] tenancy.tenants.entries[i]).registered
                    ==> tenancy.tenants.entries[i].namespace != namespace) ==> account == was
        }),
{
    let namespaces = registered_namespaces(tenancy.tenants.entries);
    let asked = requests(tenancy.accounts, namespaces);
    let promises = effective_quotas(asked, pool.capacity_of(ReplicaClass::Memory));
    lemma_promises_set(tenancy.accounts, namespaces, promises, namespace);
    lemma_registered(tenancy.tenants.entries, namespace);
}

proof fn lemma_registered_differ(entries: Seq<TenantEntryView>)
    requires
        forall|i: int, j: int|
            0 <= i < j < entries.len() ==> (#[trigger] entries[i]).namespace != (
            #[trigger] entries[j]).namespace,
    ensures
        ({
            let namespaces = registered_namespaces(entries);
            forall|i: int, j: int|
                0 <= i < j < namespaces.len() ==> #[trigger] namespaces[i]
                    != #[trigger] namespaces[j]
        }),
    decreases entries.len(),
{
    if entries.len() > 0 {
        let fewer = entries.drop_last();
        let last = entries.len() - 1;
        lemma_registered_differ(fewer);
        lemma_registered(fewer, 0);
        let before = registered_namespaces(fewer);
        let namespaces = registered_namespaces(entries);
        assert forall|i: int, j: int| 0 <= i < j < namespaces.len() implies #[trigger] namespaces[i]
            != #[trigger] namespaces[j] by {
            if j < before.len() {
                assert(before[i] != before[j]);
            } else {
                let k = choose|k: int|
                    0 <= k < fewer.len() && (#[trigger] fewer[k]).registered
                        && fewer[k].namespace == before[i];
                assert(entries[k].namespace != entries[last].namespace);
            }
        }
    }
}

/// When promises are made anew, every registered tenant is promised no more than it
/// asks for, and all that it asks for where there is enough for all.
pub proof fn law_registered_tenants_are_promised(tenancy: Tenancy, pool: PoolView, k: int)
    requires
        tenancy.tenants.wf(),
        !tenancy.tenants.single,
        tenancy.tenants.capacity_generation != pool.capacity_epoch,
        0 <= k < registered_namespaces(tenancy.tenants.entries).len(),
    ensures
        ({
            let namespaces = registered_namespaces(tenancy.tenants.entries);
            let asked = namespaces.map_values(
                |namespace: u64| tenancy.accounts[namespace].memory.requested,
            );
            let account = tenancy.refreshed(pool).accounts[namespaces[k]].memory;
            &&& account.effective <= account.requested
            &&& sum(asked) <= pool.capacity_of(ReplicaClass::Memory) ==> account.effective
                == account.requested
            &&& account.requested == tenancy.accounts[namespaces[k]].memory.requested
        }),
{
    let namespaces = registered_namespaces(tenancy.tenants.entries);
    let asked = requests(tenancy.accounts, namespaces);
    let capacity = pool.capacity_of(ReplicaClass::Memory);
    let promises = effective_quotas(asked, capacity);
    lemma_registered_differ(tenancy.tenants.entries);
    lemma_promise_at(tenancy.accounts, namespaces, promises, k);
    lemma_promises_set(tenancy.accounts, namespaces, promises, namespaces[k]);
    if sum(asked) > capacity {
        lemma_part_fits(asked[k], capacity, sum(asked));
    }
}

/// A tenant is resolved where it is registered, to a handle of its own namespace and
/// generation; a store for a single tenant resolves every name to the one namespace.
/// A handle is valid while its tenant is registered in the same generation.
pub proof fn law_resolving(tenants: TenantsView, id: Seq<char>, handle: ResolvedTenant)
    requires
        tenants.wf(),
    ensures
        tenants.single ==> tenants.resolve_result(id) is Ok && tenants.resolve_result(
            id,
        )->Ok_0.namespace.value == 0 && !tenants.resolve_result(id)->Ok_0.accounted,
        !tenants.single ==> (tenants.resolve_result(id) is Ok <==> exists|i: int|
            0 <= i < tenants.entries.len() && (#[trigger] tenants.entries[i]).id == id
                && tenants.entries[i].registered),
        !tenants.single && tenants.resolve_result(id) is Ok ==> exists|i: int|
            0 <= i < tenants.entries.len() && (#[trigger] tenants.entries[i]).id == id
                && tenants.entries[i].registered && tenants.entries[i].namespace
                == tenants.resolve_result(id)->Ok_0.namespace.value
                && tenants.entries[i].generation == tenants.resolve_result(id)->Ok_0.generation
                && tenants.resolve_result(id)->Ok_0.accounted,
        handle.manager_id != tenants.manager_id ==> !tenants.is_valid(handle),
        handle.accounted == tenants.single ==> !tenants.is_valid(handle),
        !tenants.single && tenants.is_valid(handle) ==> exists|i: int|
            0 <= i < tenants.entries.len() && (#[trigger] tenants.entries[i]).namespace
                == handle.namespace.value && tenants.entries[i].registered
                && tenants.entries[i].generation == handle.generation,
        forall|i: int|
            0 <= i < tenants.entries.len() && (#[trigger] tenants.entries[i]).namespace
                == handle.namespace.value && tenants.entries[i].generation != handle.generation
                && handle.accounted ==> !tenants.is_valid(handle),
{
    if tenants.position(id) is Some {
        let i = tenants.position(id).unwrap();
        assert(tenants.entries[i].id == id);
        assert forall|j: int|
            0 <= j < tenants.entries.len() && (#[trigger] tenants.entries[j]).id == id implies j
            == i by {
            if j < i {
                lemma_text_order(id, id, id);
                assert(text_before(tenants.entries[j].id, tenants.entries[i].id));
            } else if i < j {
                lemma_text_order(id, id, id);
                assert(text_before(tenants.entries[i].id, tenants.entries[j].id));
            }
        }
    }
    if tenants.holder(handle.namespace.value) is Some {
        let i = tenants.holder(handle.namespace.value).unwrap();
        assert(tenants.entries[i].namespace == handle.namespace.value);
    }
}

/// Who may be registered and removed. A store for a single tenant has none to manage.
/// A tenant that was removed comes back only when nothing of its earlier generation is
/// charged any more; and one is removed only where it is registered and nothing of it
/// is charged.
pub proof fn law_registering_and_removing(tenancy: Tenancy, i: int)
    requires
        tenancy.tenants.wf(),
        0 <= i < tenancy.tenants.entries.len(),
    ensures
        ({
            let entry = tenancy.tenants.entries[i];
            let accounts = tenancy.accounts[entry.namespace];
            let charged = accounts.memory.demand > 0 || accounts.nof.demand > 0;
            let upsert = tenancy.upsert_fault(entry.id);
            let delete = tenancy.delete_fault(entry.id);
            &&& entry.registered ==> upsert is None
            &&& !entry.registered && charged ==> upsert == Some(TenantAdminError::TenantNotEmpty)
            &&& !entry.registered ==> delete == Some(TenantAdminError::TenantNotRegistered)
            &&& entry.registered && charged ==> delete == Some(TenantAdminError::TenantNotEmpty)
            &&& entry.registered && !charged ==> delete is None
        }),
{
    let id = tenancy.tenants.entries[i].id;
    let k = tenancy.tenants.position(id).unwrap();
    assert(tenancy.tenants.entries[i].id == id);
    assert(tenancy.tenants.entries[k].id == id);
    lemma_text_order(id, id, id);
    if k < i {
        assert(text_before(tenancy.tenants.entries[k].id, tenancy.tenants.entries[i].id));
    } else if i < k {
        assert(text_before(tenancy.tenants.entries[i].id, tenancy.tenants.entries[k].id));
    }
}

/// What a plan is charged: every replica of a whole request, one replica of a request
/// that takes what it gets; and nothing that cannot be counted.
pub proof fn law_charge_of_a_plan(plan: ObjectPutPlan)
    ensures
        ({
            let bytes = plan.content.logical_bytes;
            let count = plan.placement.replicas.count;
            &&& plan.placement.fulfillment is BestEffort ==> charge_of(plan) == Ok::<
                u64,
                ObjectManagerError,
            >(bytes)
            &&& plan.placement.fulfillment is AllOrNothing && bytes * count <= u64::MAX
                ==> charge_of(plan) is Ok && charge_of(plan)->Ok_0 == bytes * count
            &&& plan.placement.fulfillment is AllOrNothing && bytes * count > u64::MAX
                ==> charge_of(plan) is Err
        }),
{
}

/// A tenant's write is refused, and nothing changes, where its handle is not valid, or
/// where its charge does not fit beside what the tenant demands already.
pub proof fn law_tenant_writes_are_admitted_first(
    store: Store,
    after: Store,
    sessions: RegistryView,
    tenants: TenantsView,
    tenant: ResolvedTenant,
    write: TenantWrite,
    outcome: Result<StartedPut, TenantObjectError>,
)
    requires
        store.tenant_started(after, sessions, tenants, tenant, write, outcome),
    ensures
        ({
            let account = store.manager.catalog.accounts[tenant.namespace.value].memory;
            &&& tenant.manager_id != tenants.manager_id ==> outcome is Err && after == store
            &&& tenant.accounted == tenants.single ==> outcome is Err && after == store
            &&& tenant.accounted && !tenants.is_valid(tenant) ==> outcome is Err && after == store
            &&& tenant.accounted && charge_of(write.plan) is Err ==> outcome is Err && after
                == store
            &&& tenant.accounted && charge_of(write.plan) is Ok && account.demand + charge_of(
                write.plan,
            )->Ok_0 > account.effective ==> outcome is Err && after == store
        }),
{
}

/// A batch is admitted as a whole: its charge is the sum of those of its writes.
pub proof fn law_batches_are_charged_together(requests: Seq<TenantPutRequest>, more: TenantPutRequest)
    ensures
        batch_total(Seq::empty()) == 0,
        batch_count(Seq::empty()) == 0,
        charge_of(more.plan) is Ok ==> batch_total(requests.push(more)) == batch_total(requests)
            + charge_of(more.plan)->Ok_0 && batch_count(requests.push(more)) == batch_count(
            requests,
        ) + 1,
        charge_of(more.plan) is Err ==> batch_total(requests.push(more)) == batch_total(requests)
            && batch_count(requests.push(more)) == batch_count(requests),
{
    assert(requests.push(more).drop_last() =~= requests);
}

/// A batch is refused where the sum of its charges does not fit beside what the tenant
/// demands already; else that sum is demanded.
pub proof fn law_batch_admission(store: Store, namespace: u64, requests: Seq<TenantPutRequest>)
    requires
        batch_count(requests) > 0,
        batch_total(requests) <= u64::MAX,
        batch_total(requests) >= 0,
    ensures
        ({
            let account = store.manager.catalog.accounts[namespace].memory;
            let after = store.batch_admitted(namespace, requests);
            let total = batch_total(requests);
            &&& account.demand + total > account.effective ==> store.batch_fault(
                namespace,
                requests,
            ) is Some && after == store
            &&& account.demand + total <= account.effective ==> store.batch_fault(
                namespace,
                requests,
            ) is None && after.manager.catalog.accounts[namespace].memory.demand == account.demand
                + total
        }),
{
}

/// Registering a tenant for the first time gives it a namespace and a generation of its
/// own and the limits that were asked for; the other tenants stay as they were.
pub proof fn law_new_tenants(tenancy: Tenancy, id: Seq<char>, policy: TenantPolicy, pool: PoolView)
    requires
        tenancy.tenants.wf(),
        tenancy.upsert_fault(id) is None,
        forall|i: int|
            0 <= i < tenancy.tenants.entries.len() ==> (#[trigger] tenancy.tenants.entries[i]).id
                != id,
    ensures
        ({
            let after = tenancy.upserted(id, policy, pool);
            let namespace = tenancy.tenants.next_namespace;
            let account = after.accounts[namespace];
            &&& after.tenants.next_namespace == namespace + 1
            &&& exists|i: int|
                0 <= i < after.tenants.entries.len() && (#[trigger] after.tenants.entries[i]).id
                    == id && after.tenants.entries[i].registered
                    && after.tenants.entries[i].namespace == namespace
                    && after.tenants.entries[i].generation == 1 && after.tenants.entries.remove(i)
                    == tenancy.tenants.entries
            &&& account.memory.requested == policy.quota.memory_bytes
            &&& account.nof.requested == policy.quota.nof_bytes
            &&& account.memory.demand == 0 && account.memory.used == 0 && account.memory.retiring
                == 0
        }),
{
    if tenancy.tenants.position(id) is Some {
        let i = tenancy.tenants.position(id).unwrap();
        assert(tenancy.tenants.entries[i].id == id);
    }
    let joined = tenancy.tenants.joined_by(id);
    let place = place_for(tenancy.tenants.entries, id);
    lemma_place_is_inside(tenancy.tenants.entries, id);
    assert(joined.entries.remove(place) =~= tenancy.tenants.entries);
    assert(joined.entries[place].id == id);
    let started = Tenancy {
        tenants: joined,
        accounts: tenancy.accounts.insert(
            tenancy.tenants.next_namespace,
            TenantAccounts::opened(policy.quota),
        ),
    };
    let namespaces = registered_namespaces(joined.entries);
    lemma_promises_set(
        started.accounts,
        namespaces,
        effective_quotas(
            requests(started.accounts, namespaces),
            pool.capacity_of(ReplicaClass::Memory),
        ),
        tenancy.tenants.next_namespace,
    );
    assert(tenancy.upserted(id, policy, pool).tenants.entries[place].id == id);
}

proof fn lemma_place_is_inside(entries: Seq<TenantEntryView>, id: Seq<char>)
    ensures
        0 <= place_for(entries, id) <= entries.len(),
    decreases entries.len(),
{
    if entries.len() > 0 {
        lemma_place_is_inside(entries.drop_last(), id);
    }
}

/// Registering a tenant again keeps its namespace and takes the new limits; what it
/// holds stays counted. Its generation moves on where it had been removed, and stays
/// where it had not.
pub proof fn law_known_tenants(tenancy: Tenancy, policy: TenantPolicy, pool: PoolView, i: int)
    requires
        tenancy.tenants.wf(),
        0 <= i < tenancy.tenants.entries.len(),
        tenancy.upsert_fault(tenancy.tenants.entries[i].id) is None,
    ensures
        ({
            let was = tenancy.tenants.entries[i];
            let after = tenancy.upserted(was.id, policy, pool);
            let entry = after.tenants.entries[i];
            let held = tenancy.accounts[was.namespace];
            let account = after.accounts[was.namespace];
            &&& entry.id == was.id && entry.namespace == was.namespace && entry.registered
            &&& was.registered ==> entry.generation == was.generation
            &&& !was.registered ==> entry.generation == was.generation + 1
            &&& after.tenants.entries == tenancy.tenants.entries.update(i, entry)
            &&& account.memory.requested == policy.quota.memory_bytes
            &&& account.nof.requested == policy.quota.nof_bytes
            &&& account.memory.demand == held.memory.demand
            &&& account.memory.used == held.memory.used
            &&& account.memory.retiring == held.memory.retiring
        }),
{
    let was = tenancy.tenants.entries[i];
    lemma_only_position(tenancy.tenants, i);
    let changed = if was.registered {
        was
    } else {
        TenantEntryView { generation: (was.generation + 1) as u64, registered: true, ..was }
    };
    assert(tenancy.tenants.entries.update(i, was) =~= tenancy.tenants.entries);
    let tenants = if was.registered {
        tenancy.tenants
    } else {
        tenancy.tenants.with_entry(i, changed)
    };
    let started = Tenancy { tenants, ..tenancy.with_policy(was.namespace, policy) };
    let namespaces = registered_namespaces(tenants.entries);
    lemma_promises_set(
        started.accounts,
        namespaces,
        effective_quotas(
            requests(started.accounts, namespaces),
            pool.capacity_of(ReplicaClass::Memory),
        ),
        was.namespace,
    );
}

proof fn lemma_only_position(tenants: TenantsView, i: int)
    requires
        tenants.wf(),
        0 <= i < tenants.entries.len(),
    ensures
        tenants.position(tenants.entries[i].id) == Some(i),
{
    let id = tenants.entries[i].id;
    assert(tenants.entries[i].id == id);
    let k = tenants.position(id).unwrap();
    assert(tenants.entries[k].id == id);
    lemma_text_order(id, id, id);
    if k < i {
        assert(text_before(tenants.entries[k].id, tenants.entries[i].id));
    } else if i < k {
        assert(text_before(tenants.entries[i].id, tenants.entries[k].id));
    }
}

/// A tenant that is removed is registered no more and promised nothing; its entry, and
/// those of the others, stay.
pub proof fn law_removed_tenants(tenancy: Tenancy, pool: PoolView, i: int)
    requires
        tenancy.tenants.wf(),
        0 <= i < tenancy.tenants.entries.len(),
        tenancy.delete_fault(tenancy.tenants.entries[i].id) is None,
    ensures
        ({
            let was = tenancy.tenants.entries[i];
            let after = tenancy.deleted(was.id, pool);
            let entry = after.tenants.entries[i];
            &&& !entry.registered
            &&& entry.id == was.id && entry.namespace == was.namespace && entry.generation
                == was.generation
            &&& after.tenants.entries == tenancy.tenants.entries.update(i, entry)
            &&& after.accounts[was.namespace].memory.effective == 0
        }),
{
    let was = tenancy.tenants.entries[i];
    lemma_only_position(tenancy.tenants, i);
    let tenants = tenancy.tenants.with_entry(i, TenantEntryView { registered: false, ..was });
    let started = Tenancy { tenants, accounts: with_effective(tenancy.accounts, was.namespace, 0) };
    let namespaces = registered_namespaces(tenants.entries);
    lemma_promises_set(
        started.accounts,
        namespaces,
        effective_quotas(
            requests(started.accounts, namespaces),
            pool.capacity_of(ReplicaClass::Memory),
        ),
        was.namespace,
    );
    lemma_registered(tenants.entries, was.namespace);
    if namespaces.contains(was.namespace) {
        let k = choose|k: int|
            0 <= k < tenants.entries.len() && (#[trigger] tenants.entries[k]).registered
                && tenants.entries[k].namespace == was.namespace;
        if k < i {
            assert(tenancy.tenants.entries[k].namespace != tenancy.tenants.entries[i].namespace);
        } else if i < k {
            assert(tenancy.tenants.entries[i].namespace != tenancy.tenants.entries[k].namespace);
        }
    }
}

/// Overdrawn tenants are asked to give back: where reclaiming is called for, the targets
/// name every registered tenant that demands more than is promised and on its way out,
/// each with just what it is over by, and no other.
pub proof fn law_overdrawn_tenants_are_targets(
    tenancy: Tenancy,
    targets: Seq<ReclaimTarget>,
    i: int,
)
    requires
        tenancy.reclaims(targets),
        !tenancy.tenants.single,
        tenancy.tenants.reclaim_hint,
        0 <= i < tenancy.tenants.entries.len(),
        tenancy.tenants.entries[i].registered,
    ensures
        ({
            let namespace = tenancy.tenants.entries[i].namespace;
            let account = tenancy.accounts[namespace].memory;
            let over = account.demand - account.retiring - account.effective;
            &&& over > 0 ==> exists|k: int|
                0 <= k < targets.len() && (#[trigger] targets[k]).bytes == over
                    && targets[k].filter == (ReclaimFilter::Scope {
                    namespace: NamespaceId { value: namespace },
                    replica_class: ReplicaClass::Memory,
                })
            &&& forall|k: int|
                0 <= k < targets.len() ==> (#[trigger] targets[k]).bytes > 0
            &&& over <= 0 ==> forall|k: int|
                0 <= k < targets.len() ==> (#[trigger] targets[k]).filter != (
                ReclaimFilter::Scope {
                    namespace: NamespaceId { value: namespace },
                    replica_class: ReplicaClass::Memory,
                })
        }),
{
    let namespace = tenancy.tenants.entries[i].namespace;
    let account = tenancy.accounts[namespace].memory;
    let namespaces = registered_namespaces(tenancy.tenants.entries);
    law_overdraft(account);
    lemma_registered(tenancy.tenants.entries, namespace);
    assert(namespaces.contains(namespace));
    assert forall|k: int| 0 <= k < targets.len() implies (#[trigger] targets[k]).bytes > 0 by {
        assert(namespaces.contains(target_scope(targets[k])));
    }
    if account.demand > account.retiring + account.effective {
        let k = choose|k: int|
            0 <= k < targets.len() && target_scope(#[trigger] targets[k]) == namespace;
        assert(targets[k] == target_for(namespace, account));
    } else {
        assert forall|k: int| 0 <= k < targets.len() implies (#[trigger] targets[k]).filter != (
        ReclaimFilter::Scope {
            namespace: NamespaceId { value: namespace },
            replica_class: ReplicaClass::Memory,
        }) by {
            assert(overdraft(tenancy.accounts[target_scope(targets[k])].memory) > 0);
        }
    }
}

/// When promises are made anew, reclaiming is called for exactly where a registered
/// tenant then demands more than is promised and on its way out.
pub proof fn law_debts_call_for_reclaiming(tenancy: Tenancy, pool: PoolView)
    requires
        !tenancy.tenants.single,
        tenancy.tenants.capacity_generation != pool.capacity_epoch,
    ensures
        ({
            let after = tenancy.refreshed(pool);
            let entries = after.tenants.entries;
            after.tenants.reclaim_hint <==> exists|i: int|
                0 <= i < entries.len() && (#[trigger] entries[i]).registered && {
                    let account = after.accounts[entries[i].namespace].memory;
                    account.demand > account.retiring + account.effective
                }
        }),
{
    let after = tenancy.refreshed(pool);
    let entries = tenancy.tenants.entries;
    let namespaces = registered_namespaces(entries);
    lemma_registered(entries, 0);
    if after.tenants.reclaim_hint {
        let k = choose|k: int|
            0 <= k < namespaces.len() && in_debt(after.accounts[#[trigger] namespaces[k]].memory);
        law_overdraft(after.accounts[namespaces[k]].memory);
        let i = choose|i: int|
            0 <= i < entries.len() && (#[trigger] entries[i]).registered && entries[i].namespace
                == namespaces[k];
        assert(after.tenants.entries[i].registered);
    }
    if exists|i: int|
        0 <= i < entries.len() && (#[trigger] entries[i]).registered && {
            let account = after.accounts[entries[i].namespace].memory;
            account.demand > account.retiring + account.effective
        } {
        let i = choose|i: int|
            0 <= i < entries.len() && (#[trigger] entries[i]).registered && {
                let account = after.accounts[entries[i].namespace].memory;
                account.demand > account.retiring + account.effective
            };
        lemma_registered(entries, entries[i].namespace);
        law_overdraft(after.accounts[entries[i].namespace].memory);
        let k = choose|k: int|
            0 <= k < namespaces.len() && namespaces[k] == entries[i].namespace;
        assert(in_debt(after.accounts[namespaces[k]].memory));
    }
}

/// A tenant's write is charged for what was placed: where it is started, the demand is
/// what it was without the charge that was admitted, with the object's bytes once for
/// each replica; where it fails, the charge is given back.
pub proof fn law_writes_are_charged_for_what_was_placed(
    store: Store,
    after: Store,
    sessions: RegistryView,
    put: PreparedPut,
    guard: QuotaReservationGuard,
    outcome: Result<StartedPut, TenantObjectError>,
)
    requires
        store.charged(after, sessions, put, guard, outcome),
        guard.class == TenantResourceClass::Memory,
        guard.bytes <= store.manager.catalog.accounts[guard.tenant].memory.demand,
    ensures
        ({
            let was = store.manager.catalog.accounts[guard.tenant].memory;
            let account = after.manager.catalog.accounts[guard.tenant].memory;
            let bytes = put.content.logical_bytes * put.replicas@.len();
            &&& outcome is Ok ==> account.demand == was.demand - guard.bytes + bytes
            &&& outcome is Ok && bytes > guard.bytes ==> was.demand - guard.bytes + bytes
                <= was.effective
            &&& outcome is Err ==> account.demand == was.demand - guard.bytes
            &&& account.effective == was.effective && account.used == was.used
        }),
{
    let bytes = put.content.logical_bytes * put.replicas@.len();
    let catalog = store.manager.catalog;
    if bytes > u64::MAX || catalog.resize_result(guard, bytes as u64) is Err {
        let middle = choose|middle: Store| #[trigger]
            store.abandoned(middle, put.claim, put.replicas@) && after == middle.quota_returned(
                guard,
            );
        assert(middle.manager.catalog.accounts == catalog.accounts);
    } else {
        let resized = catalog.resized(guard, bytes as u64);
        let started = store.with_catalog(resized);
        let staged = choose|staged: Result<StartedPut, ObjectManagerError>|
            {
                &&& #[trigger] started.finalized(
                    after,
                    sessions,
                    put.claim,
                    put.content,
                    put.replicas@,
                    Some(QuotaReservationGuard { bytes: bytes as u64, ..guard }),
                    staged,
                )
                &&& outcome == lifted(staged)
            };
        let fault = resized.stage_fault(
            store.pool,
            sessions,
            put.claim,
            put.content,
            put.replicas@,
        );
        assert(fault is Some <==> staged is Err);
    }
}

} // verus!
