//! What holds of tenants and their quotas over several operations.

use super::quota::{
    effective_quotas, share, short_of, sum, sum_of_shares, ChargePhase, ChargeStep, QuotaAccount,
};
use super::registry::{
    lemma_tenant_position, ResolvedTenant, Tenancy, TenantEntryView, TenantsView,
    TENANT_MAX_GENERATION,
};
use super::types::{TenantObjectError, TenantPolicy};
use crate::segment::pool::PoolView;
use crate::text::text_before;
use vstd::prelude::*;

verus! {

/// The sum of the first promises.
proof fn lemma_promised_sum(requested: Seq<u64>, capacity: u64, n: int)
    requires
        0 <= n <= requested.len(),
        sum(requested) > capacity,
    ensures
        ({
            let all = sum(requested);
            let left = capacity - sum_of_shares(requested, capacity, all);
            let short = short_of(requested.take(n), capacity, all);
            &&& sum(effective_quotas(requested, capacity).take(n)) == sum_of_shares(
                requested.take(n),
                capacity,
                all,
            ) + if short < left {
                short
            } else if left > 0 {
                left
            } else {
                0
            }
            &&& short >= 0
        }),
    decreases n,
{
    let all = sum(requested);
    let left = capacity - sum_of_shares(requested, capacity, all);
    let promised = effective_quotas(requested, capacity);
    if n > 0 {
        lemma_promised_sum(requested, capacity, n - 1);
        assert(requested.take(n).drop_last() =~= requested.take(n - 1));
        assert(requested.take(n).last() == requested[n - 1]);
        assert(promised.take(n).drop_last() =~= promised.take(n - 1));
        lemma_one_share(requested[n - 1], capacity, all);
    } else {
        assert(promised.take(0) =~= Seq::empty());
        assert(requested.take(0) =~= Seq::empty());
    }
}

/// A share of too small a capacity.
proof fn lemma_one_share(requested: u64, capacity: u64, all: int)
    requires
        capacity < all,
    ensures
        0 <= share(requested, capacity, all) <= requested,
        requested > 0 ==> share(requested, capacity, all) < requested,
        share(requested, capacity, all) * all <= requested * capacity,
        requested * capacity < (share(requested, capacity, all) + 1) * all,
        requested == 0 ==> share(requested, capacity, all) * all == requested * capacity,
{
    let product = requested * capacity;
    assert(0 <= product) by (nonlinear_arith)
        requires
            product == requested * capacity,
            0 <= requested,
            0 <= capacity,
    ;
    vstd::arithmetic::div_mod::lemma_fundamental_div_mod(product, all);
    vstd::arithmetic::div_mod::lemma_mod_bound(product, all);
    vstd::arithmetic::div_mod::lemma_div_pos_is_pos(product, all);
    let part = product / all;
    assert(part <= requested && (requested > 0 ==> part < requested)) by (nonlinear_arith)
        requires
            product == all * part + product % all,
            product % all >= 0,
            product == requested * capacity,
            capacity < all,
            0 <= capacity,
            0 <= requested,
            part >= 0,
    ;
    assert(part * all <= product && product < (part + 1) * all) by (nonlinear_arith)
        requires
            product == all * part + product % all,
            0 <= product % all < all,
    ;
    if requested == 0 {
        assert(product == 0) by (nonlinear_arith)
            requires
                product == requested * capacity,
                requested == 0,
        ;
        assert(part * all == 0) by (nonlinear_arith)
            requires
                part == 0,
        ;
    }
}

/// What rounding leaves over is less than a byte for each tenant that gets less
/// than it asks for.
proof fn lemma_left_over(requested: Seq<u64>, capacity: u64, all: int)
    requires
        capacity < all,
    ensures
        sum_of_shares(requested, capacity, all) * all <= sum(requested) * capacity,
        sum(requested) * capacity <= (sum_of_shares(requested, capacity, all) + short_of(
            requested,
            capacity,
            all,
        )) * all,
    decreases requested.len(),
{
    if requested.len() > 0 {
        let rest = requested.drop_last();
        let last = requested.last();
        lemma_left_over(rest, capacity, all);
        lemma_one_share(last, capacity, all);
        let shares = sum_of_shares(rest, capacity, all);
        let short = short_of(rest, capacity, all);
        let part = share(last, capacity, all);
        let more: int = if part < last { 1 } else { 0 };
        assert((sum(rest) + last) * capacity == sum(rest) * capacity + last * capacity)
            by (nonlinear_arith);
        assert((shares + part) * all == shares * all + part * all) by (nonlinear_arith);
        assert((shares + part + (short + more)) * all == (shares + short) * all + (part + more)
            * all) by (nonlinear_arith);
        assert(last * capacity <= (part + more) * all);
    }
}

/// Promises never exceed the capacity together, and no tenant is promised more
/// than it asks for. Where the tenants ask for more than there is, the whole
/// capacity is promised; where they do not, each gets what it asks for.
pub proof fn law_promises_fit_the_capacity(requested: Seq<u64>, capacity: u64)
    ensures
        effective_quotas(requested, capacity).len() == requested.len(),
        sum(effective_quotas(requested, capacity)) <= capacity,
        sum(requested) > capacity ==> sum(effective_quotas(requested, capacity)) == capacity,
        sum(requested) <= capacity ==> effective_quotas(requested, capacity) == requested,
        forall|i: int|
            0 <= i < requested.len() ==> (#[trigger] effective_quotas(requested, capacity)[i])
                <= requested[i],
{
    let all = sum(requested);
    let promised = effective_quotas(requested, capacity);
    if all > capacity {
        let n = requested.len() as int;
        assert(requested.take(n) =~= requested);
        assert(promised.take(n) =~= promised);
        lemma_promised_sum(requested, capacity, n);
        lemma_left_over(requested, capacity, all);
        let shares = sum_of_shares(requested, capacity, all);
        let short = short_of(requested, capacity, all);
        assert(shares <= capacity) by (nonlinear_arith)
            requires
                shares * all <= all * capacity,
                all > 0,
        ;
        assert(capacity <= shares + short) by (nonlinear_arith)
            requires
                all * capacity <= (shares + short) * all,
                all > 0,
        ;
        assert forall|i: int| 0 <= i < requested.len() implies (#[trigger] promised[i])
            <= requested[i] by {
            lemma_one_share(requested[i], capacity, all);
        }
    }
}

/// What is admitted stays within what is promised.
pub proof fn law_admission_stays_within_the_promise(account: QuotaAccount, bytes: u64)
    requires
        account.admits(bytes),
    ensures
        account.admitted(bytes).demand <= account.effective,
        account.admitted(bytes).demand == account.demand + bytes,
{
}

/// An object's charge leaves no trace: after a write was admitted and rolled
/// back or aborted, or committed, retired and released, the account is as it
/// was. The two bounds are the limits of the counters.
pub proof fn law_charge_leaves_no_trace(account: QuotaAccount, bytes: u64)
    requires
        account.demand + bytes <= u64::MAX,
        account.used + bytes <= u64::MAX,
        account.retiring + bytes <= u64::MAX,
    ensures
        account.admitted(bytes).unreserved(bytes) == account,
        account.admitted(bytes).stepped(ChargePhase::Reserved, ChargeStep::Abort, bytes) == account,
        account.admitted(bytes).stepped(ChargePhase::Reserved, ChargeStep::Commit, bytes).stepped(
            ChargePhase::Committed,
            ChargeStep::Release,
            bytes,
        ) == account,
        account.admitted(bytes).stepped(ChargePhase::Reserved, ChargeStep::Commit, bytes).stepped(
            ChargePhase::Committed,
            ChargeStep::Retire,
            bytes,
        ).stepped(ChargePhase::Retiring, ChargeStep::Release, bytes) == account,
{
}

/// A handle that was just given out is valid.
pub proof fn law_resolved_handle_is_valid(tenants: TenantsView, id: Seq<char>)
    requires
        tenants.wf(),
    ensures
        tenants.resolve_result(id) matches Ok(handle) ==> tenants.is_valid(handle),
{
    if !tenants.single && tenants.position(id) is Some {
        lemma_tenant_position(tenants, tenants.position(id).unwrap());
    }
}

/// A tenant that was removed cannot be used through handles that were given out
/// before, and is not resolved.
pub proof fn law_deleted_tenant_is_fenced(
    tenancy: Tenancy,
    id: Seq<char>,
    pool: PoolView,
    handle: ResolvedTenant,
)
    requires
        tenancy.tenants.wf(),
        tenancy.delete_fault(id) is None,
        tenancy.tenants.resolve_result(id) == Ok::<ResolvedTenant, TenantObjectError>(handle),
    ensures
        tenancy.tenants.is_valid(handle),
        !tenancy.deleted(id, pool).tenants.is_valid(handle),
        tenancy.deleted(id, pool).tenants.resolve_result(id) == Err::<
            ResolvedTenant,
            TenantObjectError,
        >(TenantObjectError::TenantNotRegistered),
{
    let i = tenancy.tenants.position(id).unwrap();
    lemma_tenant_position(tenancy.tenants, i);
    let entry = tenancy.tenants.entries[i];
    let changed = TenantEntryView { registered: false, ..entry };
    let after = tenancy.deleted(id, pool).tenants;
    lemma_changed(tenancy.tenants, after, i, changed);
}

/// A tenant that is registered again is another generation: handles from before
/// its removal stay invalid, and the handle that registering gives out is valid.
pub proof fn law_registering_again_starts_a_generation(
    tenancy: Tenancy,
    id: Seq<char>,
    policy: TenantPolicy,
    pool: PoolView,
    earlier: ResolvedTenant,
)
    requires
        tenancy.tenants.wf(),
        tenancy.upsert_fault(id) is None,
        tenancy.tenants.position(id) is Some,
        !tenancy.tenants.entries[tenancy.tenants.position(id).unwrap()].registered,
        earlier.accounted,
        earlier.namespace.value
            == tenancy.tenants.entries[tenancy.tenants.position(id).unwrap()].namespace,
        earlier.generation
            <= tenancy.tenants.entries[tenancy.tenants.position(id).unwrap()].generation,
    ensures
        ({
            let after = tenancy.upserted(id, policy, pool).tenants;
            &&& !after.is_valid(earlier)
            &&& after.position(id) is Some
            &&& after.is_valid(after.handle(after.position(id).unwrap()))
        }),
{
    let i = tenancy.tenants.position(id).unwrap();
    let entry = tenancy.tenants.entries[i];
    lemma_tenant_position(tenancy.tenants, i);
    let changed = TenantEntryView {
        generation: (entry.generation + 1) as u64,
        registered: true,
        ..entry
    };
    let after = tenancy.upserted(id, policy, pool).tenants;
    lemma_changed(tenancy.tenants, after, i, changed);
}

/// Where a tenant stands after its entry was changed.
proof fn lemma_changed(before: TenantsView, after: TenantsView, i: int, changed: TenantEntryView)
    requires
        before.wf(),
        0 <= i < before.entries.len(),
        changed.id == before.entries[i].id,
        changed.namespace == before.entries[i].namespace,
        1 <= changed.generation <= TENANT_MAX_GENERATION,
        after.entries == before.entries.update(i, changed),
        after.next_namespace == before.next_namespace,
        after.single == before.single,
    ensures
        after.wf(),
        after.position(changed.id) == Some(i),
        after.holder(changed.namespace) == Some(i),
{
    assert forall|a: int, b: int| 0 <= a < b < after.entries.len() implies text_before(
        (#[trigger] after.entries[a]).id,
        (#[trigger] after.entries[b]).id,
    ) && after.entries[a].namespace != after.entries[b].namespace by {
        assert(text_before(before.entries[a].id, before.entries[b].id));
    }
    lemma_tenant_position(after, i);
}

/// Removing or changing one tenant leaves the handles of the others as they
/// were.
pub proof fn law_other_tenants_keep_their_handles(
    tenancy: Tenancy,
    id: Seq<char>,
    policy: TenantPolicy,
    pool: PoolView,
    other: ResolvedTenant,
)
    requires
        tenancy.tenants.wf(),
        tenancy.tenants.position(id) is Some,
        other.namespace.value
            != tenancy.tenants.entries[tenancy.tenants.position(id).unwrap()].namespace,
    ensures
        tenancy.delete_fault(id) is None ==> tenancy.deleted(id, pool).tenants.is_valid(other)
            == tenancy.tenants.is_valid(other),
        tenancy.upsert_fault(id) is None ==> tenancy.upserted(id, policy, pool).tenants.is_valid(
            other,
        ) == tenancy.tenants.is_valid(other),
{
    let i = tenancy.tenants.position(id).unwrap();
    lemma_tenant_position(tenancy.tenants, i);
    let entry = tenancy.tenants.entries[i];
    let namespace = other.namespace.value;
    if tenancy.delete_fault(id) is None {
        let changed = TenantEntryView { registered: false, ..entry };
        let after = tenancy.deleted(id, pool).tenants;
        lemma_changed(tenancy.tenants, after, i, changed);
        lemma_same_holder(tenancy.tenants, after, i, namespace);
    }
    if tenancy.upsert_fault(id) is None && !entry.registered {
        let changed = TenantEntryView {
            generation: (entry.generation + 1) as u64,
            registered: true,
            ..entry
        };
        let after = tenancy.upserted(id, policy, pool).tenants;
        lemma_changed(tenancy.tenants, after, i, changed);
        lemma_same_holder(tenancy.tenants, after, i, namespace);
    }
    if tenancy.upsert_fault(id) is None && entry.registered {
        let after = tenancy.upserted(id, policy, pool).tenants;
        assert(after.entries == tenancy.tenants.entries);
        lemma_same_holder(tenancy.tenants, after, i, namespace);
    }
}

/// Another namespace belongs to whom it belonged.
proof fn lemma_same_holder(before: TenantsView, after: TenantsView, i: int, namespace: u64)
    requires
        before.wf(),
        after.wf(),
        0 <= i < before.entries.len(),
        after.entries.len() == before.entries.len(),
        forall|j: int|
            0 <= j < before.entries.len() && j != i ==> (#[trigger] after.entries[j])
                == before.entries[j],
        before.entries[i].namespace != namespace,
        after.entries[i].namespace != namespace,
    ensures
        match before.holder(namespace) {
            Some(j) => after.holder(namespace) == Some(j) && j != i && after.entries[j]
                == before.entries[j],
            None => after.holder(namespace) is None,
        },
{
    if before.holder(namespace) is Some {
        let j = before.holder(namespace).unwrap();
        assert(before.entries[j].namespace == namespace);
        assert(after.entries[j] == before.entries[j]);
        lemma_tenant_position(after, j);
    }
    if after.holder(namespace) is Some {
        let j = after.holder(namespace).unwrap();
        assert(after.entries[j].namespace == namespace);
        assert(after.entries[j] == before.entries[j]);
    }
}

} // verus!
