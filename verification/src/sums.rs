//! Sums over finite maps.

use vstd::prelude::*;

verus! {

/// The sum of all values of a finite map.
pub open spec fn total<K>(values: Map<K, int>) -> int
    decreases values.dom().len(),
    when values.dom().finite()
{
    if values.dom().len() == 0 {
        0
    } else {
        let key = values.dom().choose();
        values[key] + total(values.remove(key))
    }
}

/// Taking any one key out of a map takes its value out of the sum.
pub proof fn lemma_total_remove<K>(values: Map<K, int>, key: K)
    requires
        values.dom().finite(),
        values.contains_key(key),
    ensures
        total(values) == values[key] + total(values.remove(key)),
    decreases values.dom().len(),
{
    let first = values.dom().choose();
    assert(values.dom().contains(key));
    assert(values.dom().len() > 0) by {
        if values.dom().len() == 0 {
            assert(values.dom() =~= Set::empty());
        }
    }
    assert(values.dom().contains(first));
    if first != key {
        let rest = values.remove(first);
        assert(rest.dom() =~= values.dom().remove(first));
        assert(rest.contains_key(key));
        lemma_total_remove(rest, key);
        let without = values.remove(key);
        assert(without.dom() =~= values.dom().remove(key));
        assert(without.contains_key(first));
        lemma_total_remove(without, first);
        assert(rest.remove(key) =~= without.remove(first));
    }
}

/// Adding a new key adds its value to the sum.
pub proof fn lemma_total_insert<K>(values: Map<K, int>, key: K, value: int)
    requires
        values.dom().finite(),
        !values.contains_key(key),
    ensures
        total(values.insert(key, value)) == total(values) + value,
{
    let wider = values.insert(key, value);
    assert(wider.dom() =~= values.dom().insert(key));
    lemma_total_remove(wider, key);
    assert(wider.remove(key) =~= values);
}

/// A sum of values that are not negative is not negative.
pub proof fn lemma_total_nonnegative<K>(values: Map<K, int>)
    requires
        values.dom().finite(),
        forall|key: K| values.contains_key(key) ==> #[trigger] values[key] >= 0,
    ensures
        total(values) >= 0,
    decreases values.dom().len(),
{
    if values.dom().len() > 0 {
        let key = values.dom().choose();
        assert(values.dom().contains(key));
        assert(values.remove(key).dom() =~= values.dom().remove(key));
        lemma_total_nonnegative(values.remove(key));
    }
}

/// What a map holds under a key, or zero.
pub open spec fn value_at<K>(values: Map<K, int>, key: K) -> int {
    if values.contains_key(key) {
        values[key]
    } else {
        0
    }
}

/// Maps that differ under one key only differ in their sums by what they hold
/// there.
pub proof fn lemma_total_swapped<K>(before: Map<K, int>, after: Map<K, int>, key: K)
    requires
        before.dom().finite(),
        before.remove(key) == after.remove(key),
    ensures
        after.dom().finite(),
        total(after) - value_at(after, key) == total(before) - value_at(before, key),
{
    assert(after.remove(key).dom() =~= after.dom().remove(key));
    assert(before.remove(key).dom() =~= before.dom().remove(key));
    if after.contains_key(key) {
        assert(after.dom() =~= after.dom().remove(key).insert(key));
        lemma_total_remove(after, key);
    } else {
        assert(after.remove(key) =~= after);
    }
    if before.contains_key(key) {
        lemma_total_remove(before, key);
    } else {
        assert(before.remove(key) =~= before);
    }
}

/// Values of at most one sum to at most the number of keys.
pub proof fn lemma_total_bounded<K>(values: Map<K, int>)
    requires
        values.dom().finite(),
        forall|key: K| values.contains_key(key) ==> #[trigger] values[key] <= 1,
    ensures
        total(values) <= values.dom().len(),
    decreases values.dom().len(),
{
    if values.dom().len() > 0 {
        let key = values.dom().choose();
        assert(values.dom().contains(key));
        assert(values.remove(key).dom() =~= values.dom().remove(key));
        lemma_total_bounded(values.remove(key));
    }
}

/// The empty map sums to zero.
pub proof fn lemma_total_empty<K>()
    ensures
        total(Map::<K, int>::empty()) == 0,
{
    assert(Map::<K, int>::empty().dom() =~= Set::empty());
}

} // verus!
