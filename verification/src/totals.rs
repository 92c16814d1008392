//! Sums over the two shapes of the ledger's data: a list of debt entries and a finite map.

use vstd::prelude::*;
use crate::types::{AccountId, Balance, DebtEntry};

verus! {

/// The sum of the amounts of a list of debt entries.
pub open spec fn entries_total(entries: Seq<DebtEntry>) -> nat
    decreases entries.len(),
{
    if entries.len() == 0 {
        0
    } else {
        entries_total(entries.drop_last()) + entries.last().1 as nat
    }
}

/// The sum of the amounts that a list of debt entries records for one lender.
pub open spec fn owed_to(entries: Seq<DebtEntry>, lender: AccountId) -> nat
    decreases entries.len(),
{
    if entries.len() == 0 {
        0
    } else if entries.last().0 == lender {
        owed_to(entries.drop_last(), lender) + entries.last().1 as nat
    } else {
        owed_to(entries.drop_last(), lender)
    }
}

/// The sum of `weight` over the values of a finite map.
pub open spec fn map_total<K, V>(m: Map<K, V>, weight: spec_fn(V) -> nat) -> nat
    decreases m.dom().len(),
    when m.dom().finite()
{
    if m.dom().len() == 0 {
        0
    } else {
        let k = m.dom().choose();
        weight(m[k]) + map_total(m.remove(k), weight)
    }
}

/// The weight of a balance: its amount.
pub open spec fn balance_weight() -> spec_fn(Balance) -> nat {
    |b: Balance| b as nat
}

/// The weight of a debtor's entries: the sum of their amounts.
pub open spec fn debt_weight() -> spec_fn(Seq<DebtEntry>) -> nat {
    |entries: Seq<DebtEntry>| entries_total(entries)
}

/// The weight of a debtor's entries for one lender: what they record as owed to it.
pub open spec fn exposure_weight(lender: AccountId) -> spec_fn(Seq<DebtEntry>) -> nat {
    |entries: Seq<DebtEntry>| owed_to(entries, lender)
}

/// The total of a list grows by the amount of an entry pushed onto it.
pub proof fn lemma_entries_total_push(entries: Seq<DebtEntry>, entry: DebtEntry)
    ensures
        entries_total(entries.push(entry)) == entries_total(entries) + entry.1,
{
    assert(entries.push(entry).drop_last() =~= entries);
}

/// The total of a prefix is at most the total of the list.
pub proof fn lemma_entries_total_prefix(entries: Seq<DebtEntry>, n: int)
    requires
        0 <= n <= entries.len(),
    ensures
        entries_total(entries.take(n)) <= entries_total(entries),
        n < entries.len() ==> entries_total(entries.take(n + 1)) == entries_total(entries.take(n))
            + entries[n].1,
        entries_total(entries.take(entries.len() as int)) == entries_total(entries),
    decreases entries.len() - n,
{
    assert(entries.take(entries.len() as int) =~= entries);
    if n < entries.len() {
        assert(entries.take(n + 1).drop_last() =~= entries.take(n));
        lemma_entries_total_prefix(entries, n + 1);
    }
}

/// Replacing the amount of one entry changes the total by the difference.
pub proof fn lemma_entries_total_update(entries: Seq<DebtEntry>, i: int, entry: DebtEntry)
    requires
        0 <= i < entries.len(),
    ensures
        entries_total(entries.update(i, entry)) + entries[i].1 == entries_total(entries) + entry.1,
    decreases entries.len(),
{
    if i == entries.len() - 1 {
        assert(entries.update(i, entry).drop_last() =~= entries.drop_last());
    } else {
        lemma_entries_total_update(entries.drop_last(), i, entry);
        assert(entries.update(i, entry).drop_last() =~= entries.drop_last().update(i, entry));
    }
}

/// What a list records for one lender is at most the total of the list.
pub proof fn lemma_owed_to_bounds(entries: Seq<DebtEntry>, lender: AccountId)
    ensures
        owed_to(entries, lender) <= entries_total(entries),
    decreases entries.len(),
{
    if entries.len() > 0 {
        lemma_owed_to_bounds(entries.drop_last(), lender);
    }
}

/// The total of a map with one key taken out, for a key that the map holds.
pub proof fn lemma_map_total_remove<K, V>(m: Map<K, V>, weight: spec_fn(V) -> nat, key: K)
    requires
        m.dom().finite(),
        m.contains_key(key),
    ensures
        map_total(m, weight) == weight(m[key]) + map_total(m.remove(key), weight),
    decreases m.dom().len(),
{
    let chosen = m.dom().choose();
    if chosen != key {
        lemma_map_total_remove(m.remove(chosen), weight, key);
        lemma_map_total_remove(m.remove(key), weight, chosen);
        assert(m.remove(chosen).remove(key) =~= m.remove(key).remove(chosen));
    }
}

/// The total of the empty map is zero.
pub proof fn lemma_map_total_empty<K, V>(weight: spec_fn(V) -> nat)
    ensures
        map_total(Map::<K, V>::empty(), weight) == 0,
{
}

/// The total of a map after one key was given a value: the old total, less the weight of what
/// the key held before, plus the weight of the new value.
pub proof fn lemma_map_total_insert<K, V>(m: Map<K, V>, weight: spec_fn(V) -> nat, key: K, value: V)
    requires
        m.dom().finite(),
    ensures
        m.contains_key(key) ==> map_total(m.insert(key, value), weight) + weight(m[key])
            == map_total(m, weight) + weight(value),
        !m.contains_key(key) ==> map_total(m.insert(key, value), weight) == map_total(m, weight)
            + weight(value),
{
    lemma_map_total_remove(m.insert(key, value), weight, key);
    if m.contains_key(key) {
        lemma_map_total_remove(m, weight, key);
        assert(m.insert(key, value).remove(key) =~= m.remove(key));
    } else {
        assert(m.insert(key, value).remove(key) =~= m);
    }
}

/// The weight of any one value of a map is at most the map's total.
pub proof fn lemma_map_total_bounds<K, V>(m: Map<K, V>, weight: spec_fn(V) -> nat, key: K)
    requires
        m.dom().finite(),
        m.contains_key(key),
    ensures
        weight(m[key]) <= map_total(m, weight),
{
    lemma_map_total_remove(m, weight, key);
}

/// The sum of `weight` over the values that a map holds under the keys of a list.
pub open spec fn keys_total<K, V>(m: Map<K, V>, keys: Seq<K>, weight: spec_fn(V) -> nat) -> nat
    decreases keys.len(),
{
    if keys.len() == 0 {
        0
    } else {
        keys_total(m, keys.drop_last(), weight) + weight(m[keys.last()])
    }
}

/// The sum over a prefix of the keys is at most the sum over all of them, and grows by the
/// weight under the next key.
pub proof fn lemma_keys_total_prefix<K, V>(m: Map<K, V>, keys: Seq<K>, weight: spec_fn(V) -> nat, n: int)
    requires
        0 <= n <= keys.len(),
    ensures
        keys_total(m, keys.take(n), weight) <= keys_total(m, keys, weight),
        n < keys.len() ==> keys_total(m, keys.take(n + 1), weight) == keys_total(
            m,
            keys.take(n),
            weight,
        ) + weight(m[keys[n]]),
        keys_total(m, keys.take(keys.len() as int), weight) == keys_total(m, keys, weight),
    decreases keys.len() - n,
{
    assert(keys.take(keys.len() as int) =~= keys);
    if n < keys.len() {
        assert(keys.take(n + 1).drop_last() =~= keys.take(n));
        lemma_keys_total_prefix(m, keys, weight, n + 1);
    }
}

/// Two maps that hold the same values under the keys of a list give the same sum over it.
proof fn lemma_keys_total_agree<K, V>(m1: Map<K, V>, m2: Map<K, V>, keys: Seq<K>, weight: spec_fn(V) -> nat)
    requires
        forall|i: int| 0 <= i < keys.len() ==> m1[#[trigger] keys[i]] == m2[keys[i]],
    ensures
        keys_total(m1, keys, weight) == keys_total(m2, keys, weight),
    decreases keys.len(),
{
    if keys.len() > 0 {
        let front = keys.drop_last();
        assert forall|i: int| 0 <= i < front.len() implies m1[#[trigger] front[i]] == m2[front[i]] by {
            assert(front[i] == keys[i]);
        }
        lemma_keys_total_agree(m1, m2, front, weight);
        assert(keys.last() == keys[keys.len() - 1]);
    }
}

/// The sum over a list that holds every key of a map once is the total of the map.
pub proof fn lemma_keys_total_all<K, V>(m: Map<K, V>, keys: Seq<K>, weight: spec_fn(V) -> nat)
    requires
        m.dom().finite(),
        keys.no_duplicates(),
        keys.to_set() == m.dom(),
    ensures
        keys_total(m, keys, weight) == map_total(m, weight),
    decreases keys.len(),
{
    if keys.len() == 0 {
        assert(m.dom() =~= Set::<K>::empty());
    } else {
        let key = keys.last();
        let front = keys.drop_last();
        let rest = m.remove(key);
        assert(keys[keys.len() - 1] == key);
        assert(keys.contains(key));
        assert(m.contains_key(key));
        assert forall|k: K| front.to_set().contains(k) <==> rest.dom().contains(k) by {
            if front.contains(k) {
                let i = choose|i: int| 0 <= i < front.len() && front[i] == k;
                assert(keys[i] == k);
                assert(keys.contains(k));
            }
            if rest.dom().contains(k) {
                assert(keys.to_set().contains(k));
                let i = choose|i: int| 0 <= i < keys.len() && keys[i] == k;
                assert(front[i] == k);
            }
        }
        assert(front.to_set() =~= rest.dom());
        lemma_keys_total_all(rest, front, weight);
        assert forall|i: int| 0 <= i < front.len() implies m[#[trigger] front[i]] == rest[front[i]] by {
            assert(front[i] == keys[i]);
        }
        lemma_keys_total_agree(m, rest, front, weight);
        lemma_map_total_remove(m, weight, key);
    }
}

/// A weight that is nowhere above another gives a total that is not above the other's.
pub proof fn lemma_map_total_le<K, V>(m: Map<K, V>, below: spec_fn(V) -> nat, above: spec_fn(V) -> nat)
    requires
        m.dom().finite(),
        forall|v: V| #[trigger] below(v) <= above(v),
    ensures
        map_total(m, below) <= map_total(m, above),
    decreases m.dom().len(),
{
    if m.dom().len() > 0 {
        lemma_map_total_le(m.remove(m.dom().choose()), below, above);
    }
}

} // verus!
