//! The two keyed collections of the ledger, kept in `ink_storage::collections::HashMap`.
//!
//! Nothing in this file is proved. Each function below makes one call into `ink_storage`, and its
//! contract says what that call does to the collection, as read from the source of the crate.
//! The rest of the library is verified against these contracts.
//!
//! The bounds of `HashMap` name traits of `ink_storage` and `ink_env`, so Verus cannot be told of
//! the type itself. Each collection is held in a struct that Verus does not look into, and what
//! it holds has a name: `held_balances` and `held_debts`. Names cannot be generic, which is why
//! each call has one function for each of the two collections.
//!
//! A collection made by `HashMap::new` is bound to no storage cell: it keeps every entry in
//! memory, and none of the calls made here reaches the contract environment.

use vstd::prelude::*;
use crate::types::{AccountId, Balance, DebtEntry};
use ink_storage::collections::HashMap as StorageHashMap;

verus! {

/// The spendable balance of each account that has one on record.
#[verifier::external_body]
pub struct BalanceStore {
    map: StorageHashMap<AccountId, Balance>,
}

/// The open debt entries of each debtor that has any on record.
#[verifier::external_body]
pub struct DebtStore {
    map: StorageHashMap<AccountId, Vec<DebtEntry>>,
}

/// What a `BalanceStore` holds: the mapping from account to balance.
pub uninterp spec fn held_balances(store: BalanceStore) -> Map<AccountId, Balance>;

/// What a `DebtStore` holds: the mapping from debtor to its entries, in their stored order.
pub uninterp spec fn held_debts(store: DebtStore) -> Map<AccountId, Seq<DebtEntry>>;

/// `HashMap::new`: the new collection holds nothing.
#[verifier::external_body]
pub(crate) fn balance_store_new() -> (store: BalanceStore)
    ensures
        held_balances(store) == (Map::<AccountId, Balance>::empty()),
{
    BalanceStore { map: StorageHashMap::new() }
}

/// `HashMap::len`: the number of keys held.
#[verifier::external_body]
pub(crate) fn balance_store_len(store: &BalanceStore) -> (count: u32)
    requires
        held_balances(*store).dom().finite(),
    ensures
        count == held_balances(*store).dom().len(),
{
    store.map.len()
}

/// `HashMap::get`: the value held under the key, if the key is held.
#[verifier::external_body]
pub(crate) fn balance_store_get(store: &BalanceStore, account: &AccountId) -> (found: Option<Balance>)
    ensures
        found == (if held_balances(*store).contains_key(*account) {
            Some(held_balances(*store)[*account])
        } else {
            None
        }),
{
    store.map.get(account).copied()
}

/// `HashMap::insert`: the key now holds the new value, every other key is as before, and the
/// value that the key held before comes back. The collection counts its keys in a `u32`, so a
/// key that is new to it needs room in that count.
#[verifier::external_body]
pub(crate) fn balance_store_insert(store: &mut BalanceStore, account: AccountId, value: Balance) -> (previous: Option<Balance>)
    requires
        held_balances(*old(store)).dom().finite(),
        held_balances(*old(store)).contains_key(account) || held_balances(*old(store)).dom().len() < u32::MAX,
    ensures
        held_balances(*final(store)) == held_balances(*old(store)).insert(account, value),
        previous == (if held_balances(*old(store)).contains_key(account) {
            Some(held_balances(*old(store))[account])
        } else {
            None
        }),
{
    store.map.insert(account, value)
}

/// `HashMap::new`: the new collection holds nothing.
#[verifier::external_body]
pub(crate) fn debt_store_new() -> (store: DebtStore)
    ensures
        held_debts(store) == (Map::<AccountId, Seq<DebtEntry>>::empty()),
{
    DebtStore { map: StorageHashMap::new() }
}

/// `HashMap::len`: the number of keys held.
#[verifier::external_body]
pub(crate) fn debt_store_len(store: &DebtStore) -> (count: u32)
    requires
        held_debts(*store).dom().finite(),
    ensures
        count == held_debts(*store).dom().len(),
{
    store.map.len()
}

/// `HashMap::get`: a copy of the value held under the key, if the key is held.
#[verifier::external_body]
pub(crate) fn debt_store_get(store: &DebtStore, debtor: &AccountId) -> (found: Option<Vec<DebtEntry>>)
    ensures
        found.is_some() == held_debts(*store).contains_key(*debtor),
        found.is_some() ==> found.unwrap()@ == held_debts(*store)[*debtor],
{
    store.map.get(debtor).cloned()
}

/// `HashMap::insert`: the key now holds the new value and every other key is as before. The
/// collection counts its keys in a `u32`, so a key that is new to it needs room in that count.
#[verifier::external_body]
pub(crate) fn debt_store_insert(store: &mut DebtStore, debtor: AccountId, entries: Vec<DebtEntry>)
    requires
        held_debts(*old(store)).dom().finite(),
        held_debts(*old(store)).contains_key(debtor) || held_debts(*old(store)).dom().len() < u32::MAX,
    ensures
        held_debts(*final(store)) == held_debts(*old(store)).insert(debtor, entries@),
{
    store.map.insert(debtor, entries);
}

/// `HashMap::take`: the key is held no more, and every other key is as before.
#[verifier::external_body]
pub(crate) fn debt_store_take(store: &mut DebtStore, debtor: &AccountId)
    ensures
        held_debts(*final(store)) == held_debts(*old(store)).remove(*debtor),
{
    store.map.take(debtor);
}

/// `HashMap::keys`: every key held, each once. The order in which they come is not stated.
#[verifier::external_body]
pub(crate) fn debt_store_keys(store: &DebtStore) -> (debtors: Vec<AccountId>)
    ensures
        debtors@.no_duplicates(),
        debtors@.to_set() == held_debts(*store).dom(),
{
    store.map.keys().copied().collect()
}

} // verus!
