//! The balance ledger: the spendable balance of each account, with the two primitives that
//! change one balance.

use vstd::prelude::*;
use crate::store::{
    balance_store_get, balance_store_insert, balance_store_len, balance_store_new, held_balances,
    BalanceStore,
};
use crate::totals::{
    balance_weight, entries_total, lemma_entries_total_prefix, lemma_map_total_bounds,
    lemma_map_total_insert, map_total, owed_to,
};
use crate::types::{AccountId, Balance, DebtEntry, Error};

verus! {

/// The balance that a mapping records for an account: zero for an account that it does not hold.
pub open spec fn balance_in(balances: Map<AccountId, Balance>, account: AccountId) -> Balance {
    if balances.contains_key(account) {
        balances[account]
    } else {
        0
    }
}

/// The sum of all balances of a mapping.
pub open spec fn balances_total(balances: Map<AccountId, Balance>) -> nat {
    map_total(balances, balance_weight())
}

/// The mapping after `amount` was added to the balance of `account`.
pub open spec fn credited(balances: Map<AccountId, Balance>, account: AccountId, amount: Balance) -> Map<
    AccountId,
    Balance,
> {
    balances.insert(account, (balance_in(balances, account) + amount) as Balance)
}

/// The mapping after `amount` was taken from the balance of `account`. Taking nothing from an
/// account that the mapping does not hold leaves the mapping as it is.
pub open spec fn debited(balances: Map<AccountId, Balance>, account: AccountId, amount: Balance) -> Map<
    AccountId,
    Balance,
> {
    if balances.contains_key(account) {
        balances.insert(account, (balances[account] - amount) as Balance)
    } else {
        balances
    }
}

/// Whether a mapping can take `account` in: it holds the account already, or the number of
/// accounts it holds is below the limit of the collection that stores them.
pub open spec fn admits(balances: Map<AccountId, Balance>, account: AccountId) -> bool {
    balances.contains_key(account) || balances.dom().len() < u32::MAX
}

/// A credit raises the sum of all balances by its amount, and changes no other balance.
pub proof fn lemma_credited(balances: Map<AccountId, Balance>, account: AccountId, amount: Balance)
    requires
        balances.dom().finite(),
        balance_in(balances, account) + amount <= Balance::MAX,
    ensures
        credited(balances, account, amount).dom().finite(),
        balances_total(credited(balances, account, amount)) == balances_total(balances) + amount,
        balance_in(credited(balances, account, amount), account) == balance_in(balances, account)
            + amount,
        forall|other: AccountId|
            other != account ==> balance_in(credited(balances, account, amount), other)
                == balance_in(balances, other),
        forall|other: AccountId|
            balances.contains_key(other) ==> #[trigger] credited(
                balances,
                account,
                amount,
            ).contains_key(other),
{
    let value = (balance_in(balances, account) + amount) as Balance;
    lemma_map_total_insert(balances, balance_weight(), account, value);
}

/// A debit that the balance covers lowers the sum of all balances by its amount, and changes no
/// other balance.
pub proof fn lemma_debited(balances: Map<AccountId, Balance>, account: AccountId, amount: Balance)
    requires
        balances.dom().finite(),
        amount <= balance_in(balances, account),
    ensures
        debited(balances, account, amount).dom() == balances.dom(),
        balances_total(debited(balances, account, amount)) + amount == balances_total(balances),
        balance_in(debited(balances, account, amount), account) == balance_in(balances, account)
            - amount,
        forall|other: AccountId|
            other != account ==> balance_in(debited(balances, account, amount), other)
                == balance_in(balances, other),
{
    if balances.contains_key(account) {
        let value = (balances[account] - amount) as Balance;
        lemma_map_total_insert(balances, balance_weight(), account, value);
        assert(balances.insert(account, value).dom() =~= balances.dom());
    }
}

/// No balance exceeds the sum of all balances.
pub proof fn lemma_balance_within_total(balances: Map<AccountId, Balance>, account: AccountId)
    requires
        balances.dom().finite(),
    ensures
        balance_in(balances, account) <= balances_total(balances),
{
    if balances.contains_key(account) {
        lemma_map_total_bounds(balances, balance_weight(), account);
    }
}

/// The mapping after each credit of a list was added to the balance of its account, in the
/// order of the list.
pub open spec fn with_credits(balances: Map<AccountId, Balance>, credits: Seq<DebtEntry>) -> Map<
    AccountId,
    Balance,
>
    decreases credits.len(),
{
    if credits.len() == 0 {
        balances
    } else {
        credited(
            with_credits(balances, credits.drop_last()),
            credits.last().0,
            credits.last().1,
        )
    }
}

/// Credits to accounts that the mapping holds leave it with the same accounts, raise the sum of
/// all balances by the sum of the credits, and raise each balance by what the credits record
/// for its account.
pub proof fn lemma_with_credits(balances: Map<AccountId, Balance>, credits: Seq<DebtEntry>)
    requires
        balances.dom().finite(),
        forall|i: int| 0 <= i < credits.len() ==> balances.contains_key((#[trigger] credits[i]).0),
        balances_total(balances) + entries_total(credits) <= Balance::MAX,
    ensures
        with_credits(balances, credits).dom() == balances.dom(),
        balances_total(with_credits(balances, credits)) == balances_total(balances)
            + entries_total(credits),
        forall|account: AccountId|
            balance_in(with_credits(balances, credits), account) == balance_in(balances, account)
                + owed_to(credits, account),
    decreases credits.len(),
{
    if credits.len() > 0 {
        let front = credits.drop_last();
        let last = credits.last();
        let so_far = with_credits(balances, front);
        assert forall|i: int| 0 <= i < front.len() implies balances.contains_key(
            (#[trigger] front[i]).0,
        ) by {
            assert(front[i] == credits[i]);
        }
        lemma_with_credits(balances, front);
        assert(credits[credits.len() - 1] == last);
        assert(so_far.contains_key(last.0));
        lemma_balance_within_total(so_far, last.0);
        lemma_credited(so_far, last.0, last.1);
        assert(credited(so_far, last.0, last.1).dom() =~= so_far.dom());
        assert forall|account: AccountId|
            balance_in(with_credits(balances, credits), account) == balance_in(balances, account)
                + owed_to(credits, account) by {
            assert(balance_in(so_far, account) == balance_in(balances, account) + owed_to(
                front,
                account,
            ));
        }
    }
}

/// The spendable balance of each account.
pub struct BalanceLedger {
    store: BalanceStore,
}

impl View for BalanceLedger {
    type V = Map<AccountId, Balance>;

    closed spec fn view(&self) -> Map<AccountId, Balance> {
        held_balances(self.store)
    }
}

impl BalanceLedger {
    /// The ledger holds finitely many accounts.
    pub open spec fn wf(&self) -> bool {
        self@.dom().finite()
    }

    /// A ledger that holds no account.
    pub fn new() -> (ledger: Self)
        ensures
            ledger.wf(),
            ledger@ == Map::<AccountId, Balance>::empty(),
    {
        BalanceLedger { store: balance_store_new() }
    }

    /// The balance of `account`: zero for an account that the ledger has never seen.
    pub fn balance_of(&self, account: AccountId) -> (balance: Balance)
        ensures
            balance == balance_in(self@, account),
    {
        match balance_store_get(&self.store, &account) {
            Some(balance) => balance,
            None => 0,
        }
    }

    /// Whether the ledger has a balance on record for `account`.
    pub fn holds(&self, account: AccountId) -> (held: bool)
        ensures
            held == self@.contains_key(account),
    {
        balance_store_get(&self.store, &account).is_some()
    }

    /// Whether the ledger can take `account` in.
    pub fn has_room_for(&self, account: AccountId) -> (room: bool)
        requires
            self.wf(),
        ensures
            room == admits(self@, account),
    {
        match balance_store_get(&self.store, &account) {
            Some(_) => true,
            None => balance_store_len(&self.store) < u32::MAX,
        }
    }

    /// Takes `amount` from the balance of `account`, or refuses and changes nothing where the
    /// balance is smaller than `amount`.
    pub fn debit(&mut self, account: AccountId, amount: Balance) -> (outcome: Result<(), Error>)
        requires
            old(self).wf(),
        ensures
            final(self).wf(),
            balance_in(old(self)@, account) < amount ==> outcome == Err::<(), Error>(
                Error::InsufficientBalance,
            ) && final(self)@ == old(self)@,
            balance_in(old(self)@, account) >= amount ==> outcome.is_ok() && final(self)@
                == debited(old(self)@, account, amount),
    {
        match balance_store_get(&self.store, &account) {
            Some(balance) => {
                if balance < amount {
                    return Err(Error::InsufficientBalance);
                }
                balance_store_insert(&mut self.store, account, balance - amount);
                Ok(())
            },
            None => {
                if amount > 0 {
                    return Err(Error::InsufficientBalance);
                }
                Ok(())
            },
        }
    }

    /// Adds `amount` to the balance of `account`.
    pub fn credit(&mut self, account: AccountId, amount: Balance)
        requires
            old(self).wf(),
            balance_in(old(self)@, account) + amount <= Balance::MAX,
            admits(old(self)@, account),
        ensures
            final(self).wf(),
            final(self)@ == credited(old(self)@, account, amount),
    {
        let balance = self.balance_of(account);
        balance_store_insert(&mut self.store, account, balance + amount);
    }
    /// Adds each credit of the list to the balance of its account. Every account that the list
    /// names is one that the ledger holds.
    pub(crate) fn credit_all(&mut self, credits: &Vec<DebtEntry>)
        requires
            old(self).wf(),
            forall|i: int|
                0 <= i < credits@.len() ==> old(self)@.contains_key((#[trigger] credits@[i]).0),
            balances_total(old(self)@) + entries_total(credits@) <= Balance::MAX,
        ensures
            final(self).wf(),
            final(self)@ == with_credits(old(self)@, credits@),
    {
        let ghost before = self@;
        let mut i: usize = 0;
        assert(credits@.take(0) =~= Seq::<DebtEntry>::empty());
        while i < credits.len()
            invariant
                i <= credits.len(),
                self.wf(),
                before.dom().finite(),
                forall|j: int|
                    0 <= j < credits@.len() ==> before.contains_key((#[trigger] credits@[j]).0),
                balances_total(before) + entries_total(credits@) <= Balance::MAX,
                self@ == with_credits(before, credits@.take(i as int)),
            decreases credits.len() - i,
        {
            let (account, amount) = credits[i];
            proof {
                let done = credits@.take(i as int);
                lemma_entries_total_prefix(credits@, i as int);
                lemma_entries_total_prefix(credits@, i + 1);
                assert forall|j: int| 0 <= j < done.len() implies before.contains_key(
                    (#[trigger] done[j]).0,
                ) by {
                    assert(done[j] == credits@[j]);
                }
                lemma_with_credits(before, done);
                assert(before.contains_key(credits@[i as int].0));
                lemma_balance_within_total(self@, account);
                assert(credits@.take(i + 1).drop_last() =~= done);
            }
            self.credit(account, amount);
            i += 1;
        }
        assert(credits@.take(i as int) =~= credits@);
    }
}

} // verus!
