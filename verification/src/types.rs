//! The plain values that the ledger speaks of: accounts, amounts, debt entries, refusals and the
//! records handed back to the caller for the notification sink.

use vstd::prelude::*;

verus! {

/// An account: an opaque identifier of 32 bytes. An account needs no registration; it exists as
/// soon as an operation names it.
pub type AccountId = [u8; 32];

/// An amount of the ledger's unit of value.
pub type Balance = u128;

/// What a debtor owes to one lender: the lender and the amount, which is never zero in a stored
/// entry.
pub type DebtEntry = (AccountId, Balance);

/// The reasons for which a ledger operation is refused.
#[derive(Debug, PartialEq, Eq, Clone, Copy, Structural)]
pub enum Error {
    /// The account does not hold the amount that the operation would take from it.
    InsufficientBalance,
    /// The spender is not allowed to take the amount. No operation of the ledger gives it; the
    /// variant stays so that the set of refusals is stable for callers.
    InsufficientAllowance,
}

/// Record of value that moved between two spendable balances. `from` is `None` where the value
/// entered the ledger with the initial endowment.
#[derive(Debug, PartialEq, Eq, Clone, Copy)]
pub struct Transfer {
    pub from: Option<AccountId>,
    pub to: Option<AccountId>,
    pub value: Balance,
}

/// Record of a loan: `value` left the spendable balance of the lender `from` and is now owed to
/// it by the borrower `to`.
#[derive(Debug, PartialEq, Eq, Clone, Copy)]
pub struct Borrow {
    pub from: Option<AccountId>,
    pub to: Option<AccountId>,
    pub value: Balance,
}

/// Record of an allowance granted by `owner` to `spender`. No operation of the ledger produces
/// it; the type stays so that the set of notification kinds is stable for the sink.
#[derive(Debug, PartialEq, Eq, Clone, Copy)]
pub struct Approval {
    pub owner: AccountId,
    pub spender: AccountId,
    pub value: Balance,
}

/// Record of a payment of `value` applied for `debtor`, with the counterparty named by the
/// caller. `refunded` is the part of the payment that met no debt: it moved nothing and stays
/// with the payer.
#[derive(Debug, PartialEq, Eq, Clone, Copy)]
pub struct Settlement {
    pub debtor: AccountId,
    pub counterparty: AccountId,
    pub value: Balance,
    pub refunded: Balance,
}

/// Whether two accounts are the same account.
pub fn same_account(a: &AccountId, b: &AccountId) -> (same: bool)
    ensures
        same == (*a == *b),
{
    let mut i: usize = 0;
    while i < 32
        invariant
            i <= 32,
            forall|j: int| 0 <= j < i ==> a[j] == b[j],
        decreases 32 - i,
    {
        if a[i] != b[i] {
            return false;
        }
        i += 1;
    }
    assert(*a =~= *b);
    true
}

} // verus!
