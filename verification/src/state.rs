//! The state of the ledger as a mathematical value, the operations as functions on it, and what
//! each operation keeps true of it.
//!
//! Value is conserved: the sum of all spendable balances and of all open debts is the initial
//! endowment, in every state that the operations reach. A loan moves value from the balance of
//! the lender into the debt of the borrower; a settlement moves it from the debt back to the
//! balances of the lenders.

use vstd::prelude::*;
use crate::balances::{
    balance_in, balances_total, credited, debited, lemma_balance_within_total, lemma_credited,
    lemma_debited, lemma_with_credits, with_credits,
};
use crate::debts::{
    debts_total, debts_wf, entries_in, lemma_debts_bounds, lemma_with_entries, lemma_with_loan,
    with_entries, with_loan,
};
use crate::entries::{entries_wf, lemma_merged, names};
use crate::settlement::{credits_of, lemma_settled_totals, lemma_settled_wf, settled};
use crate::totals::{
    balance_weight, debt_weight, entries_total, lemma_map_total_empty, lemma_map_total_insert,
};
use crate::types::{AccountId, Balance, DebtEntry};

verus! {

/// The state of the ledger.
pub struct LedgerState {
    /// The initial endowment: all the value that ever entered the ledger.
    pub reserved: Balance,
    /// The spendable balance of each account that has one on record.
    pub balances: Map<AccountId, Balance>,
    /// The open debt entries of each debtor that owes anything.
    pub debts: Map<AccountId, Seq<DebtEntry>>,
}

/// An operation that changes the ledger.
#[derive(Debug, PartialEq, Eq, Clone, Copy)]
pub enum Operation {
    /// Move `value` from the balance of `from` to the balance of `to`.
    Transfer { from: AccountId, to: AccountId, value: Balance },
    /// Lend `value` from the lender `from` to the borrower `to`.
    Borrow { from: AccountId, to: AccountId, value: Balance },
    /// Repay `value` for `debtor`, with `counterparty` paying where the debtor owes nothing.
    Repay { debtor: AccountId, counterparty: AccountId, value: Balance },
}

impl LedgerState {
    /// The sum of all spendable balances and of all open debts.
    pub open spec fn total_value(self) -> nat {
        balances_total(self.balances) + debts_total(self.debts)
    }

    /// Every lender that a debt entry names has a balance on record.
    pub open spec fn lenders_known(self) -> bool {
        forall|debtor: AccountId, lender: AccountId|
            self.debts.contains_key(debtor) && #[trigger] names(self.debts[debtor], lender)
                ==> self.balances.contains_key(lender)
    }

    /// A well-formed state: finitely many accounts have a balance on record, the debts are well
    /// formed, every lender has a balance on record, and the value in the ledger is the initial
    /// endowment.
    pub open spec fn wf(self) -> bool {
        &&& self.balances.dom().finite()
        &&& debts_wf(self.debts)
        &&& self.lenders_known()
        &&& self.total_value() == self.reserved
    }

    /// The state of a ledger that was opened with `endowment`, all of it in the balance of
    /// `caller`.
    pub open spec fn opened(caller: AccountId, endowment: Balance) -> LedgerState {
        LedgerState {
            reserved: endowment,
            balances: Map::<AccountId, Balance>::empty().insert(caller, endowment),
            debts: Map::empty(),
        }
    }

    /// Whether the balance of `account` covers `value`.
    pub open spec fn covers(self, account: AccountId, value: Balance) -> bool {
        value <= balance_in(self.balances, account)
    }

    /// Whether `debtor` has open debts.
    pub open spec fn owes(self, debtor: AccountId) -> bool {
        entries_in(self.debts, debtor).len() > 0
    }

    /// The state after `value` moved from the balance of `from` to the balance of `to`.
    pub open spec fn transferred(self, from: AccountId, to: AccountId, value: Balance) -> LedgerState {
        LedgerState { balances: credited(debited(self.balances, from, value), to, value), ..self }
    }

    /// The state after `lender` lent `value` to `borrower`: the value left the balance of the
    /// lender and is owed to it by the borrower.
    pub open spec fn lent(self, lender: AccountId, borrower: AccountId, value: Balance) -> LedgerState {
        LedgerState {
            balances: debited(self.balances, lender, value),
            debts: with_loan(self.debts, borrower, lender, value),
            ..self
        }
    }

    /// The state after `payment` was applied to the debts of `debtor`: each lender received what
    /// its entry took from the payment, and the entries that were paid in full left the book.
    pub open spec fn settled(self, debtor: AccountId, payment: Balance) -> LedgerState {
        let entries = entries_in(self.debts, debtor);
        LedgerState {
            balances: with_credits(self.balances, credits_of(entries, payment)),
            debts: with_entries(self.debts, debtor, settled(entries, payment)),
            ..self
        }
    }

    /// The state after a repayment of `value` for `debtor` that was not refused: a settlement
    /// where the debtor has open debts, and else a transfer from `counterparty` to the debtor.
    pub open spec fn repaid(self, debtor: AccountId, counterparty: AccountId, value: Balance) -> LedgerState {
        if self.owes(debtor) {
            self.settled(debtor, value)
        } else {
            self.transferred(counterparty, debtor, value)
        }
    }

    /// Whether the ledger accepts an operation. It refuses a transfer or a loan that the balance
    /// of the payer does not cover, and a repayment for a debtor without debts that the balance
    /// of the counterparty does not cover.
    pub open spec fn accepts(self, operation: Operation) -> bool {
        match operation {
            Operation::Transfer { from, to, value } => self.covers(from, value),
            Operation::Borrow { from, to, value } => self.covers(from, value),
            Operation::Repay { debtor, counterparty, value } => self.owes(debtor) || self.covers(
                counterparty,
                value,
            ),
        }
    }

    /// The state after an operation. A refused operation leaves the state as it was.
    pub open spec fn after(self, operation: Operation) -> LedgerState {
        if !self.accepts(operation) {
            self
        } else {
            match operation {
                Operation::Transfer { from, to, value } => self.transferred(from, to, value),
                Operation::Borrow { from, to, value } => self.lent(from, to, value),
                Operation::Repay { debtor, counterparty, value } => self.repaid(
                    debtor,
                    counterparty,
                    value,
                ),
            }
        }
    }

    /// The state after a sequence of operations, the first of the sequence being made first.
    pub open spec fn after_all(self, operations: Seq<Operation>) -> LedgerState
        decreases operations.len(),
    {
        if operations.len() == 0 {
            self
        } else {
            self.after_all(operations.drop_last()).after(operations.last())
        }
    }
}

/// A ledger that was just opened is well formed.
pub proof fn lemma_opened(caller: AccountId, endowment: Balance)
    ensures
        LedgerState::opened(caller, endowment).wf(),
        LedgerState::opened(caller, endowment).balances == credited(
            Map::<AccountId, Balance>::empty(),
            caller,
            endowment,
        ),
{
    let opened = LedgerState::opened(caller, endowment);
    lemma_map_total_empty::<AccountId, Balance>(balance_weight());
    lemma_map_total_empty::<AccountId, Seq<DebtEntry>>(debt_weight());
    lemma_map_total_insert(Map::<AccountId, Balance>::empty(), balance_weight(), caller, endowment);
    assert(opened.debts.dom() =~= Set::<AccountId>::empty());
}

/// A transfer that the balance of the sender covers keeps the state well formed, and the
/// balance of the receiver stays an amount.
pub proof fn lemma_transferred(state: LedgerState, from: AccountId, to: AccountId, value: Balance)
    requires
        state.wf(),
        state.covers(from, value),
    ensures
        state.transferred(from, to, value).wf(),
        balance_in(debited(state.balances, from, value), to) + value <= Balance::MAX,
{
    let lowered = debited(state.balances, from, value);
    lemma_debited(state.balances, from, value);
    lemma_balance_within_total(lowered, to);
    lemma_credited(lowered, to, value);
}

/// A loan that the balance of the lender covers keeps the state well formed, and what the
/// borrower owes stays an amount.
pub proof fn lemma_lent(state: LedgerState, lender: AccountId, borrower: AccountId, value: Balance)
    requires
        state.wf(),
        state.covers(lender, value),
    ensures
        state.lent(lender, borrower, value).wf(),
        entries_total(entries_in(state.debts, borrower)) + value <= Balance::MAX,
{
    let after = state.lent(lender, borrower, value);
    lemma_debited(state.balances, lender, value);
    lemma_balance_within_total(state.balances, lender);
    lemma_debts_bounds(state.debts, borrower);
    lemma_with_loan(state.debts, borrower, lender, value);
    if value > 0 {
        let before = entries_in(state.debts, borrower);
        lemma_merged(before, lender, value);
        assert forall|debtor: AccountId, other: AccountId|
            after.debts.contains_key(debtor) && #[trigger] names(
                after.debts[debtor],
                other,
            ) implies after.balances.contains_key(other) by {
            if debtor == borrower {
                if other != lender {
                    assert(names(before, other));
                    assert(state.debts.contains_key(borrower));
                }
            } else {
                assert(state.debts.contains_key(debtor));
                assert(names(state.debts[debtor], other));
            }
        }
    }
}

/// A settlement keeps the state well formed. Every lender that it credits has a balance on
/// record, and the balances stay amounts.
pub proof fn lemma_settled(state: LedgerState, debtor: AccountId, payment: Balance)
    requires
        state.wf(),
    ensures
        state.settled(debtor, payment).wf(),
        entries_wf(settled(entries_in(state.debts, debtor), payment)),
        forall|i: int|
            0 <= i < entries_in(state.debts, debtor).len() ==> state.balances.contains_key(
                (#[trigger] credits_of(entries_in(state.debts, debtor), payment)[i]).0,
            ),
        balances_total(state.balances) + entries_total(
            credits_of(entries_in(state.debts, debtor), payment),
        ) <= Balance::MAX,
{
    let entries = entries_in(state.debts, debtor);
    let credits = credits_of(entries, payment);
    let left = settled(entries, payment);
    let after = state.settled(debtor, payment);
    lemma_settled_totals(entries, payment);
    lemma_debts_bounds(state.debts, debtor);
    if state.debts.contains_key(debtor) {
        lemma_settled_wf(entries, payment);
    } else {
        assert(left =~= Seq::<DebtEntry>::empty());
    }
    assert forall|i: int| 0 <= i < entries.len() implies state.balances.contains_key(
        (#[trigger] credits[i]).0,
    ) by {
        assert(names(entries, entries[i].0));
    }
    lemma_with_credits(state.balances, credits);
    lemma_with_entries(state.debts, debtor, left);
    assert forall|owing: AccountId, lender: AccountId|
        after.debts.contains_key(owing) && #[trigger] names(
            after.debts[owing],
            lender,
        ) implies after.balances.contains_key(lender) by {
        if owing == debtor {
            assert(names(entries, lender));
            assert(state.debts.contains_key(debtor));
        } else {
            assert(state.debts.contains_key(owing));
            assert(names(state.debts[owing], lender));
        }
    }
}

} // verus!
