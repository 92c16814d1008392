//! What holds of the ledger whatever its callers do.

use vstd::prelude::*;
use crate::balances::{balance_in, lemma_debited, lemma_with_credits};
use crate::debts::{entries_in, lemma_with_entries};
use crate::entries::{distinct_lenders, entries_wf, lemma_merged, merged, names};
use crate::settlement::{
    consumed_at, credits_of, lemma_settled_totals, outstanding, reduced, settled, unapplied,
};
use crate::state::{
    lemma_lent, lemma_opened, lemma_settled, lemma_transferred, LedgerState, Operation,
};
use crate::totals::{entries_total, lemma_entries_total_prefix};
use crate::types::{AccountId, Balance, DebtEntry};

verus! {

/// An operation keeps a well-formed state well formed, whether the ledger accepts it or not:
/// the sum of all balances and of all open debts stays the initial endowment.
pub proof fn law_operation_conserves_value(state: LedgerState, operation: Operation)
    requires
        state.wf(),
    ensures
        state.after(operation).wf(),
        state.after(operation).reserved == state.reserved,
        state.after(operation).total_value() == state.total_value(),
{
    if state.accepts(operation) {
        match operation {
            Operation::Transfer { from, to, value } => {
                lemma_transferred(state, from, to, value);
            },
            Operation::Borrow { from, to, value } => {
                lemma_lent(state, from, to, value);
            },
            Operation::Repay { debtor, counterparty, value } => {
                if state.owes(debtor) {
                    lemma_settled(state, debtor, value);
                } else {
                    lemma_transferred(state, counterparty, debtor, value);
                }
            },
        }
    }
}

/// Conservation: after any sequence of operations on a ledger that was opened with an
/// endowment, the sum of all balances and of all open debts is that endowment.
pub proof fn law_conservation(caller: AccountId, endowment: Balance, operations: Seq<Operation>)
    ensures
        LedgerState::opened(caller, endowment).after_all(operations).wf(),
        LedgerState::opened(caller, endowment).after_all(operations).total_value() == endowment,
    decreases operations.len(),
{
    let opened = LedgerState::opened(caller, endowment);
    if operations.len() == 0 {
        lemma_opened(caller, endowment);
    } else {
        law_conservation(caller, endowment, operations.drop_last());
        law_operation_conserves_value(opened.after_all(operations.drop_last()), operations.last());
    }
}

/// No overdraft: a transfer or a loan that the balance of the payer does not cover changes
/// nothing, and one that it covers leaves the payer its old balance less the value.
pub proof fn law_no_overdraft(state: LedgerState, from: AccountId, to: AccountId, value: Balance)
    requires
        state.wf(),
    ensures
        !state.covers(from, value) ==> state.after(Operation::Transfer { from, to, value })
            == state && state.after(Operation::Borrow { from, to, value }) == state,
        state.covers(from, value) && from != to ==> balance_in(
            state.after(Operation::Transfer { from, to, value }).balances,
            from,
        ) == balance_in(state.balances, from) - value,
        state.covers(from, value) ==> balance_in(
            state.after(Operation::Borrow { from, to, value }).balances,
            from,
        ) == balance_in(state.balances, from) - value,
{
    if state.covers(from, value) {
        lemma_debited(state.balances, from, value);
    }
}

/// Two loans from one lender to one borrower leave the state that one loan of the sum leaves:
/// the borrower has one entry for the lender, not two.
pub proof fn law_one_entry_for_each_lender(
    state: LedgerState,
    lender: AccountId,
    borrower: AccountId,
    first: Balance,
    second: Balance,
)
    requires
        state.wf(),
        first + second <= balance_in(state.balances, lender),
    ensures
        state.lent(lender, borrower, first).lent(lender, borrower, second) == state.lent(
            lender,
            borrower,
            (first + second) as Balance,
        ),
        distinct_lenders(
            entries_in(
                state.lent(lender, borrower, first).lent(lender, borrower, second).debts,
                borrower,
            ),
        ),
        !state.owes(borrower) && first + second > 0 ==> entries_in(
            state.lent(lender, borrower, first).lent(lender, borrower, second).debts,
            borrower,
        ) == seq![(lender, (first + second) as Balance)],
{
    let sum = (first + second) as Balance;
    let once = state.lent(lender, borrower, first);
    let twice = once.lent(lender, borrower, second);
    let at_once = state.lent(lender, borrower, sum);
    let before = entries_in(state.debts, borrower);
    lemma_lent(state, lender, borrower, first);
    lemma_debited(state.balances, lender, first);
    lemma_lent(once, lender, borrower, second);
    lemma_lent(state, lender, borrower, sum);
    assert(twice.balances =~= at_once.balances);
    assert(state.debts.contains_key(borrower) ==> entries_wf(state.debts[borrower]));
    if first > 0 && second > 0 {
        let grown = merged(before, lender, first);
        lemma_merged(before, lender, first);
        assert(entries_in(once.debts, borrower) == grown);
        if names(before, lender) {
            assert forall|i: int| 0 <= i < before.len() implies #[trigger] merged(
                grown,
                lender,
                second,
            )[i] == merged(before, lender, sum)[i] by {
                lemma_entries_total_prefix(before, i);
                lemma_entries_total_prefix(before, i + 1);
                assert(grown[i].0 == before[i].0);
            }
        } else {
            assert(grown[before.len() as int].0 == lender);
            assert forall|i: int| 0 <= i < grown.len() implies #[trigger] merged(
                grown,
                lender,
                second,
            )[i] == merged(before, lender, sum)[i] by {
                if i < before.len() {
                    assert(grown[i] == before[i]);
                    assert(before[i].0 != lender);
                }
            }
        }
        assert(merged(grown, lender, second) =~= merged(before, lender, sum));
        assert(twice.debts =~= at_once.debts);
    } else {
        assert(twice.debts =~= at_once.debts);
    }
    assert(twice.debts.contains_key(borrower) ==> entries_wf(twice.debts[borrower]));
    if !state.owes(borrower) && first + second > 0 {
        assert(before =~= Seq::<DebtEntry>::empty());
        assert(merged(before, lender, sum) =~= seq![(lender, sum)]);
    }
}

/// Settlement order: an entry takes nothing from a payment before every entry recorded ahead
/// of it is paid in full.
pub proof fn law_first_recorded_first_paid(entries: Seq<DebtEntry>, payment: Balance, earlier: int, later: int)
    requires
        0 <= earlier < later < entries.len(),
        consumed_at(entries, payment, later) > 0,
    ensures
        consumed_at(entries, payment, earlier) == entries[earlier].1,
{
    lemma_entries_total_prefix(entries.take(later), earlier);
    assert(entries.take(later).take(earlier) =~= entries.take(earlier));
    assert(entries.take(later).take(earlier + 1) =~= entries.take(earlier + 1));
    assert(entries.take(later)[earlier] == entries[earlier]);
    lemma_entries_total_prefix(entries.take(later), earlier + 1);
}

/// Exactness: a payment never takes from an entry more than it is owed, the entries that are
/// left owe together what was owed less the part of the payment that was applied, and the part
/// that was applied and the part that was not make up the payment.
pub proof fn law_settlement_is_exact(entries: Seq<DebtEntry>, payment: Balance)
    ensures
        forall|i: int|
            0 <= i < entries.len() ==> #[trigger] consumed_at(entries, payment, i) <= entries[i].1,
        entries_total(settled(entries, payment)) + payment == entries_total(entries) + unapplied(
            entries,
            payment,
        ),
        unapplied(entries, payment) <= payment,
{
    lemma_settled_totals(entries, payment);
}

/// A payment that covers all that is owed leaves no entry.
pub proof fn law_full_payment_clears_the_debt(entries: Seq<DebtEntry>, payment: Balance)
    requires
        entries_total(entries) <= payment,
    ensures
        settled(entries, payment) == Seq::<DebtEntry>::empty(),
        unapplied(entries, payment) == payment - entries_total(entries),
{
    let lowered = reduced(entries, payment);
    assert forall|i: int| 0 <= i < entries.len() implies (#[trigger] lowered[i]).1 == 0 by {
        lemma_entries_total_prefix(entries, i);
        lemma_entries_total_prefix(entries, i + 1);
    }
    lemma_nothing_outstanding(lowered);
}

/// A list whose entries all owe nothing has no entry that still owes something.
proof fn lemma_nothing_outstanding(entries: Seq<DebtEntry>)
    requires
        forall|i: int| 0 <= i < entries.len() ==> (#[trigger] entries[i]).1 == 0,
    ensures
        outstanding(entries) == Seq::<DebtEntry>::empty(),
    decreases entries.len(),
{
    if entries.len() > 0 {
        let front = entries.drop_last();
        assert forall|i: int| 0 <= i < front.len() implies (#[trigger] front[i]).1 == 0 by {
            assert(front[i] == entries[i]);
        }
        lemma_nothing_outstanding(front);
        assert(entries.last() == entries[entries.len() - 1]);
    } else {
        assert(entries =~= Seq::<DebtEntry>::empty());
    }
}

/// A payment that does not cover the entry recorded first leaves every entry in its place and
/// lowers only that first entry.
pub proof fn law_partial_payment_lowers_the_first_entry(entries: Seq<DebtEntry>, payment: Balance)
    requires
        entries_wf(entries),
        entries.len() > 0,
        payment < entries[0].1,
    ensures
        settled(entries, payment) == entries.update(
            0,
            (entries[0].0, (entries[0].1 - payment) as Balance),
        ),
{
    let lowered = reduced(entries, payment);
    let expected = entries.update(0, (entries[0].0, (entries[0].1 - payment) as Balance));
    assert(entries.take(0) =~= Seq::<DebtEntry>::empty());
    assert forall|i: int| 0 <= i < entries.len() implies #[trigger] lowered[i] == expected[i] by {
        if i > 0 {
            lemma_entries_total_prefix(entries.take(i), 0);
            lemma_entries_total_prefix(entries.take(i), 1);
            assert(entries.take(i).take(1) =~= entries.take(1));
            assert(entries.take(i).take(0) =~= entries.take(0));
            assert(entries.take(i)[0] == entries[0]);
        }
    }
    assert(lowered =~= expected);
    lemma_all_outstanding(expected);
}

/// A list whose entries all owe something is what still owes something of it.
proof fn lemma_all_outstanding(entries: Seq<DebtEntry>)
    requires
        forall|i: int| 0 <= i < entries.len() ==> (#[trigger] entries[i]).1 > 0,
    ensures
        outstanding(entries) == entries,
    decreases entries.len(),
{
    if entries.len() > 0 {
        let front = entries.drop_last();
        assert forall|i: int| 0 <= i < front.len() implies (#[trigger] front[i]).1 > 0 by {
            assert(front[i] == entries[i]);
        }
        lemma_all_outstanding(front);
        assert(entries.last() == entries[entries.len() - 1]);
        assert(front.push(entries.last()) =~= entries);
    }
}

/// A repayment for a debtor without open debts is the transfer of the value from the
/// counterparty to the debtor: the ledger accepts the one where it accepts the other, and both
/// leave the same state.
pub proof fn law_repayment_without_debt_is_a_transfer(
    state: LedgerState,
    debtor: AccountId,
    counterparty: AccountId,
    value: Balance,
)
    requires
        !state.owes(debtor),
    ensures
        state.accepts(Operation::Repay { debtor, counterparty, value }) == state.accepts(
            Operation::Transfer { from: counterparty, to: debtor, value },
        ),
        state.after(Operation::Repay { debtor, counterparty, value }) == state.after(
            Operation::Transfer { from: counterparty, to: debtor, value },
        ),
{
}

/// A settlement takes nothing from any balance and leaves the debts of every other debtor as
/// they were.
pub proof fn law_settlement_debits_nobody(state: LedgerState, debtor: AccountId, payment: Balance, account: AccountId)
    requires
        state.wf(),
    ensures
        balance_in(state.settled(debtor, payment).balances, account) >= balance_in(
            state.balances,
            account,
        ),
        account != debtor ==> entries_in(state.settled(debtor, payment).debts, account)
            == entries_in(state.debts, account),
{
    lemma_settled(state, debtor, payment);
    let entries = entries_in(state.debts, debtor);
    lemma_with_credits(state.balances, credits_of(entries, payment));
    lemma_with_entries(state.debts, debtor, settled(entries, payment));
}

} // verus!
