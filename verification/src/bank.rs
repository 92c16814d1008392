//! The ledger itself: the operations that callers use. Each operation checks what it must before
//! it changes anything, so that a refused operation leaves the ledger as it was, and hands back
//! the record that the caller passes on to the notification sink.
//!
//! A payment that is larger than the debts it is applied to is not lost and is credited to
//! nobody: a settlement takes nothing from any balance, so the part that meets no debt stays
//! with the payer. The record of the settlement reports that part as `refunded`.

use vstd::prelude::*;
use vstd::slice::slice_to_vec;
use crate::balances::{admits, balance_in, lemma_balance_within_total, BalanceLedger};
use crate::debts::{admits_debtor, entries_in, exposure_in, lemma_debts_bounds, DebtBook};
use crate::entries::{check_entries, entries_wf, names};
use crate::settlement::{settle_entries, unapplied};
use crate::snapshot::{
    debt_lists, lemma_list_total_prefix, lemma_map_from, lemma_restored, list_total, listed_once,
    lists, map_from, restorable, restored,
};
use crate::state::{
    lemma_lent, lemma_opened, lemma_settled, lemma_transferred, LedgerState, Operation,
};
use crate::totals::{balance_weight, debt_weight, entries_total};
use crate::types::{AccountId, Balance, Borrow, DebtEntry, Error, Settlement, Transfer};

verus! {

/// What a repayment of `value` for `debtor` hands back. Where the debtor has open debts, the
/// record says which part of the value met none of them. Where it has none, the repayment is a
/// transfer from `counterparty`, refused where the balance of the counterparty does not cover
/// the value.
pub open spec fn repayment(state: LedgerState, debtor: AccountId, counterparty: AccountId, value: Balance) -> Result<
    Settlement,
    Error,
> {
    if state.owes(debtor) {
        Ok(
            Settlement {
                debtor,
                counterparty,
                value,
                refunded: unapplied(entries_in(state.debts, debtor), value),
            },
        )
    } else if state.covers(counterparty, value) {
        Ok(Settlement { debtor, counterparty, value, refunded: 0 })
    } else {
        Err(Error::InsufficientBalance)
    }
}

/// A token ledger with loans between its accounts.
pub struct ReserveBank {
    reserved_balance: Balance,
    balances: BalanceLedger,
    debts: DebtBook,
}

impl View for ReserveBank {
    type V = LedgerState;

    closed spec fn view(&self) -> LedgerState {
        LedgerState {
            reserved: self.reserved_balance,
            balances: self.balances@,
            debts: self.debts@,
        }
    }
}

impl ReserveBank {
    /// The state of the ledger is well formed.
    pub open spec fn wf(&self) -> bool {
        self@.wf()
    }

    /// Opens a ledger with `reserved_balance` as its endowment, all of it in the balance of
    /// `caller`, and hands back the record of that first credit.
    pub fn new(caller: AccountId, reserved_balance: Balance) -> (opened: (Self, Transfer))
        ensures
            opened.0.wf(),
            opened.0@ == LedgerState::opened(caller, reserved_balance),
            opened.1 == (Transfer { from: None, to: Some(caller), value: reserved_balance }),
    {
        let mut balances = BalanceLedger::new();
        let debts = DebtBook::new();
        proof {
            lemma_opened(caller, reserved_balance);
            assert(balances@.dom().len() == 0);
        }
        balances.credit(caller, reserved_balance);
        let bank = ReserveBank { reserved_balance, balances, debts };
        (bank, Transfer { from: None, to: Some(caller), value: reserved_balance })
    }

    /// Builds the ledger that two lists stand for: the balance of each account, and the entries
    /// of each debtor. Hands back nothing where the lists stand for no well-formed state. The
    /// endowment of the ledger is the sum of all that is listed.
    pub fn restore(balances: Vec<(AccountId, Balance)>, debts: Vec<(AccountId, Vec<DebtEntry>)>) -> (bank:
        Option<Self>)
        ensures
            bank.is_some() == restorable(balances@, debt_lists(debts@)),
            bank.is_some() ==> bank.unwrap().wf() && bank.unwrap()@ == restored(
                balances@,
                debt_lists(debts@),
            ),
    {
        let ghost listed = debt_lists(debts@);
        let mut ledger = BalanceLedger::new();
        let mut total: Balance = 0;
        let mut i: usize = 0;
        proof {
            assert(balances@.take(0) =~= Seq::<(AccountId, Balance)>::empty());
            lemma_map_from(balances@.take(0), balance_weight());
        }
        while i < balances.len()
            invariant
                i <= balances.len(),
                ledger.wf(),
                ledger@ == map_from(balances@.take(i as int)),
                listed_once(balances@.take(i as int)),
                total == list_total(balances@.take(i as int), balance_weight()),
                i <= u32::MAX,
            decreases balances.len() - i,
        {
            let (account, balance) = balances[i];
            proof {
                let done = balances@.take(i as int);
                lemma_map_from(done, balance_weight());
                lemma_list_total_prefix(balances@, balance_weight(), i as int);
                lemma_list_total_prefix(balances@, balance_weight(), i + 1);
                lemma_balance_within_total(ledger@, account);
                assert(balances@.take(i + 1).drop_last() =~= done);
                if lists(done, account) {
                    let j = choose|j: int| 0 <= j < done.len() && (#[trigger] done[j]).0 == account;
                    assert(balances@[j].0 == balances@[i as int].0);
                }
            }
            if ledger.holds(account) || !ledger.has_room_for(account) {
                return None;
            }
            match total.checked_add(balance) {
                Some(more) => {
                    total = more;
                },
                None => {
                    return None;
                },
            }
            ledger.credit(account, balance);
            proof {
                let more = balances@.take(i + 1);
                assert forall|k: int, l: int| 0 <= k < l < more.len() implies (#[trigger] more[k]).0
                    != (#[trigger] more[l]).0 by {
                    if l == i {
                        assert(balances@.take(i as int)[k].0 == more[k].0);
                        assert(lists(balances@.take(i as int), more[k].0));
                    } else {
                        assert(balances@.take(i as int)[k] == more[k]);
                        assert(balances@.take(i as int)[l] == more[l]);
                    }
                }
            }
            i += 1;
        }
        let mut book = DebtBook::new();
        let mut i: usize = 0;
        proof {
            assert(balances@.take(balances@.len() as int) =~= balances@);
            assert(listed.take(0) =~= Seq::<(AccountId, Seq<DebtEntry>)>::empty());
            lemma_map_from(listed.take(0), debt_weight());
            lemma_map_from(balances@, balance_weight());
        }
        while i < debts.len()
            invariant
                i <= debts.len(),
                i <= u32::MAX,
                listed == debt_lists(debts@),
                ledger.wf(),
                ledger@ == map_from(balances@),
                listed_once(balances@),
                balances@.len() <= u32::MAX,
                book.wf(),
                book@ == map_from(listed.take(i as int)),
                listed_once(listed.take(i as int)),
                total == list_total(balances@, balance_weight()) + list_total(
                    listed.take(i as int),
                    debt_weight(),
                ),
                forall|k: int|
                    0 <= k < i ==> (#[trigger] listed[k]).1.len() > 0 && entries_wf(listed[k].1),
                forall|k: int, lender: AccountId|
                    0 <= k < i && names((#[trigger] listed[k]).1, lender) ==> #[trigger] lists(
                        balances@,
                        lender,
                    ),
            decreases debts.len() - i,
        {
            let debtor = debts[i].0;
            let entries = slice_to_vec(debts[i].1.as_slice());
            proof {
                let done = listed.take(i as int);
                lemma_map_from(done, debt_weight());
                lemma_map_from(balances@, balance_weight());
                lemma_list_total_prefix(listed, debt_weight(), i as int);
                lemma_list_total_prefix(listed, debt_weight(), i + 1);
                assert(listed.take(i + 1).drop_last() =~= done);
                assert(listed[i as int].1 == entries@);
                if lists(done, debtor) {
                    let j = choose|j: int| 0 <= j < done.len() && (#[trigger] done[j]).0 == debtor;
                    assert(listed[j].0 == listed[i as int].0);
                }
            }
            if entries.len() == 0 || book.holds(debtor) || !book.has_room_for(debtor) {
                return None;
            }
            let owed = match check_entries(&entries) {
                Some(owed) => owed,
                None => {
                    return None;
                },
            };
            let mut j: usize = 0;
            while j < entries.len()
                invariant
                    j <= entries.len(),
                    i < debts.len(),
                    listed == debt_lists(debts@),
                    listed[i as int].1 == entries@,
                    ledger@ == map_from(balances@),
                    forall|account: AccountId| #[trigger]
                        map_from(balances@).contains_key(account) <==> lists(balances@, account),
                    forall|k: int| 0 <= k < j ==> lists(balances@, (#[trigger] entries@[k]).0),
                decreases entries.len() - j,
            {
                if !ledger.holds(entries[j].0) {
                    assert(names(listed[i as int].1, entries@[j as int].0));
                    return None;
                }
                j += 1;
            }
            match total.checked_add(owed) {
                Some(more) => {
                    total = more;
                },
                None => {
                    return None;
                },
            }
            book.replace_entries(debtor, entries);
            proof {
                let more = listed.take(i + 1);
                assert forall|k: int, l: int| 0 <= k < l < more.len() implies (#[trigger] more[k]).0
                    != (#[trigger] more[l]).0 by {
                    if l == i {
                        assert(listed.take(i as int)[k].0 == more[k].0);
                        assert(lists(listed.take(i as int), more[k].0));
                    } else {
                        assert(listed.take(i as int)[k] == more[k]);
                        assert(listed.take(i as int)[l] == more[l]);
                    }
                }
                assert forall|k: int, lender: AccountId|
                    0 <= k < i + 1 && names((#[trigger] listed[k]).1, lender) implies #[trigger] lists(
                    balances@,
                    lender,
                ) by {
                    if k == i {
                        let at = choose|at: int|
                            0 <= at < entries@.len() && (#[trigger] entries@[at]).0 == lender;
                        assert(lists(balances@, entries@[at].0));
                    }
                }
            }
            i += 1;
        }
        proof {
            assert(listed.take(listed.len() as int) =~= listed);
            lemma_restored(balances@, listed);
        }
        Some(ReserveBank { reserved_balance: total, balances: ledger, debts: book })
    }

    /// The endowment that the ledger was opened with.
    pub fn reserved_balance(&self) -> (reserved: Balance)
        ensures
            reserved == self@.reserved,
    {
        self.reserved_balance
    }

    /// The balance of `caller`.
    pub fn my_balance(&self, caller: AccountId) -> (balance: Balance)
        ensures
            balance == balance_in(self@.balances, caller),
    {
        self.balances.balance_of(caller)
    }

    /// The balance of `owner`: zero for an account that the ledger has never seen.
    pub fn balance_of(&self, owner: AccountId) -> (balance: Balance)
        ensures
            balance == balance_in(self@.balances, owner),
    {
        self.balances.balance_of(owner)
    }

    /// The sum of what `debtor` owes: zero for a debtor without open debts.
    pub fn debt_of(&self, debtor: AccountId) -> (total: Balance)
        requires
            self.wf(),
        ensures
            total == entries_total(entries_in(self@.debts, debtor)),
    {
        self.debts.total_owed(debtor)
    }

    /// The sum of what `user_id` owes, or `None` for a debtor without open debts.
    pub fn borrowed_balance_of(&self, user_id: AccountId) -> (total: Option<Balance>)
        requires
            self.wf(),
        ensures
            total.is_some() == self@.owes(user_id),
            total.is_some() ==> total.unwrap() == entries_total(entries_in(self@.debts, user_id)),
    {
        let entries = self.debts.entries_of(user_id);
        if entries.len() == 0 {
            None
        } else {
            Some(self.debts.total_owed(user_id))
        }
    }

    /// The open debt entries of `debtor`, the one recorded first coming first.
    pub fn entries_of(&self, debtor: AccountId) -> (entries: Vec<DebtEntry>)
        ensures
            entries@ == entries_in(self@.debts, debtor),
    {
        self.debts.entries_of(debtor)
    }

    /// The sum of what all debtors owe to `account`.
    pub fn total_exposure(&self, account: AccountId) -> (total: Balance)
        requires
            self.wf(),
        ensures
            total == exposure_in(self@.debts, account),
    {
        proof {
            lemma_debts_bounds(self@.debts, account);
        }
        self.debts.total_exposure(account)
    }

    /// Whether the ledger has a balance on record for `account`.
    pub fn has_account(&self, account: AccountId) -> (held: bool)
        ensures
            held == self@.balances.contains_key(account),
    {
        self.balances.holds(account)
    }

    /// Whether the ledger can take a balance for `account` on record.
    pub fn admits_account(&self, account: AccountId) -> (room: bool)
        requires
            self.wf(),
        ensures
            room == admits(self@.balances, account),
    {
        self.balances.has_room_for(account)
    }

    /// Whether the ledger can take debts of `debtor` on record.
    pub fn admits_debtor(&self, debtor: AccountId) -> (room: bool)
        requires
            self.wf(),
        ensures
            room == admits_debtor(self@.debts, debtor),
    {
        self.debts.has_room_for(debtor)
    }

    /// Moves `value` from the balance of `from` to the balance of `to`, or refuses and changes
    /// nothing where the balance of `from` does not cover it.
    pub fn transfer(&mut self, from: AccountId, to: AccountId, value: Balance) -> (outcome: Result<
        Transfer,
        Error,
    >)
        requires
            old(self).wf(),
            admits(old(self)@.balances, to),
        ensures
            final(self).wf(),
            final(self)@ == old(self)@.after(Operation::Transfer { from, to, value }),
            outcome == (if old(self)@.covers(from, value) {
                Ok::<Transfer, Error>(Transfer { from: Some(from), to: Some(to), value })
            } else {
                Err::<Transfer, Error>(Error::InsufficientBalance)
            }),
    {
        proof {
            if self@.covers(from, value) {
                lemma_transferred(self@, from, to, value);
            }
        }
        match self.balances.debit(from, value) {
            Err(refusal) => Err(refusal),
            Ok(_) => {
                self.balances.credit(to, value);
                Ok(Transfer { from: Some(from), to: Some(to), value })
            },
        }
    }

    /// Lends `value` from `from` to `to`: the value leaves the balance of the lender `from` and
    /// is recorded as owed to it by the borrower `to`. Refuses and changes nothing where the
    /// balance of `from` does not cover it.
    pub fn borrow(&mut self, from: AccountId, to: AccountId, value: Balance) -> (outcome: Result<
        Borrow,
        Error,
    >)
        requires
            old(self).wf(),
            admits_debtor(old(self)@.debts, to),
        ensures
            final(self).wf(),
            final(self)@ == old(self)@.after(Operation::Borrow { from, to, value }),
            outcome == (if old(self)@.covers(from, value) {
                Ok::<Borrow, Error>(Borrow { from: Some(from), to: Some(to), value })
            } else {
                Err::<Borrow, Error>(Error::InsufficientBalance)
            }),
    {
        proof {
            if self@.covers(from, value) {
                lemma_lent(self@, from, to, value);
            }
        }
        match self.balances.debit(from, value) {
            Err(refusal) => Err(refusal),
            Ok(_) => {
                self.debts.record_borrow(to, from, value);
                Ok(Borrow { from: Some(from), to: Some(to), value })
            },
        }
    }

    /// Applies `payment` to the open debts of `debtor`, the debt recorded first being paid
    /// first, and credits each lender with what its entry took. Hands back the part of the
    /// payment that met no debt: for a debtor without open debts that is all of it, and nothing
    /// changes.
    pub fn settle(&mut self, debtor: AccountId, payment: Balance) -> (refunded: Balance)
        requires
            old(self).wf(),
        ensures
            final(self).wf(),
            final(self)@ == old(self)@.settled(debtor, payment),
            refunded == unapplied(entries_in(old(self)@.debts, debtor), payment),
    {
        let entries = self.debts.entries_of(debtor);
        let plan = settle_entries(&entries, payment);
        proof {
            lemma_settled(self@, debtor, payment);
        }
        self.balances.credit_all(&plan.credits);
        self.debts.replace_entries(debtor, plan.remaining);
        plan.refunded
    }

    /// Repays `value` for `debtor`. Where the debtor has open debts, the value is applied to
    /// them as `settle` does, and nothing is taken from `counterparty`. Where it has none, the
    /// value moves from the balance of `counterparty` to the balance of `debtor` as `transfer`
    /// does, or the repayment is refused where that balance does not cover it.
    pub fn repay(&mut self, debtor: AccountId, counterparty: AccountId, value: Balance) -> (outcome:
        Result<Settlement, Error>)
        requires
            old(self).wf(),
            !old(self)@.owes(debtor) ==> admits(old(self)@.balances, debtor),
        ensures
            final(self).wf(),
            final(self)@ == old(self)@.after(Operation::Repay { debtor, counterparty, value }),
            outcome == repayment(old(self)@, debtor, counterparty, value),
    {
        let entries = self.debts.entries_of(debtor);
        if entries.len() == 0 {
            match self.transfer(counterparty, debtor, value) {
                Err(refusal) => Err(refusal),
                Ok(_) => Ok(Settlement { debtor, counterparty, value, refunded: 0 }),
            }
        } else {
            let refunded = self.settle(debtor, value);
            Ok(Settlement { debtor, counterparty, value, refunded })
        }
    }

    /// The caller delivers documents to `to` and is paid `value` for them: a repayment of
    /// `value` for `caller` with `to` as the counterparty. The documents themselves play no
    /// part in the ledger.
    pub fn send_documents(&mut self, caller: AccountId, to: AccountId, value: Balance, file: Vec<u8>) -> (outcome:
        Result<Settlement, Error>)
        requires
            old(self).wf(),
            !old(self)@.owes(caller) ==> admits(old(self)@.balances, caller),
        ensures
            final(self).wf(),
            final(self)@ == old(self)@.after(
                Operation::Repay { debtor: caller, counterparty: to, value },
            ),
            outcome == repayment(old(self)@, caller, to, value),
    {
        self.repay(caller, to, value)
    }
}

} // verus!
