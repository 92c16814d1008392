//! The debt book: for each debtor the list of what it owes, one entry for each lender, in the
//! order in which the lenders first lent. A debtor that owes nothing is not in the book.

use vstd::prelude::*;
use crate::entries::{entries_wf, lemma_merged, merge_entry, merged, sum_entries, sum_owed_to};
use crate::store::{
    debt_store_get, debt_store_insert, debt_store_keys, debt_store_len, debt_store_new,
    debt_store_take, held_debts, DebtStore,
};
use crate::totals::{
    debt_weight, entries_total, exposure_weight, keys_total, lemma_keys_total_all,
    lemma_keys_total_prefix, lemma_map_total_bounds, lemma_map_total_insert, lemma_map_total_le,
    lemma_map_total_remove, lemma_owed_to_bounds, map_total, owed_to,
};
use crate::types::{AccountId, Balance, DebtEntry};

verus! {

/// The entries that a book records for a debtor: none for a debtor that it does not hold.
pub open spec fn entries_in(debts: Map<AccountId, Seq<DebtEntry>>, debtor: AccountId) -> Seq<DebtEntry> {
    if debts.contains_key(debtor) {
        debts[debtor]
    } else {
        Seq::empty()
    }
}

/// The sum of all amounts owed in a book.
pub open spec fn debts_total(debts: Map<AccountId, Seq<DebtEntry>>) -> nat {
    map_total(debts, debt_weight())
}

/// The sum of all amounts that a book records as owed to `lender`, over all debtors.
pub open spec fn exposure_in(debts: Map<AccountId, Seq<DebtEntry>>, lender: AccountId) -> nat {
    map_total(debts, exposure_weight(lender))
}

/// A well-formed book: it holds finitely many debtors, and each of them has a list that is not
/// empty and is well formed.
pub open spec fn debts_wf(debts: Map<AccountId, Seq<DebtEntry>>) -> bool {
    &&& debts.dom().finite()
    &&& forall|debtor: AccountId| #[trigger]
        debts.contains_key(debtor) ==> debts[debtor].len() > 0 && entries_wf(debts[debtor])
}

/// The book after the list of `debtor` was replaced by `entries`: a debtor whose list is empty
/// leaves the book.
pub open spec fn with_entries(
    debts: Map<AccountId, Seq<DebtEntry>>,
    debtor: AccountId,
    entries: Seq<DebtEntry>,
) -> Map<AccountId, Seq<DebtEntry>> {
    if entries.len() == 0 {
        debts.remove(debtor)
    } else {
        debts.insert(debtor, entries)
    }
}

/// The book after a loan of `amount` from `lender` to `debtor` was recorded. A loan of nothing
/// records nothing.
pub open spec fn with_loan(
    debts: Map<AccountId, Seq<DebtEntry>>,
    debtor: AccountId,
    lender: AccountId,
    amount: Balance,
) -> Map<AccountId, Seq<DebtEntry>> {
    if amount == 0 {
        debts
    } else {
        debts.insert(debtor, merged(entries_in(debts, debtor), lender, amount))
    }
}

/// Whether a book can take `debtor` in: it holds the debtor already, or the number of debtors
/// it holds is below the limit of the collection that stores them.
pub open spec fn admits_debtor(debts: Map<AccountId, Seq<DebtEntry>>, debtor: AccountId) -> bool {
    debts.contains_key(debtor) || debts.dom().len() < u32::MAX
}

/// What one debtor owes is at most the sum of all that is owed, and what is owed to one lender
/// is at most that sum too.
pub proof fn lemma_debts_bounds(debts: Map<AccountId, Seq<DebtEntry>>, account: AccountId)
    requires
        debts.dom().finite(),
    ensures
        entries_total(entries_in(debts, account)) <= debts_total(debts),
        exposure_in(debts, account) <= debts_total(debts),
{
    if debts.contains_key(account) {
        lemma_map_total_bounds(debts, debt_weight(), account);
    }
    assert forall|entries: Seq<DebtEntry>| #[trigger]
        exposure_weight(account)(entries) <= debt_weight()(entries) by {
        lemma_owed_to_bounds(entries, account);
    }
    lemma_map_total_le(debts, exposure_weight(account), debt_weight());
}

/// Replacing the list of one debtor keeps a book well formed and changes its total, and what
/// it records for each lender, by the difference between the two lists.
pub proof fn lemma_with_entries(
    debts: Map<AccountId, Seq<DebtEntry>>,
    debtor: AccountId,
    entries: Seq<DebtEntry>,
)
    requires
        debts_wf(debts),
        entries_wf(entries),
    ensures
        debts_wf(with_entries(debts, debtor, entries)),
        entries_in(with_entries(debts, debtor, entries), debtor) == entries,
        forall|other: AccountId|
            other != debtor ==> entries_in(with_entries(debts, debtor, entries), other)
                == entries_in(debts, other),
        debts_total(with_entries(debts, debtor, entries)) + entries_total(
            entries_in(debts, debtor),
        ) == debts_total(debts) + entries_total(entries),
        forall|lender: AccountId|
            exposure_in(with_entries(debts, debtor, entries), lender) + owed_to(
                entries_in(debts, debtor),
                lender,
            ) == exposure_in(debts, lender) + owed_to(entries, lender),
{
    let result = with_entries(debts, debtor, entries);
    assert(entries_in(result, debtor) =~= entries);
    if entries.len() == 0 {
        if debts.contains_key(debtor) {
            lemma_map_total_remove(debts, debt_weight(), debtor);
        } else {
            assert(result =~= debts);
        }
    } else {
        lemma_map_total_insert(debts, debt_weight(), debtor, entries);
    }
    assert forall|lender: AccountId|
        exposure_in(result, lender) + owed_to(entries_in(debts, debtor), lender) == exposure_in(
            debts,
            lender,
        ) + owed_to(entries, lender) by {
        if entries.len() == 0 {
            if debts.contains_key(debtor) {
                lemma_map_total_remove(debts, exposure_weight(lender), debtor);
            }
        } else {
            lemma_map_total_insert(debts, exposure_weight(lender), debtor, entries);
        }
    }
}

/// Recording a loan keeps a book well formed, raises its total and what it records for the
/// lender by the amount, and changes the list of no other debtor.
pub proof fn lemma_with_loan(
    debts: Map<AccountId, Seq<DebtEntry>>,
    debtor: AccountId,
    lender: AccountId,
    amount: Balance,
)
    requires
        debts_wf(debts),
        entries_total(entries_in(debts, debtor)) + amount <= Balance::MAX,
    ensures
        debts_wf(with_loan(debts, debtor, lender, amount)),
        debts_total(with_loan(debts, debtor, lender, amount)) == debts_total(debts) + amount,
        exposure_in(with_loan(debts, debtor, lender, amount), lender) == exposure_in(debts, lender)
            + amount,
        forall|other: AccountId|
            other != debtor ==> entries_in(with_loan(debts, debtor, lender, amount), other)
                == entries_in(debts, other),
        amount > 0 ==> with_loan(debts, debtor, lender, amount) == with_entries(
            debts,
            debtor,
            merged(entries_in(debts, debtor), lender, amount),
        ),
{
    if amount > 0 {
        let before = entries_in(debts, debtor);
        lemma_merged(before, lender, amount);
        lemma_with_entries(debts, debtor, merged(before, lender, amount));
    }
}

/// The open debts of each debtor.
pub struct DebtBook {
    store: DebtStore,
}

impl View for DebtBook {
    type V = Map<AccountId, Seq<DebtEntry>>;

    closed spec fn view(&self) -> Map<AccountId, Seq<DebtEntry>> {
        held_debts(self.store)
    }
}

impl DebtBook {
    /// The book is well formed.
    pub open spec fn wf(&self) -> bool {
        debts_wf(self@)
    }

    /// A book that holds no debtor.
    pub fn new() -> (book: Self)
        ensures
            book.wf(),
            book@ == Map::<AccountId, Seq<DebtEntry>>::empty(),
    {
        DebtBook { store: debt_store_new() }
    }

    /// The entries of `debtor`, in their stored order: none for a debtor that owes nothing.
    pub fn entries_of(&self, debtor: AccountId) -> (entries: Vec<DebtEntry>)
        ensures
            entries@ == entries_in(self@, debtor),
    {
        match debt_store_get(&self.store, &debtor) {
            Some(entries) => entries,
            None => Vec::new(),
        }
    }

    /// The sum of what `debtor` owes: zero for a debtor that owes nothing.
    pub fn total_owed(&self, debtor: AccountId) -> (total: Balance)
        requires
            self.wf(),
        ensures
            total == entries_total(entries_in(self@, debtor)),
    {
        let entries = self.entries_of(debtor);
        assert(self@.contains_key(debtor) ==> entries_wf(self@[debtor]));
        sum_entries(&entries)
    }

    /// Whether the book has entries on record for `debtor`.
    pub fn holds(&self, debtor: AccountId) -> (held: bool)
        ensures
            held == self@.contains_key(debtor),
    {
        debt_store_get(&self.store, &debtor).is_some()
    }

    /// Whether the book can take `debtor` in.
    pub fn has_room_for(&self, debtor: AccountId) -> (room: bool)
        requires
            self.wf(),
        ensures
            room == admits_debtor(self@, debtor),
    {
        match debt_store_get(&self.store, &debtor) {
            Some(_) => true,
            None => debt_store_len(&self.store) < u32::MAX,
        }
    }

    /// Records a loan of `amount` from `lender` to `debtor`: the entry of the lender grows by
    /// the amount and keeps its place, and a lender without an entry gets one at the end.
    pub fn record_borrow(&mut self, debtor: AccountId, lender: AccountId, amount: Balance)
        requires
            old(self).wf(),
            entries_total(entries_in(old(self)@, debtor)) + amount <= Balance::MAX,
            admits_debtor(old(self)@, debtor),
        ensures
            final(self).wf(),
            final(self)@ == with_loan(old(self)@, debtor, lender, amount),
    {
        if amount == 0 {
            return ;
        }
        let entries = self.entries_of(debtor);
        assert(self@.contains_key(debtor) ==> entries_wf(self@[debtor]));
        let grown = merge_entry(entries, lender, amount);
        proof {
            lemma_with_loan(self@, debtor, lender, amount);
        }
        debt_store_insert(&mut self.store, debtor, grown);
    }

    /// Replaces the list of `debtor` by `entries`. A debtor whose list is empty leaves the book.
    pub fn replace_entries(&mut self, debtor: AccountId, entries: Vec<DebtEntry>)
        requires
            old(self).wf(),
            entries_wf(entries@),
            entries@.len() > 0 ==> admits_debtor(old(self)@, debtor),
        ensures
            final(self).wf(),
            final(self)@ == with_entries(old(self)@, debtor, entries@),
    {
        proof {
            lemma_with_entries(self@, debtor, entries@);
        }
        if entries.len() == 0 {
            debt_store_take(&mut self.store, &debtor);
        } else {
            debt_store_insert(&mut self.store, debtor, entries);
        }
    }

    /// The debtors of the book, each once, in no stated order.
    pub fn debtors(&self) -> (debtors: Vec<AccountId>)
        ensures
            debtors@.no_duplicates(),
            debtors@.to_set() == self@.dom(),
    {
        debt_store_keys(&self.store)
    }

    /// The sum of what all debtors owe to `lender`.
    pub fn total_exposure(&self, lender: AccountId) -> (total: Balance)
        requires
            self.wf(),
            exposure_in(self@, lender) <= Balance::MAX,
        ensures
            total == exposure_in(self@, lender),
    {
        let debtors = self.debtors();
        let weight = Ghost(exposure_weight(lender));
        proof {
            lemma_keys_total_all(self@, debtors@, weight@);
        }
        let mut total: Balance = 0;
        let mut i: usize = 0;
        while i < debtors.len()
            invariant
                i <= debtors.len(),
                self.wf(),
                weight@ == exposure_weight(lender),
                debtors@.to_set() == self@.dom(),
                keys_total(self@, debtors@, weight@) <= Balance::MAX,
                total == keys_total(self@, debtors@.take(i as int), weight@),
            decreases debtors.len() - i,
        {
            let debtor = debtors[i];
            proof {
                lemma_keys_total_prefix(self@, debtors@, weight@, i as int);
                lemma_keys_total_prefix(self@, debtors@, weight@, i + 1);
                assert(debtors@.contains(debtor));
                assert(debtors@.to_set().contains(debtor));
                assert(self@.contains_key(debtor));
            }
            let entries = self.entries_of(debtor);
            let owed = sum_owed_to(&entries, lender);
            total = total + owed;
            i += 1;
        }
        proof {
            lemma_keys_total_prefix(self@, debtors@, weight@, i as int);
        }
        total
    }
}

} // verus!
