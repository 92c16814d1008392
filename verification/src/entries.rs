//! The list of debt entries of one debtor: what makes it well formed, and how a new loan enters
//! it.

use vstd::prelude::*;
use crate::totals::{
    entries_total, lemma_entries_total_prefix, lemma_entries_total_push,
    lemma_entries_total_update, lemma_owed_to_bounds, owed_to,
};
use crate::types::{same_account, AccountId, Balance, DebtEntry};

verus! {

/// Whether one of the entries names `lender`.
pub open spec fn names(entries: Seq<DebtEntry>, lender: AccountId) -> bool {
    exists|i: int| 0 <= i < entries.len() && (#[trigger] entries[i]).0 == lender
}

/// No lender has two entries.
pub open spec fn distinct_lenders(entries: Seq<DebtEntry>) -> bool {
    forall|i: int, j: int|
        0 <= i < j < entries.len() ==> (#[trigger] entries[i]).0 != (#[trigger] entries[j]).0
}

/// A well-formed list: every entry owes something, no lender has two entries, and the sum of
/// the amounts is an amount.
pub open spec fn entries_wf(entries: Seq<DebtEntry>) -> bool {
    &&& forall|i: int| 0 <= i < entries.len() ==> (#[trigger] entries[i]).1 > 0
    &&& distinct_lenders(entries)
    &&& entries_total(entries) <= Balance::MAX
}

/// The list after a loan of `amount` from `lender` was recorded in it: the entry of the lender
/// grows by the amount and keeps its place; a lender without an entry gets one at the end.
pub open spec fn merged(entries: Seq<DebtEntry>, lender: AccountId, amount: Balance) -> Seq<DebtEntry> {
    if names(entries, lender) {
        Seq::new(
            entries.len(),
            |i: int|
                if entries[i].0 == lender {
                    (lender, (entries[i].1 + amount) as Balance)
                } else {
                    entries[i]
                },
        )
    } else {
        entries.push((lender, amount))
    }
}

/// What a list records for a lender is the amount of the lender's entry, where no lender has
/// two entries.
pub proof fn lemma_owed_to_entry(entries: Seq<DebtEntry>, at: int)
    requires
        distinct_lenders(entries),
        0 <= at < entries.len(),
    ensures
        owed_to(entries, entries[at].0) == entries[at].1,
    decreases entries.len(),
{
    let lender = entries[at].0;
    let front = entries.drop_last();
    if at == entries.len() - 1 {
        lemma_owed_to_absent(front, lender);
    } else {
        assert(front[at] == entries[at]);
        lemma_owed_to_entry(front, at);
    }
}

/// A list records nothing for a lender that it does not name.
pub proof fn lemma_owed_to_absent(entries: Seq<DebtEntry>, lender: AccountId)
    requires
        forall|i: int| 0 <= i < entries.len() ==> (#[trigger] entries[i]).0 != lender,
    ensures
        owed_to(entries, lender) == 0,
    decreases entries.len(),
{
    if entries.len() > 0 {
        lemma_owed_to_absent(entries.drop_last(), lender);
    }
}

/// Recording a loan keeps a list well formed, raises its total and what it records for the
/// lender by the amount, and changes what it records for no other lender.
pub proof fn lemma_merged(entries: Seq<DebtEntry>, lender: AccountId, amount: Balance)
    requires
        entries_wf(entries),
        amount > 0,
        entries_total(entries) + amount <= Balance::MAX,
    ensures
        entries_wf(merged(entries, lender, amount)),
        merged(entries, lender, amount).len() > 0,
        names(merged(entries, lender, amount), lender),
        entries_total(merged(entries, lender, amount)) == entries_total(entries) + amount,
        owed_to(merged(entries, lender, amount), lender) == owed_to(entries, lender) + amount,
        forall|other: AccountId|
            other != lender ==> owed_to(merged(entries, lender, amount), other) == owed_to(
                entries,
                other,
            ),
        forall|other: AccountId|
            names(merged(entries, lender, amount), other) <==> (other == lender || names(
                entries,
                other,
            )),
{
    let result = merged(entries, lender, amount);
    if names(entries, lender) {
        let at = choose|i: int| 0 <= i < entries.len() && (#[trigger] entries[i]).0 == lender;
        lemma_entries_total_prefix(entries, at);
        lemma_entries_total_prefix(entries, at + 1);
        let grown: DebtEntry = (lender, (entries[at].1 + amount) as Balance);
        assert(result =~= entries.update(at, grown));
        lemma_entries_total_update(entries, at, grown);
        assert(result[at].0 == lender);
        lemma_owed_to_entry(entries, at);
        lemma_owed_to_entry(result, at);
        assert forall|other: AccountId| other != lender implies owed_to(result, other) == owed_to(
            entries,
            other,
        ) by {
            lemma_owed_to_update(entries, at, grown, other);
        }
        assert forall|other: AccountId| names(result, other) <==> (other == lender || names(
            entries,
            other,
        )) by {
            if names(result, other) {
                let i = choose|i: int| 0 <= i < result.len() && (#[trigger] result[i]).0 == other;
                assert(entries[i].0 == other);
            }
            if names(entries, other) {
                let i = choose|i: int| 0 <= i < entries.len() && (#[trigger] entries[i]).0
                    == other;
                assert(result[i].0 == other);
            }
        }
    } else {
        let fresh: DebtEntry = (lender, amount);
        lemma_entries_total_push(entries, fresh);
        assert(result.drop_last() =~= entries);
        assert(result[entries.len() as int] == fresh);
        lemma_owed_to_absent(entries, lender);
        assert forall|other: AccountId| names(result, other) <==> (other == lender || names(
            entries,
            other,
        )) by {
            if names(result, other) && other != lender {
                let i = choose|i: int| 0 <= i < result.len() && (#[trigger] result[i]).0 == other;
                assert(entries[i].0 == other);
            }
            if names(entries, other) {
                let i = choose|i: int| 0 <= i < entries.len() && (#[trigger] entries[i]).0
                    == other;
                assert(result[i].0 == other);
            }
        }
    }
}

/// Replacing one entry by another of the same lender changes what the list records for no
/// other lender.
pub proof fn lemma_owed_to_update(entries: Seq<DebtEntry>, at: int, entry: DebtEntry, other: AccountId)
    requires
        0 <= at < entries.len(),
        entry.0 == entries[at].0,
        other != entry.0,
    ensures
        owed_to(entries.update(at, entry), other) == owed_to(entries, other),
    decreases entries.len(),
{
    if at == entries.len() - 1 {
        assert(entries.update(at, entry).drop_last() =~= entries.drop_last());
    } else {
        lemma_owed_to_update(entries.drop_last(), at, entry, other);
        assert(entries.update(at, entry).drop_last() =~= entries.drop_last().update(at, entry));
    }
}

/// Records a loan of `amount` from `lender` in the list of one debtor.
pub fn merge_entry(entries: Vec<DebtEntry>, lender: AccountId, amount: Balance) -> (result: Vec<DebtEntry>)
    requires
        distinct_lenders(entries@),
        entries_total(entries@) + amount <= Balance::MAX,
    ensures
        result@ == merged(entries@, lender, amount),
{
    let mut list = entries;
    let ghost before = list@;
    let mut i: usize = 0;
    while i < list.len()
        invariant
            list@ == before,
            before == entries@,
            i <= list.len(),
            distinct_lenders(before),
            entries_total(before) + amount <= Balance::MAX,
            forall|j: int| 0 <= j < i ==> (#[trigger] before[j]).0 != lender,
        decreases list.len() - i,
    {
        let (holder, owed) = list[i];
        if same_account(&holder, &lender) {
            proof {
                lemma_entries_total_prefix(before, i as int);
                lemma_entries_total_prefix(before, i + 1);
            }
            list.set(i, (lender, owed + amount));
            assert(before[i as int].0 == lender);
            assert(list@ =~= merged(before, lender, amount));
            return list;
        }
        i += 1;
    }
    list.push((lender, amount));
    list
}

/// The sum of the amounts of a list of entries.
pub fn sum_entries(entries: &Vec<DebtEntry>) -> (total: Balance)
    requires
        entries_total(entries@) <= Balance::MAX,
    ensures
        total == entries_total(entries@),
{
    let mut total: Balance = 0;
    let mut i: usize = 0;
    while i < entries.len()
        invariant
            i <= entries.len(),
            entries_total(entries@) <= Balance::MAX,
            total == entries_total(entries@.take(i as int)),
        decreases entries.len() - i,
    {
        proof {
            lemma_entries_total_prefix(entries@, i as int);
            lemma_entries_total_prefix(entries@, i + 1);
        }
        total = total + entries[i].1;
        i += 1;
    }
    proof {
        lemma_entries_total_prefix(entries@, i as int);
    }
    total
}

/// The sum of the amounts that a list of entries records for `lender`.
pub fn sum_owed_to(entries: &Vec<DebtEntry>, lender: AccountId) -> (total: Balance)
    requires
        entries_total(entries@) <= Balance::MAX,
    ensures
        total == owed_to(entries@, lender),
{
    let mut total: Balance = 0;
    let mut i: usize = 0;
    while i < entries.len()
        invariant
            i <= entries.len(),
            entries_total(entries@) <= Balance::MAX,
            total == owed_to(entries@.take(i as int), lender),
        decreases entries.len() - i,
    {
        let (holder, owed) = entries[i];
        proof {
            lemma_entries_total_prefix(entries@, i + 1);
            lemma_owed_to_bounds(entries@.take(i + 1), lender);
            assert(entries@.take(i + 1).drop_last() =~= entries@.take(i as int));
        }
        if same_account(&holder, &lender) {
            total = total + owed;
        }
        i += 1;
    }
    assert(entries@.take(i as int) =~= entries@);
    total
}

/// Whether a list of entries is well formed, and if so the sum of its amounts.
pub fn check_entries(entries: &Vec<DebtEntry>) -> (total: Option<Balance>)
    ensures
        total.is_some() == entries_wf(entries@),
        total.is_some() ==> total.unwrap() == entries_total(entries@),
{
    let mut sum: Balance = 0;
    let mut i: usize = 0;
    assert(entries@.take(0) =~= Seq::<DebtEntry>::empty());
    while i < entries.len()
        invariant
            i <= entries.len(),
            sum == entries_total(entries@.take(i as int)),
            forall|k: int| 0 <= k < i ==> (#[trigger] entries@[k]).1 > 0,
            forall|k: int, l: int|
                0 <= k < l < i ==> (#[trigger] entries@[k]).0 != (#[trigger] entries@[l]).0,
        decreases entries.len() - i,
    {
        let (lender, amount) = entries[i];
        if amount == 0 {
            return None;
        }
        let mut j: usize = 0;
        while j < i
            invariant
                j <= i < entries.len(),
                lender == entries@[i as int].0,
                forall|k: int| 0 <= k < j ==> (#[trigger] entries@[k]).0 != lender,
            decreases i - j,
        {
            if same_account(&entries[j].0, &lender) {
                return None;
            }
            j += 1;
        }
        proof {
            lemma_entries_total_prefix(entries@, i as int);
            lemma_entries_total_prefix(entries@, i + 1);
        }
        match sum.checked_add(amount) {
            Some(more) => {
                sum = more;
            },
            None => {
                return None;
            },
        }
        i += 1;
    }
    proof {
        lemma_entries_total_prefix(entries@, i as int);
    }
    Some(sum)
}

} // verus!
