//! The settlement of a payment against the debt entries of one debtor, in their stored order.
//!
//! The entry recorded first is paid first. An entry takes from the payment what it is owed, or
//! what is left of the payment if that is less. An entry that is paid in full leaves the list;
//! the others stay, in their order, with what they are still owed. The part of a payment that
//! exceeds the sum of the entries meets no debt: it is reported back and moves nothing.

use vstd::prelude::*;
use crate::entries::{distinct_lenders, entries_wf, names};
use crate::totals::{entries_total, lemma_entries_total_prefix, lemma_entries_total_push, owed_to};
use crate::types::{Balance, DebtEntry};

verus! {

/// What the entry at `at` takes from `payment`: the entries before it are served first, and it
/// takes no more than it is owed.
pub open spec fn consumed_at(entries: Seq<DebtEntry>, payment: Balance, at: int) -> Balance {
    let before = entries_total(entries.take(at));
    if payment <= before {
        0
    } else if payment - before >= entries[at].1 {
        entries[at].1
    } else {
        (payment - before) as Balance
    }
}

/// What each lender of the list receives from `payment`, entry by entry.
pub open spec fn credits_of(entries: Seq<DebtEntry>, payment: Balance) -> Seq<DebtEntry> {
    Seq::new(entries.len(), |i: int| (entries[i].0, consumed_at(entries, payment, i)))
}

/// The list with each entry lowered by what it takes from `payment`.
pub open spec fn reduced(entries: Seq<DebtEntry>, payment: Balance) -> Seq<DebtEntry> {
    Seq::new(
        entries.len(),
        |i: int| (entries[i].0, (entries[i].1 - consumed_at(entries, payment, i)) as Balance),
    )
}

/// The entries that still owe something, in their order.
pub open spec fn outstanding(entries: Seq<DebtEntry>) -> Seq<DebtEntry>
    decreases entries.len(),
{
    if entries.len() == 0 {
        entries
    } else if entries.last().1 > 0 {
        outstanding(entries.drop_last()).push(entries.last())
    } else {
        outstanding(entries.drop_last())
    }
}

/// The list that is left of `entries` once `payment` was applied to it.
pub open spec fn settled(entries: Seq<DebtEntry>, payment: Balance) -> Seq<DebtEntry> {
    outstanding(reduced(entries, payment))
}

/// The part of `payment` that meets a debt: all of it, or the sum of the entries if that is
/// less.
pub open spec fn applied(entries: Seq<DebtEntry>, payment: Balance) -> Balance {
    if payment <= entries_total(entries) {
        payment
    } else {
        entries_total(entries) as Balance
    }
}

/// The part of `payment` that meets no debt.
pub open spec fn unapplied(entries: Seq<DebtEntry>, payment: Balance) -> Balance {
    (payment - applied(entries, payment)) as Balance
}

/// Dropping the entries that owe nothing keeps the order, the total and what is recorded for
/// each lender, and names no lender that the list did not name.
pub proof fn lemma_outstanding(entries: Seq<DebtEntry>)
    ensures
        forall|i: int|
            0 <= i < outstanding(entries).len() ==> (#[trigger] outstanding(entries)[i]).1 > 0,
        forall|i: int|
            0 <= i < outstanding(entries).len() ==> names(
                entries,
                (#[trigger] outstanding(entries)[i]).0,
            ),
        distinct_lenders(entries) ==> distinct_lenders(outstanding(entries)),
        entries_total(outstanding(entries)) == entries_total(entries),
        forall|lender| owed_to(outstanding(entries), lender) == owed_to(entries, lender),
        outstanding(entries).len() <= entries.len(),
    decreases entries.len(),
{
    if entries.len() > 0 {
        let front = entries.drop_last();
        let last = entries.last();
        let kept = outstanding(front);
        lemma_outstanding(front);
        assert forall|i: int| 0 <= i < kept.len() implies names(entries, (#[trigger] kept[i]).0) by {
            let lender = kept[i].0;
            let j = choose|j: int| 0 <= j < front.len() && (#[trigger] front[j]).0 == lender;
            assert(entries[j].0 == lender);
        }
        assert forall|lender| owed_to(outstanding(entries), lender) == owed_to(
            entries,
            lender,
        ) by {
            assert(owed_to(kept, lender) == owed_to(front, lender));
            if last.1 > 0 {
                assert(kept.push(last).drop_last() =~= kept);
                assert(kept.push(last).last() == last);
            }
        }
        if last.1 > 0 {
            let result = kept.push(last);
            lemma_entries_total_push(kept, last);
            assert(result.drop_last() =~= kept);
            assert(entries[entries.len() - 1].0 == last.0);
            if distinct_lenders(entries) {
                assert forall|i: int, j: int| 0 <= i < j < result.len() implies (
                #[trigger] result[i]).0 != (#[trigger] result[j]).0 by {
                    if j == kept.len() {
                        let lender = kept[i].0;
                        let k = choose|k: int|
                            0 <= k < front.len() && (#[trigger] front[k]).0 == lender;
                        assert(entries[k].0 == lender);
                    }
                }
            }
        }
    }
}

/// The sums of a settlement: the credits add up to the part of the payment that was applied,
/// and the list that is left owes that much less than before.
pub proof fn lemma_settled_totals(entries: Seq<DebtEntry>, payment: Balance)
    ensures
        entries_total(credits_of(entries, payment)) == applied(entries, payment),
        entries_total(settled(entries, payment)) + applied(entries, payment) == entries_total(
            entries,
        ),
{
    lemma_reduced_prefix(entries, payment, entries.len() as int);
    lemma_entries_total_prefix(entries, entries.len() as int);
    assert(credits_of(entries, payment).take(entries.len() as int) =~= credits_of(
        entries,
        payment,
    ));
    assert(reduced(entries, payment).take(entries.len() as int) =~= reduced(entries, payment));
    lemma_outstanding(reduced(entries, payment));
}

/// After the first `n` entries, the credits add up to the payment or to the sum of those
/// entries, whichever is less, and the lowered entries owe that much less.
proof fn lemma_reduced_prefix(entries: Seq<DebtEntry>, payment: Balance, n: int)
    requires
        0 <= n <= entries.len(),
    ensures
        payment <= entries_total(entries.take(n)) ==> entries_total(
            credits_of(entries, payment).take(n),
        ) == payment,
        payment > entries_total(entries.take(n)) ==> entries_total(
            credits_of(entries, payment).take(n),
        ) == entries_total(entries.take(n)),
        entries_total(reduced(entries, payment).take(n)) + entries_total(
            credits_of(entries, payment).take(n),
        ) == entries_total(entries.take(n)),
    decreases n,
{
    let credits = credits_of(entries, payment);
    let lowered = reduced(entries, payment);
    if n > 0 {
        lemma_reduced_prefix(entries, payment, n - 1);
        lemma_entries_total_prefix(entries, n - 1);
        lemma_entries_total_prefix(credits, n - 1);
        lemma_entries_total_prefix(lowered, n - 1);
    } else {
        assert(entries.take(0) =~= Seq::<DebtEntry>::empty());
        assert(credits.take(0) =~= Seq::<DebtEntry>::empty());
        assert(lowered.take(0) =~= Seq::<DebtEntry>::empty());
    }
}

/// A settlement keeps a list well formed and names no lender that the list did not name.
pub proof fn lemma_settled_wf(entries: Seq<DebtEntry>, payment: Balance)
    requires
        entries_wf(entries),
    ensures
        entries_wf(settled(entries, payment)),
        forall|lender| names(settled(entries, payment), lender) ==> names(entries, lender),
        forall|i: int|
            0 <= i < entries.len() ==> names(
                entries,
                (#[trigger] credits_of(entries, payment)[i]).0,
            ),
{
    let lowered = reduced(entries, payment);
    lemma_outstanding(lowered);
    lemma_settled_totals(entries, payment);
    assert(distinct_lenders(lowered)) by {
        assert forall|i: int, j: int| 0 <= i < j < lowered.len() implies (#[trigger] lowered[i]).0
            != (#[trigger] lowered[j]).0 by {
            assert(entries[i].0 != entries[j].0);
        }
    }
    assert forall|lender| names(settled(entries, payment), lender) implies names(
        entries,
        lender,
    ) by {
        let left = settled(entries, payment);
        let i = choose|i: int| 0 <= i < left.len() && (#[trigger] left[i]).0 == lender;
        let j = choose|j: int| 0 <= j < lowered.len() && (#[trigger] lowered[j]).0 == left[i].0;
        assert(entries[j].0 == lender);
    }
    assert forall|i: int| 0 <= i < entries.len() implies names(
        entries,
        (#[trigger] credits_of(entries, payment)[i]).0,
    ) by {
        assert(entries[i].0 == credits_of(entries, payment)[i].0);
    }
}

/// What a settlement does to the entries of one debtor.
pub struct SettlementPlan {
    /// The entries that are left, in their order.
    pub remaining: Vec<DebtEntry>,
    /// What each lender receives: one credit for each entry, in the order of the entries.
    pub credits: Vec<DebtEntry>,
    /// The part of the payment that met no debt.
    pub refunded: Balance,
}

/// Applies `payment` to the entries of one debtor, the entry recorded first being paid first.
pub fn settle_entries(entries: &Vec<DebtEntry>, payment: Balance) -> (plan: SettlementPlan)
    ensures
        plan.remaining@ == settled(entries@, payment),
        plan.credits@ == credits_of(entries@, payment),
        plan.refunded == unapplied(entries@, payment),
{
    let mut remaining: Vec<DebtEntry> = Vec::new();
    let mut credits: Vec<DebtEntry> = Vec::new();
    let mut left: Balance = payment;
    let mut i: usize = 0;
    while i < entries.len()
        invariant
            i <= entries.len(),
            payment <= entries_total(entries@.take(i as int)) ==> left == 0,
            payment > entries_total(entries@.take(i as int)) ==> left == payment - entries_total(
                entries@.take(i as int),
            ),
            remaining@ == outstanding(reduced(entries@, payment).take(i as int)),
            credits@ == credits_of(entries@, payment).take(i as int),
        decreases entries.len() - i,
    {
        let (lender, owed) = entries[i];
        let consumed: Balance = if left < owed {
            left
        } else {
            owed
        };
        proof {
            lemma_entries_total_prefix(entries@, i as int);
            let lowered = reduced(entries@, payment);
            assert(lowered.take(i + 1).drop_last() =~= lowered.take(i as int));
            assert(credits_of(entries@, payment).take(i + 1) =~= credits_of(
                entries@,
                payment,
            ).take(i as int).push((lender, consumed)));
        }
        credits.push((lender, consumed));
        if owed - consumed > 0 {
            remaining.push((lender, owed - consumed));
        }
        left = left - consumed;
        i += 1;
    }
    proof {
        lemma_entries_total_prefix(entries@, i as int);
        assert(reduced(entries@, payment).take(i as int) =~= reduced(entries@, payment));
        assert(credits_of(entries@, payment).take(i as int) =~= credits_of(entries@, payment));
    }
    SettlementPlan { remaining, credits, refunded: left }
}

} // verus!
