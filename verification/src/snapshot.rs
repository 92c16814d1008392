//! A ledger written down as two lists, one of balances and one of debts, and what such lists
//! must satisfy to stand for a well-formed state.

use vstd::prelude::*;
use crate::balances::balances_total;
use crate::debts::{debts_total, debts_wf};
use crate::entries::{entries_wf, names};
use crate::state::LedgerState;
use crate::totals::{
    balance_weight, debt_weight, lemma_map_total_empty, lemma_map_total_insert, map_total,
};
use crate::types::{AccountId, Balance, DebtEntry};

verus! {

/// The mapping that a list of pairs stands for: each account with the value listed for it.
pub open spec fn map_from<V>(list: Seq<(AccountId, V)>) -> Map<AccountId, V>
    decreases list.len(),
{
    if list.len() == 0 {
        Map::empty()
    } else {
        map_from(list.drop_last()).insert(list.last().0, list.last().1)
    }
}

/// No account is listed twice.
pub open spec fn listed_once<V>(list: Seq<(AccountId, V)>) -> bool {
    forall|i: int, j: int|
        0 <= i < j < list.len() ==> (#[trigger] list[i]).0 != (#[trigger] list[j]).0
}

/// Whether the list has a pair for `account`.
pub open spec fn lists<V>(list: Seq<(AccountId, V)>, account: AccountId) -> bool {
    exists|i: int| 0 <= i < list.len() && (#[trigger] list[i]).0 == account
}

/// The sum of `weight` over the values of a list of pairs.
pub open spec fn list_total<V>(list: Seq<(AccountId, V)>, weight: spec_fn(V) -> nat) -> nat
    decreases list.len(),
{
    if list.len() == 0 {
        0
    } else {
        list_total(list.drop_last(), weight) + weight(list.last().1)
    }
}

/// The debts of a list, each debtor with its entries as a sequence.
pub open spec fn debt_lists(debts: Seq<(AccountId, Vec<DebtEntry>)>) -> Seq<(AccountId, Seq<DebtEntry>)> {
    Seq::new(debts.len(), |i: int| (debts[i].0, debts[i].1@))
}

/// Whether two lists stand for a well-formed state: no account and no debtor is listed twice,
/// neither list is longer than the ledger can hold, each debtor has a list of entries that is
/// not empty and is well formed, every lender has a balance listed, and the sum of all balances
/// and of all debts is an amount.
pub open spec fn restorable(
    balances: Seq<(AccountId, Balance)>,
    debts: Seq<(AccountId, Seq<DebtEntry>)>,
) -> bool {
    &&& listed_once(balances)
    &&& listed_once(debts)
    &&& balances.len() <= u32::MAX
    &&& debts.len() <= u32::MAX
    &&& forall|i: int|
        0 <= i < debts.len() ==> (#[trigger] debts[i]).1.len() > 0 && entries_wf(debts[i].1)
    &&& forall|i: int, lender: AccountId|
        0 <= i < debts.len() && names((#[trigger] debts[i]).1, lender) ==> #[trigger] lists(
            balances,
            lender,
        )
    &&& list_total(balances, balance_weight()) + list_total(debts, debt_weight()) <= Balance::MAX
}

/// The state that two lists stand for. Its endowment is the sum of all that is listed.
pub open spec fn restored(
    balances: Seq<(AccountId, Balance)>,
    debts: Seq<(AccountId, Seq<DebtEntry>)>,
) -> LedgerState {
    LedgerState {
        reserved: (list_total(balances, balance_weight()) + list_total(
            debts,
            debt_weight(),
        )) as Balance,
        balances: map_from(balances),
        debts: map_from(debts),
    }
}

/// The sum over a prefix of a list is at most the sum over the list, and grows by the weight of
/// the next value.
pub proof fn lemma_list_total_prefix<V>(list: Seq<(AccountId, V)>, weight: spec_fn(V) -> nat, n: int)
    requires
        0 <= n <= list.len(),
    ensures
        list_total(list.take(n), weight) <= list_total(list, weight),
        n < list.len() ==> list_total(list.take(n + 1), weight) == list_total(list.take(n), weight)
            + weight(list[n].1),
        list_total(list.take(list.len() as int), weight) == list_total(list, weight),
    decreases list.len() - n,
{
    assert(list.take(list.len() as int) =~= list);
    if n < list.len() {
        assert(list.take(n + 1).drop_last() =~= list.take(n));
        lemma_list_total_prefix(list, weight, n + 1);
    }
}

/// The mapping of a list holds the accounts that the list has a pair for, and no others.
/// Where no account is listed twice, it holds under each account the value listed for it, it
/// holds as many accounts as the list has pairs, and its total is the sum over the list.
pub proof fn lemma_map_from<V>(list: Seq<(AccountId, V)>, weight: spec_fn(V) -> nat)
    ensures
        map_from(list).dom().finite(),
        forall|account: AccountId| #[trigger]
            map_from(list).contains_key(account) <==> lists(list, account),
        listed_once(list) ==> map_from(list).dom().len() == list.len(),
        listed_once(list) ==> map_total(map_from(list), weight) == list_total(list, weight),
        listed_once(list) ==> forall|i: int|
            0 <= i < list.len() ==> map_from(list)[(#[trigger] list[i]).0] == list[i].1,
    decreases list.len(),
{
    if list.len() == 0 {
        lemma_map_total_empty::<AccountId, V>(weight);
        assert(map_from(list).dom() =~= Set::<AccountId>::empty());
    } else {
        let front = list.drop_last();
        let last = list.last();
        lemma_map_from(front, weight);
        assert(list[list.len() - 1] == last);
        assert forall|account: AccountId| #[trigger]
            map_from(list).contains_key(account) <==> lists(list, account) by {
            if lists(list, account) {
                let i = choose|i: int| 0 <= i < list.len() && (#[trigger] list[i]).0 == account;
                if i < front.len() {
                    assert(front[i].0 == account);
                    assert(lists(front, account));
                }
            }
            if map_from(list).contains_key(account) && account != last.0 {
                assert(lists(front, account));
                let i = choose|i: int| 0 <= i < front.len() && (#[trigger] front[i]).0 == account;
                assert(list[i].0 == account);
            }
        }
        if listed_once(list) {
            assert(listed_once(front)) by {
                assert forall|i: int, j: int| 0 <= i < j < front.len() implies (
                #[trigger] front[i]).0 != (#[trigger] front[j]).0 by {
                    assert(front[i] == list[i]);
                    assert(front[j] == list[j]);
                }
            }
            assert(!lists(front, last.0)) by {
                if lists(front, last.0) {
                    let i = choose|i: int| 0 <= i < front.len() && (#[trigger] front[i]).0 == last.0;
                    assert(list[i].0 == last.0);
                }
            }
            assert(!map_from(front).contains_key(last.0));
            lemma_map_total_insert(map_from(front), weight, last.0, last.1);
            assert forall|i: int| 0 <= i < list.len() implies map_from(list)[(
            #[trigger] list[i]).0] == list[i].1 by {
                if i < front.len() {
                    assert(front[i] == list[i]);
                    assert(lists(front, front[i].0));
                }
            }
        }
    }
}

/// Two lists that are restorable stand for a well-formed state.
pub proof fn lemma_restored(balances: Seq<(AccountId, Balance)>, debts: Seq<(AccountId, Seq<DebtEntry>)>)
    requires
        restorable(balances, debts),
    ensures
        restored(balances, debts).wf(),
        balances_total(map_from(balances)) == list_total(balances, balance_weight()),
        debts_total(map_from(debts)) == list_total(debts, debt_weight()),
{
    let state = restored(balances, debts);
    lemma_map_from(balances, balance_weight());
    lemma_map_from(debts, debt_weight());
    assert(debts_wf(state.debts)) by {
        assert forall|debtor: AccountId| #[trigger] state.debts.contains_key(debtor) implies
            state.debts[debtor].len() > 0 && entries_wf(state.debts[debtor]) by {
            assert(lists(debts, debtor));
            let i = choose|i: int| 0 <= i < debts.len() && (#[trigger] debts[i]).0 == debtor;
            assert(state.debts[debts[i].0] == debts[i].1);
        }
    }
    assert(state.lenders_known()) by {
        assert forall|debtor: AccountId, lender: AccountId|
            state.debts.contains_key(debtor) && #[trigger] names(
                state.debts[debtor],
                lender,
            ) implies state.balances.contains_key(lender) by {
            assert(lists(debts, debtor));
            let i = choose|i: int| 0 <= i < debts.len() && (#[trigger] debts[i]).0 == debtor;
            assert(state.debts[debts[i].0] == debts[i].1);
            assert(lists(balances, lender));
        }
    }
}

} // verus!
