use reserve_bank::entries::{check_entries, merge_entry, sum_entries, sum_owed_to};
use reserve_bank::{
    same_account, settle_entries, AccountId, Approval, Balance, BalanceLedger, DebtBook,
    DebtEntry, Error, Operation, ReserveBank,
};

fn id(tag: u8) -> AccountId {
    [tag; 32]
}

#[test]
fn accounts_are_the_same_only_byte_for_byte() {
    let mut other = id(3);
    assert!(same_account(&id(3), &other));
    other[31] = 4;
    assert!(!same_account(&id(3), &other));
    other[31] = 3;
    other[0] = 0;
    assert!(!same_account(&id(3), &other));
    assert!(same_account(&[0u8; 32], &[0u8; 32]));
}

#[test]
fn balance_ledger_starts_empty() {
    let ledger = BalanceLedger::new();
    assert_eq!(ledger.balance_of(id(1)), 0);
    assert!(!ledger.holds(id(1)));
    assert!(ledger.has_room_for(id(1)));
}

#[test]
fn credit_raises_one_balance() {
    let mut ledger = BalanceLedger::new();
    ledger.credit(id(1), 10);
    ledger.credit(id(2), 5);
    ledger.credit(id(1), 7);
    assert_eq!(ledger.balance_of(id(1)), 17);
    assert_eq!(ledger.balance_of(id(2)), 5);
    assert_eq!(ledger.balance_of(id(3)), 0);
    assert!(ledger.holds(id(1)));
    assert!(!ledger.holds(id(3)));
}

#[test]
fn credit_of_nothing_puts_the_account_on_record() {
    let mut ledger = BalanceLedger::new();
    ledger.credit(id(1), 0);
    assert!(ledger.holds(id(1)));
    assert_eq!(ledger.balance_of(id(1)), 0);
}

#[test]
fn credit_reaches_the_largest_amount() {
    let mut ledger = BalanceLedger::new();
    ledger.credit(id(1), Balance::MAX - 1);
    ledger.credit(id(1), 1);
    assert_eq!(ledger.balance_of(id(1)), Balance::MAX);
}

#[test]
fn debit_lowers_one_balance() {
    let mut ledger = BalanceLedger::new();
    ledger.credit(id(1), 10);
    ledger.credit(id(2), 5);
    assert_eq!(ledger.debit(id(1), 4), Ok(()));
    assert_eq!(ledger.balance_of(id(1)), 6);
    assert_eq!(ledger.balance_of(id(2)), 5);
    assert_eq!(ledger.debit(id(1), 6), Ok(()));
    assert_eq!(ledger.balance_of(id(1)), 0);
    assert!(ledger.holds(id(1)));
}

#[test]
fn debit_beyond_the_balance_is_refused_and_changes_nothing() {
    let mut ledger = BalanceLedger::new();
    ledger.credit(id(1), 10);
    assert_eq!(ledger.debit(id(1), 11), Err(Error::InsufficientBalance));
    assert_eq!(ledger.balance_of(id(1)), 10);
    assert_eq!(ledger.debit(id(2), 1), Err(Error::InsufficientBalance));
    assert_eq!(ledger.balance_of(id(2)), 0);
    assert!(!ledger.holds(id(2)));
}

#[test]
fn debit_of_nothing_from_an_unknown_account_is_accepted() {
    let mut ledger = BalanceLedger::new();
    assert_eq!(ledger.debit(id(2), 0), Ok(()));
    assert!(!ledger.holds(id(2)));
}

#[test]
fn debt_book_starts_empty() {
    let book = DebtBook::new();
    assert!(book.entries_of(id(1)).is_empty());
    assert_eq!(book.total_owed(id(1)), 0);
    assert!(!book.holds(id(1)));
    assert!(book.has_room_for(id(1)));
    assert!(book.debtors().is_empty());
    assert_eq!(book.total_exposure(id(1)), 0);
}

#[test]
fn record_borrow_appends_a_new_lender_and_grows_a_known_one() {
    let mut book = DebtBook::new();
    book.record_borrow(id(2), id(7), 30);
    book.record_borrow(id(2), id(8), 50);
    book.record_borrow(id(2), id(7), 5);
    book.record_borrow(id(3), id(8), 1);
    assert_eq!(book.entries_of(id(2)), vec![(id(7), 35), (id(8), 50)]);
    assert_eq!(book.entries_of(id(3)), vec![(id(8), 1)]);
    assert_eq!(book.total_owed(id(2)), 85);
    assert_eq!(book.total_owed(id(3)), 1);
    assert_eq!(book.total_exposure(id(8)), 51);
    assert_eq!(book.total_exposure(id(7)), 35);
    assert!(book.holds(id(2)));
    assert!(!book.holds(id(7)));
}

#[test]
fn record_borrow_of_nothing_records_nothing() {
    let mut book = DebtBook::new();
    book.record_borrow(id(2), id(7), 0);
    assert!(!book.holds(id(2)));
    assert!(book.entries_of(id(2)).is_empty());
    book.record_borrow(id(2), id(7), 3);
    book.record_borrow(id(2), id(7), 0);
    assert_eq!(book.entries_of(id(2)), vec![(id(7), 3)]);
}

#[test]
fn replace_entries_with_an_empty_list_removes_the_debtor() {
    let mut book = DebtBook::new();
    book.record_borrow(id(2), id(7), 30);
    book.record_borrow(id(3), id(7), 10);
    book.replace_entries(id(2), Vec::new());
    assert!(!book.holds(id(2)));
    assert!(book.entries_of(id(2)).is_empty());
    assert_eq!(book.total_owed(id(2)), 0);
    assert_eq!(book.debtors(), vec![id(3)]);
    book.replace_entries(id(9), Vec::new());
    assert_eq!(book.debtors(), vec![id(3)]);
    book.replace_entries(id(3), vec![(id(8), 4), (id(7), 6)]);
    assert_eq!(book.entries_of(id(3)), vec![(id(8), 4), (id(7), 6)]);
}

#[test]
fn debtors_lists_each_debtor_once() {
    let mut book = DebtBook::new();
    book.record_borrow(id(2), id(7), 30);
    book.record_borrow(id(3), id(7), 10);
    book.record_borrow(id(2), id(8), 10);
    book.record_borrow(id(4), id(8), 10);
    let mut debtors = book.debtors();
    debtors.sort();
    assert_eq!(debtors, vec![id(2), id(3), id(4)]);
    book.replace_entries(id(3), Vec::new());
    book.record_borrow(id(5), id(8), 1);
    let mut debtors = book.debtors();
    debtors.sort();
    assert_eq!(debtors, vec![id(2), id(4), id(5)]);
}

#[test]
fn merge_entry_keeps_the_place_of_a_known_lender() {
    let entries: Vec<DebtEntry> = vec![(id(1), 5), (id(2), 6), (id(3), 7)];
    assert_eq!(merge_entry(entries.clone(), id(2), 10), vec![(id(1), 5), (id(2), 16), (id(3), 7)]);
    assert_eq!(
        merge_entry(entries.clone(), id(9), 10),
        vec![(id(1), 5), (id(2), 6), (id(3), 7), (id(9), 10)]
    );
    assert_eq!(merge_entry(Vec::new(), id(9), 10), vec![(id(9), 10)]);
}

#[test]
fn sums_of_entries() {
    let entries: Vec<DebtEntry> = vec![(id(1), 5), (id(2), 6), (id(3), 7)];
    assert_eq!(sum_entries(&entries), 18);
    assert_eq!(sum_entries(&Vec::new()), 0);
    assert_eq!(sum_owed_to(&entries, id(2)), 6);
    assert_eq!(sum_owed_to(&entries, id(4)), 0);
    assert_eq!(sum_entries(&vec![(id(1), Balance::MAX)]), Balance::MAX);
}

#[test]
fn check_entries_accepts_well_formed_lists_only() {
    assert_eq!(check_entries(&Vec::new()), Some(0));
    assert_eq!(check_entries(&vec![(id(1), 5), (id(2), 6)]), Some(11));
    assert_eq!(check_entries(&vec![(id(1), 5), (id(2), 0)]), None);
    assert_eq!(check_entries(&vec![(id(1), 5), (id(2), 6), (id(1), 1)]), None);
    assert_eq!(check_entries(&vec![(id(1), Balance::MAX), (id(2), 1)]), None);
    assert_eq!(check_entries(&vec![(id(1), Balance::MAX - 1), (id(2), 1)]), Some(Balance::MAX));
}

#[test]
fn settle_entries_pays_in_order() {
    let entries: Vec<DebtEntry> = vec![(id(1), 30), (id(2), 50), (id(3), 20)];
    let plan = settle_entries(&entries, 40);
    assert_eq!(plan.remaining, vec![(id(2), 40), (id(3), 20)]);
    assert_eq!(plan.credits, vec![(id(1), 30), (id(2), 10), (id(3), 0)]);
    assert_eq!(plan.refunded, 0);
}

#[test]
fn settle_entries_on_the_edge_of_an_entry() {
    let entries: Vec<DebtEntry> = vec![(id(1), 30), (id(2), 50)];
    let plan = settle_entries(&entries, 30);
    assert_eq!(plan.remaining, vec![(id(2), 50)]);
    assert_eq!(plan.credits, vec![(id(1), 30), (id(2), 0)]);
    assert_eq!(plan.refunded, 0);
    let plan = settle_entries(&entries, 29);
    assert_eq!(plan.remaining, vec![(id(1), 1), (id(2), 50)]);
    assert_eq!(plan.credits, vec![(id(1), 29), (id(2), 0)]);
    let plan = settle_entries(&entries, 31);
    assert_eq!(plan.remaining, vec![(id(2), 49)]);
    assert_eq!(plan.credits, vec![(id(1), 30), (id(2), 1)]);
}

#[test]
fn settle_entries_with_too_much_reports_the_rest() {
    let entries: Vec<DebtEntry> = vec![(id(1), 30), (id(2), 50)];
    let plan = settle_entries(&entries, 80);
    assert!(plan.remaining.is_empty());
    assert_eq!(plan.credits, vec![(id(1), 30), (id(2), 50)]);
    assert_eq!(plan.refunded, 0);
    let plan = settle_entries(&entries, Balance::MAX);
    assert!(plan.remaining.is_empty());
    assert_eq!(plan.credits, vec![(id(1), 30), (id(2), 50)]);
    assert_eq!(plan.refunded, Balance::MAX - 80);
}

#[test]
fn settle_entries_with_nothing_to_settle() {
    let plan = settle_entries(&Vec::new(), 12);
    assert!(plan.remaining.is_empty());
    assert!(plan.credits.is_empty());
    assert_eq!(plan.refunded, 12);
    let entries: Vec<DebtEntry> = vec![(id(1), 30)];
    let plan = settle_entries(&entries, 0);
    assert_eq!(plan.remaining, entries);
    assert_eq!(plan.credits, vec![(id(1), 0)]);
    assert_eq!(plan.refunded, 0);
}

#[test]
fn restore_builds_the_listed_ledger() {
    let balances = vec![(id(1), 70), (id(7), 20), (id(8), 0)];
    let debts = vec![(id(2), vec![(id(7), 30), (id(8), 50)]), (id(3), vec![(id(1), 5)])];
    let bank = ReserveBank::restore(balances, debts);
    assert!(bank.is_some());
    let mut bank = bank.unwrap();
    assert_eq!(bank.reserved_balance(), 175);
    assert_eq!(bank.balance_of(id(1)), 70);
    assert_eq!(bank.balance_of(id(7)), 20);
    assert_eq!(bank.balance_of(id(8)), 0);
    assert_eq!(bank.entries_of(id(2)), vec![(id(7), 30), (id(8), 50)]);
    assert_eq!(bank.entries_of(id(3)), vec![(id(1), 5)]);
    assert_eq!(bank.debt_of(id(2)), 80);
    assert_eq!(bank.total_exposure(id(8)), 50);
    assert!(bank.repay(id(2), id(9), 40).is_ok());
    assert_eq!(bank.balance_of(id(7)), 50);
    assert_eq!(bank.balance_of(id(8)), 10);
    assert_eq!(bank.entries_of(id(2)), vec![(id(8), 40)]);
}

#[test]
fn restore_of_nothing_is_an_empty_ledger() {
    let bank = ReserveBank::restore(Vec::new(), Vec::new()).unwrap();
    assert_eq!(bank.reserved_balance(), 0);
    assert_eq!(bank.balance_of(id(1)), 0);
}

#[test]
fn restore_refuses_lists_that_stand_for_no_ledger() {
    let twice = vec![(id(1), 70), (id(1), 20)];
    assert!(ReserveBank::restore(twice, Vec::new()).is_none());
    let too_much = vec![(id(1), Balance::MAX), (id(2), 1)];
    assert!(ReserveBank::restore(too_much, Vec::new()).is_none());
    let balances = vec![(id(1), 70), (id(7), 20)];
    let unknown_lender = vec![(id(2), vec![(id(9), 30)])];
    assert!(ReserveBank::restore(balances.clone(), unknown_lender).is_none());
    let no_entries = vec![(id(2), Vec::new())];
    assert!(ReserveBank::restore(balances.clone(), no_entries).is_none());
    let zero_entry = vec![(id(2), vec![(id(7), 0)])];
    assert!(ReserveBank::restore(balances.clone(), zero_entry).is_none());
    let lender_twice = vec![(id(2), vec![(id(7), 1), (id(7), 2)])];
    assert!(ReserveBank::restore(balances.clone(), lender_twice).is_none());
    let debtor_twice = vec![(id(2), vec![(id(7), 1)]), (id(2), vec![(id(1), 2)])];
    assert!(ReserveBank::restore(balances.clone(), debtor_twice).is_none());
    let debts_too_much = vec![(id(2), vec![(id(7), Balance::MAX - 89)])];
    assert!(ReserveBank::restore(balances.clone(), debts_too_much).is_none());
    let just_enough = vec![(id(2), vec![(id(7), Balance::MAX - 90)])];
    let bank = ReserveBank::restore(balances, just_enough).unwrap();
    assert_eq!(bank.reserved_balance(), Balance::MAX);
}

#[test]
fn the_records_and_operations_are_plain_values() {
    let approval = Approval { owner: id(1), spender: id(2), value: 3 };
    assert_eq!(approval, approval.clone());
    let operation = Operation::Transfer { from: id(1), to: id(2), value: 3 };
    assert_ne!(operation, Operation::Borrow { from: id(1), to: id(2), value: 3 });
    assert_ne!(operation, Operation::Repay { debtor: id(1), counterparty: id(2), value: 3 });
}
