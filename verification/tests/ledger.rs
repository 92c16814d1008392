use reserve_bank::ReserveBank;
use reserve_bank::{AccountId, Balance, Borrow, Error, Settlement, Transfer};

fn account(tag: u8) -> AccountId {
    [tag; 32]
}

fn opened(endowment: Balance) -> ReserveBank {
    let (bank, _) = ReserveBank::new(account(1), endowment);
    bank
}

/// The sum of the balances and of the debts of the accounts tagged 1 to 9.
fn value_in(bank: &ReserveBank) -> Balance {
    let mut sum: Balance = 0;
    for tag in 1u8..10 {
        sum += bank.balance_of(account(tag));
        sum += bank.debt_of(account(tag));
    }
    sum
}

#[test]
fn new_puts_the_endowment_in_the_balance_of_the_caller() {
    let (bank, event) = ReserveBank::new(account(1), 1_000);
    assert_eq!(bank.reserved_balance(), 1_000);
    assert_eq!(bank.balance_of(account(1)), 1_000);
    assert_eq!(bank.my_balance(account(1)), 1_000);
    assert_eq!(bank.balance_of(account(2)), 0);
    assert_eq!(event, Transfer { from: None, to: Some(account(1)), value: 1_000 });
}

#[test]
fn new_with_no_endowment_holds_nothing() {
    let (bank, event) = ReserveBank::new(account(1), 0);
    assert_eq!(bank.reserved_balance(), 0);
    assert_eq!(bank.balance_of(account(1)), 0);
    assert_eq!(event.value, 0);
}

#[test]
fn new_takes_the_largest_endowment() {
    let (bank, _) = ReserveBank::new(account(1), Balance::MAX);
    assert_eq!(bank.reserved_balance(), Balance::MAX);
    assert_eq!(bank.balance_of(account(1)), Balance::MAX);
}

#[test]
fn unknown_account_has_no_balance_and_no_debt() {
    let bank = opened(10);
    assert_eq!(bank.balance_of(account(9)), 0);
    assert_eq!(bank.my_balance(account(9)), 0);
    assert_eq!(bank.debt_of(account(9)), 0);
    assert_eq!(bank.borrowed_balance_of(account(9)), None);
    assert!(bank.entries_of(account(9)).is_empty());
    assert_eq!(bank.total_exposure(account(9)), 0);
}

#[test]
fn transfer_moves_value_between_balances() {
    let mut bank = opened(100);
    let outcome = bank.transfer(account(1), account(2), 30);
    assert_eq!(outcome, Ok(Transfer { from: Some(account(1)), to: Some(account(2)), value: 30 }));
    assert_eq!(bank.balance_of(account(1)), 70);
    assert_eq!(bank.balance_of(account(2)), 30);
    assert_eq!(bank.reserved_balance(), 100);
}

#[test]
fn transfer_of_the_whole_balance_leaves_zero() {
    let mut bank = opened(100);
    assert!(bank.transfer(account(1), account(2), 100).is_ok());
    assert_eq!(bank.balance_of(account(1)), 0);
    assert_eq!(bank.balance_of(account(2)), 100);
}

#[test]
fn transfer_beyond_the_balance_is_refused_and_changes_nothing() {
    let mut bank = opened(100);
    let outcome = bank.transfer(account(1), account(2), 101);
    assert_eq!(outcome, Err(Error::InsufficientBalance));
    assert_eq!(bank.balance_of(account(1)), 100);
    assert_eq!(bank.balance_of(account(2)), 0);
}

#[test]
fn transfer_from_an_unknown_account_is_refused() {
    let mut bank = opened(100);
    assert_eq!(bank.transfer(account(5), account(2), 1), Err(Error::InsufficientBalance));
    assert_eq!(bank.balance_of(account(5)), 0);
    assert_eq!(bank.balance_of(account(2)), 0);
}

#[test]
fn transfer_of_nothing_is_accepted() {
    let mut bank = opened(100);
    let outcome = bank.transfer(account(5), account(2), 0);
    assert_eq!(outcome, Ok(Transfer { from: Some(account(5)), to: Some(account(2)), value: 0 }));
    assert_eq!(bank.balance_of(account(1)), 100);
    assert_eq!(bank.balance_of(account(2)), 0);
}

#[test]
fn transfer_to_oneself_changes_no_balance() {
    let mut bank = opened(100);
    assert!(bank.transfer(account(1), account(1), 40).is_ok());
    assert_eq!(bank.balance_of(account(1)), 100);
}

#[test]
fn borrow_takes_from_the_lender_and_records_the_debt() {
    let mut bank = opened(100);
    let outcome = bank.borrow(account(1), account(2), 30);
    assert_eq!(outcome, Ok(Borrow { from: Some(account(1)), to: Some(account(2)), value: 30 }));
    assert_eq!(bank.balance_of(account(1)), 70);
    assert_eq!(bank.balance_of(account(2)), 0);
    assert_eq!(bank.entries_of(account(2)), vec![(account(1), 30)]);
    assert_eq!(bank.debt_of(account(2)), 30);
    assert_eq!(bank.borrowed_balance_of(account(2)), Some(30));
    assert_eq!(bank.total_exposure(account(1)), 30);
}

#[test]
fn borrow_beyond_the_balance_is_refused_and_creates_no_entry() {
    let mut bank = opened(100);
    let outcome = bank.borrow(account(1), account(2), 101);
    assert_eq!(outcome, Err(Error::InsufficientBalance));
    assert_eq!(bank.balance_of(account(1)), 100);
    assert!(bank.entries_of(account(2)).is_empty());
    assert_eq!(bank.borrowed_balance_of(account(2)), None);
}

#[test]
fn borrow_of_nothing_records_nothing() {
    let mut bank = opened(100);
    assert!(bank.borrow(account(1), account(2), 0).is_ok());
    assert!(bank.entries_of(account(2)).is_empty());
    assert_eq!(bank.borrowed_balance_of(account(2)), None);
    assert_eq!(bank.balance_of(account(1)), 100);
}

#[test]
fn borrowing_twice_from_one_lender_gives_one_entry() {
    let mut bank = opened(100);
    assert!(bank.borrow(account(1), account(2), 30).is_ok());
    assert!(bank.borrow(account(1), account(2), 45).is_ok());
    assert_eq!(bank.entries_of(account(2)), vec![(account(1), 75)]);
    assert_eq!(bank.balance_of(account(1)), 25);
    assert_eq!(bank.debt_of(account(2)), 75);
}

#[test]
fn a_second_loan_keeps_the_place_of_the_first() {
    let mut bank = opened(100);
    assert!(bank.transfer(account(1), account(3), 40).is_ok());
    assert!(bank.borrow(account(1), account(2), 10).is_ok());
    assert!(bank.borrow(account(3), account(2), 20).is_ok());
    assert!(bank.borrow(account(1), account(2), 5).is_ok());
    assert_eq!(bank.entries_of(account(2)), vec![(account(1), 15), (account(3), 20)]);
    assert_eq!(bank.debt_of(account(2)), 35);
}

#[test]
fn loans_of_other_debtors_are_not_touched() {
    let mut bank = opened(100);
    assert!(bank.borrow(account(1), account(2), 10).is_ok());
    assert!(bank.borrow(account(1), account(3), 20).is_ok());
    assert_eq!(bank.entries_of(account(2)), vec![(account(1), 10)]);
    assert_eq!(bank.entries_of(account(3)), vec![(account(1), 20)]);
    assert_eq!(bank.total_exposure(account(1)), 30);
    assert_eq!(bank.total_exposure(account(2)), 0);
}

/// A debtor that owes 30 to a first lender and 50 to a second one.
fn with_two_lenders() -> ReserveBank {
    let mut bank = opened(200);
    assert!(bank.transfer(account(1), account(7), 100).is_ok());
    assert!(bank.transfer(account(1), account(8), 100).is_ok());
    assert!(bank.borrow(account(7), account(2), 30).is_ok());
    assert!(bank.borrow(account(8), account(2), 50).is_ok());
    bank
}

#[test]
fn settlement_pays_the_first_debt_first() {
    let mut bank = with_two_lenders();
    assert_eq!(bank.balance_of(account(7)), 70);
    assert_eq!(bank.balance_of(account(8)), 50);
    let outcome = bank.repay(account(2), account(9), 40);
    assert_eq!(
        outcome,
        Ok(Settlement { debtor: account(2), counterparty: account(9), value: 40, refunded: 0 })
    );
    assert_eq!(bank.balance_of(account(7)), 100);
    assert_eq!(bank.balance_of(account(8)), 60);
    assert_eq!(bank.entries_of(account(2)), vec![(account(8), 40)]);
    assert_eq!(bank.debt_of(account(2)), 40);
    assert_eq!(bank.balance_of(account(9)), 0);
    assert_eq!(bank.balance_of(account(2)), 0);
}

#[test]
fn exact_settlement_removes_the_entry() {
    let mut bank = opened(100);
    assert!(bank.borrow(account(1), account(2), 30).is_ok());
    let outcome = bank.repay(account(2), account(9), 30);
    assert_eq!(
        outcome,
        Ok(Settlement { debtor: account(2), counterparty: account(9), value: 30, refunded: 0 })
    );
    assert!(bank.entries_of(account(2)).is_empty());
    assert_eq!(bank.borrowed_balance_of(account(2)), None);
    assert_eq!(bank.debt_of(account(2)), 0);
    assert_eq!(bank.balance_of(account(1)), 100);
}

#[test]
fn partial_settlement_lowers_the_entry() {
    let mut bank = opened(100);
    assert!(bank.borrow(account(1), account(2), 30).is_ok());
    assert!(bank.repay(account(2), account(9), 12).is_ok());
    assert_eq!(bank.entries_of(account(2)), vec![(account(1), 18)]);
    assert_eq!(bank.balance_of(account(1)), 82);
}

#[test]
fn payment_beyond_the_debt_is_reported_back_and_moves_nothing() {
    let mut bank = with_two_lenders();
    let outcome = bank.repay(account(2), account(1), 100);
    assert_eq!(
        outcome,
        Ok(Settlement { debtor: account(2), counterparty: account(1), value: 100, refunded: 20 })
    );
    assert!(bank.entries_of(account(2)).is_empty());
    assert_eq!(bank.balance_of(account(7)), 100);
    assert_eq!(bank.balance_of(account(8)), 100);
    assert_eq!(bank.balance_of(account(1)), 0);
    assert_eq!(bank.balance_of(account(2)), 0);
    assert_eq!(value_in(&bank), 200);
}

#[test]
fn settlement_of_nothing_changes_nothing() {
    let mut bank = with_two_lenders();
    let outcome = bank.repay(account(2), account(9), 0);
    assert_eq!(
        outcome,
        Ok(Settlement { debtor: account(2), counterparty: account(9), value: 0, refunded: 0 })
    );
    assert_eq!(bank.entries_of(account(2)), vec![(account(7), 30), (account(8), 50)]);
    assert_eq!(bank.balance_of(account(7)), 70);
    assert_eq!(bank.balance_of(account(8)), 50);
}

#[test]
fn settlement_takes_nothing_from_the_counterparty() {
    let mut bank = with_two_lenders();
    assert!(bank.transfer(account(7), account(9), 20).is_ok());
    assert!(bank.repay(account(2), account(9), 40).is_ok());
    assert_eq!(bank.balance_of(account(9)), 20);
}

#[test]
fn settle_hands_back_what_met_no_debt() {
    let mut bank = with_two_lenders();
    assert_eq!(bank.settle(account(2), 35), 0);
    assert_eq!(bank.entries_of(account(2)), vec![(account(8), 45)]);
    assert_eq!(bank.settle(account(2), 50), 5);
    assert!(bank.entries_of(account(2)).is_empty());
    assert_eq!(bank.settle(account(2), 50), 50);
    assert_eq!(value_in(&bank), 200);
}

#[test]
fn repay_without_debt_is_a_transfer_from_the_counterparty() {
    let mut repaid = opened(100);
    let mut transferred = opened(100);
    let outcome = repaid.repay(account(2), account(1), 10);
    assert_eq!(
        outcome,
        Ok(Settlement { debtor: account(2), counterparty: account(1), value: 10, refunded: 0 })
    );
    assert!(transferred.transfer(account(1), account(2), 10).is_ok());
    assert_eq!(repaid.balance_of(account(1)), 90);
    assert_eq!(repaid.balance_of(account(2)), 10);
    for tag in 1u8..10 {
        assert_eq!(repaid.balance_of(account(tag)), transferred.balance_of(account(tag)));
        assert_eq!(repaid.entries_of(account(tag)), transferred.entries_of(account(tag)));
    }
}

#[test]
fn repay_without_debt_is_refused_where_the_counterparty_cannot_pay() {
    let mut bank = opened(100);
    let outcome = bank.repay(account(2), account(3), 10);
    assert_eq!(outcome, Err(Error::InsufficientBalance));
    assert_eq!(bank.balance_of(account(2)), 0);
    assert_eq!(bank.balance_of(account(3)), 0);
    assert_eq!(bank.balance_of(account(1)), 100);
}

#[test]
fn a_debtor_that_settled_everything_falls_back_to_transfer() {
    let mut bank = opened(100);
    assert!(bank.borrow(account(1), account(2), 30).is_ok());
    assert!(bank.repay(account(2), account(1), 30).is_ok());
    assert_eq!(bank.balance_of(account(1)), 100);
    assert!(bank.repay(account(2), account(1), 10).is_ok());
    assert_eq!(bank.balance_of(account(1)), 90);
    assert_eq!(bank.balance_of(account(2)), 10);
}

#[test]
fn send_documents_repays_for_the_caller() {
    let mut bank = with_two_lenders();
    let outcome = bank.send_documents(account(2), account(9), 40, vec![1, 2, 3]);
    assert_eq!(
        outcome,
        Ok(Settlement { debtor: account(2), counterparty: account(9), value: 40, refunded: 0 })
    );
    assert_eq!(bank.entries_of(account(2)), vec![(account(8), 40)]);
    assert_eq!(bank.balance_of(account(7)), 100);
    assert_eq!(bank.balance_of(account(8)), 60);
}

#[test]
fn send_documents_without_debt_pays_the_caller() {
    let mut bank = opened(100);
    let outcome = bank.send_documents(account(2), account(1), 25, Vec::new());
    assert_eq!(
        outcome,
        Ok(Settlement { debtor: account(2), counterparty: account(1), value: 25, refunded: 0 })
    );
    assert_eq!(bank.balance_of(account(1)), 75);
    assert_eq!(bank.balance_of(account(2)), 25);
    let refused = bank.send_documents(account(3), account(4), 1, Vec::new());
    assert_eq!(refused, Err(Error::InsufficientBalance));
}

#[test]
fn value_is_conserved_after_every_operation() {
    let mut bank = opened(500);
    assert_eq!(value_in(&bank), 500);
    assert!(bank.transfer(account(1), account(2), 120).is_ok());
    assert_eq!(value_in(&bank), 500);
    assert!(bank.transfer(account(2), account(3), 500).is_err());
    assert_eq!(value_in(&bank), 500);
    assert!(bank.borrow(account(1), account(4), 200).is_ok());
    assert_eq!(value_in(&bank), 500);
    assert!(bank.borrow(account(2), account(4), 70).is_ok());
    assert_eq!(value_in(&bank), 500);
    assert!(bank.borrow(account(2), account(4), 51).is_err());
    assert_eq!(value_in(&bank), 500);
    assert!(bank.repay(account(4), account(1), 210).is_ok());
    assert_eq!(value_in(&bank), 500);
    assert!(bank.repay(account(4), account(1), 1_000).is_ok());
    assert_eq!(value_in(&bank), 500);
    assert!(bank.repay(account(4), account(1), 80).is_ok());
    assert_eq!(value_in(&bank), 500);
    assert!(bank.repay(account(5), account(9), 80).is_err());
    assert_eq!(value_in(&bank), 500);
    assert_eq!(bank.reserved_balance(), 500);
}

#[test]
fn a_query_asked_twice_answers_the_same() {
    let bank = with_two_lenders();
    for tag in 1u8..10 {
        let who = account(tag);
        let balance = bank.balance_of(who);
        let debt = bank.debt_of(who);
        let entries = bank.entries_of(who);
        let exposure = bank.total_exposure(who);
        assert_eq!(bank.balance_of(who), balance);
        assert_eq!(bank.debt_of(who), debt);
        assert_eq!(bank.borrowed_balance_of(who), bank.borrowed_balance_of(who));
        assert_eq!(bank.entries_of(who), entries);
        assert_eq!(bank.total_exposure(who), exposure);
    }
    assert_eq!(bank.debt_of(account(2)), 80);
    assert_eq!(bank.balance_of(account(7)), 70);
}

#[test]
fn total_exposure_sums_over_all_debtors() {
    let mut bank = opened(100);
    assert!(bank.transfer(account(1), account(3), 50).is_ok());
    assert!(bank.borrow(account(1), account(2), 10).is_ok());
    assert!(bank.borrow(account(1), account(4), 15).is_ok());
    assert!(bank.borrow(account(3), account(4), 20).is_ok());
    assert!(bank.borrow(account(1), account(5), 5).is_ok());
    assert_eq!(bank.total_exposure(account(1)), 30);
    assert_eq!(bank.total_exposure(account(3)), 20);
    assert_eq!(bank.total_exposure(account(4)), 0);
    assert!(bank.repay(account(4), account(9), 15).is_ok());
    assert_eq!(bank.total_exposure(account(1)), 15);
    assert_eq!(bank.total_exposure(account(3)), 20);
}

#[test]
fn a_ledger_of_a_few_accounts_admits_more() {
    let mut bank = opened(100);
    assert!(bank.admits_account(account(1)));
    assert!(bank.admits_account(account(2)));
    assert!(bank.admits_debtor(account(2)));
    assert!(bank.borrow(account(1), account(2), 10).is_ok());
    assert!(bank.admits_debtor(account(2)));
    assert!(bank.admits_debtor(account(3)));
}

#[test]
fn the_two_refusals_differ() {
    assert_ne!(Error::InsufficientBalance, Error::InsufficientAllowance);
    assert_eq!(format!("{:?}", Error::InsufficientAllowance), "InsufficientAllowance");
}
