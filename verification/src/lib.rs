//! A token ledger with peer-to-peer loans: spendable balances per account, the debts that each
//! account has open with its lenders, and the settlement of a payment against those debts in the
//! order in which they were recorded.
//!
//! `bank` holds the ledger and its operations, `state` the mathematical state that the contracts
//! speak of, and `laws` what holds of every state that the operations reach. `balances`, `debts`,
//! `entries` and `settlement` are the parts that the ledger is made of, `totals` and `snapshot`
//! the sums and lists that their contracts use, and `store` the collections of `ink_storage`
//! that hold the data.

pub mod balances;
pub mod bank;
pub mod debts;
pub mod entries;
pub mod laws;
pub mod settlement;
pub mod snapshot;
pub mod state;
pub mod store;
pub mod totals;
pub mod types;

pub use balances::BalanceLedger;
pub use bank::ReserveBank;
pub use debts::DebtBook;
pub use settlement::{settle_entries, SettlementPlan};
pub use state::Operation;
pub use types::{
    same_account, AccountId, Approval, Balance, Borrow, DebtEntry, Error, Settlement, Transfer,
};
