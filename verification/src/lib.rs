//! Client account balances computed from an ordered stream of deposits, withdrawals,
//! disputes, resolutions and chargebacks.

pub mod account;
pub mod account_hub;
pub mod actions;
pub mod amount;
pub mod csv;
pub mod decimal;
pub mod in_memory_ledger;
pub mod ledger;
pub mod ordered;
pub mod text;

pub use crate::account::Account;
pub use crate::account::AccountState;
pub use crate::account::TransactionError;
pub use crate::account_hub::AccountHub;
pub use crate::account_hub::ClientId;
pub use crate::actions::Action;
pub use crate::actions::Transaction;
pub use crate::actions::TransactionData;
pub use crate::actions::TransactionId;
pub use crate::amount::Amount;
pub use crate::amount::ParseError;
pub use crate::csv::parse_csv_line;
pub use crate::csv::process_csv;
pub use crate::csv::process_line;
pub use crate::csv::summary;
pub use crate::csv::summary_header;
pub use crate::csv::summary_line;
pub use crate::in_memory_ledger::InMemoryLedger;
pub use crate::in_memory_ledger::LedgerError;
pub use crate::ledger::Ledger;
pub use crate::ledger::TransactionState;
