//! Replays a log of deposits, withdrawals and dispute events against
//! per-client accounts.
//!
//! Amounts are fixed-point: one unit is a ten-thousandth of the currency.
//! A record carries its amount in 64 bits and an account keeps its balances
//! in 128 bits, so that no history replayed on fresh accounts can overflow
//! them.
//!
//! - `transaction`: the records, the history and its integrity check.
//! - `accounts`: the account and what each kind of record does to it.
//! - `ledger`: what a whole history does to a set of accounts.
//! - `amount`, `decimal`: amounts and numbers as text.

pub mod accounts;
pub mod amount;
pub mod decimal;
pub mod ledger;
pub mod transaction;
