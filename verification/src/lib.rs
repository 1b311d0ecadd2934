//! A batch transaction-processing engine for per-client payment accounts.
//!
//! The engine consumes a finite stream of transaction records (deposits,
//! withdrawals, disputes, resolves, chargebacks), maintains a ledger per
//! client with exact fixed-point decimal arithmetic, and exposes a snapshot
//! of the final balances.

pub mod amount;
pub mod errors;
pub mod model;
pub mod parse;
pub mod tx_processor;
pub mod laws;

pub use amount::Amount;
