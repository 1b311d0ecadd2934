//! Error taxonomy.
//!
//! Fatal errors abort stream processing and are surfaced to the caller;
//! ignorable conditions (an insufficient-funds withdrawal, a dispute-family
//! record whose precondition fails) change no state and raise no error.

use vstd::prelude::*;

verus! {

/// Fatal errors: the stream is abandoned at the first occurrence.
#[derive(Clone, Copy, Debug, PartialEq, Eq, Structural)]
pub enum TxError {
    /// Reading the input failed. Raised only by callers that do I/O; the
    /// engine itself never produces it.
    Io,
    /// The required header row is not present or malformed.
    HeaderMissing,
    /// A record has the wrong column count, or an unparseable type, client
    /// or transaction id.
    RecordMalformed,
    /// An amount column is non-empty but not a valid decimal.
    AmountMalformed,
    /// A deposit or withdrawal record carries no amount.
    AmountMissing,
}

/// The ignorable failure a ledger withdrawal can report.
#[derive(Clone, Copy, Debug, PartialEq, Eq, Structural)]
pub enum BalanceError {
    /// The withdrawal asked for more than the available funds.
    InsufficientFunds,
}

} // verus!
