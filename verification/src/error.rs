//! The ways a ledger operation can fail.

use vstd::prelude::*;

verus! {

/// Why an operation did not complete.
#[derive(Clone, Copy, Debug, PartialEq, Eq, Structural)]
pub enum LedgerError {
    /// The amount is not positive, has more than two decimals, or is not a
    /// decimal number at all.
    InvalidAmount,
    /// The time filter is not of the shape `YYYY-MM`, or names no month.
    InvalidTime,
    /// No record has the given id.
    NotFound,
    /// The storage layer failed.
    Io,
    /// An invariant of the ledger was found broken.
    Internal,
}

/// The process exit code for a command that ended normally, which includes a
/// change that the user declined.
pub const EXIT_OK: i32 = 0;

/// The process exit code for a command that failed with a `LedgerError`.
pub const EXIT_FAILURE: i32 = 2;

/// The one-line text shown for an error.
pub open spec fn error_text(e: LedgerError) -> Seq<char> {
    match e {
        LedgerError::InvalidAmount => "invalid amount: expected a positive number with at most two decimals"@,
        LedgerError::InvalidTime => "invalid time: expected a month written as YYYY-MM"@,
        LedgerError::NotFound => "not found: no record has this id"@,
        LedgerError::Io => "storage failure"@,
        LedgerError::Internal => "internal error: a ledger invariant does not hold"@,
    }
}

impl LedgerError {
    /// The line to print for this error.
    pub fn message(&self) -> (r: String)
        ensures
            r@ == error_text(*self),
    {
        match self {
            LedgerError::InvalidAmount => String::from_str(
                "invalid amount: expected a positive number with at most two decimals",
            ),
            LedgerError::InvalidTime => String::from_str(
                "invalid time: expected a month written as YYYY-MM",
            ),
            LedgerError::NotFound => String::from_str("not found: no record has this id"),
            LedgerError::Io => String::from_str("storage failure"),
            LedgerError::Internal => String::from_str(
                "internal error: a ledger invariant does not hold",
            ),
        }
    }
}

/// The exit code of a finished command: zero when it succeeded, two when it
/// failed.
pub fn exit_code<T>(outcome: &Result<T, LedgerError>) -> (code: i32)
    ensures
        code == (if outcome is Ok {
            EXIT_OK
        } else {
            EXIT_FAILURE
        }),
{
    match outcome {
        Ok(_) => EXIT_OK,
        Err(_) => EXIT_FAILURE,
    }
}

} // verus!
