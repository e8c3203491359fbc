use rustance::error::{exit_code, LedgerError, EXIT_FAILURE, EXIT_OK};

#[test]
fn success_exits_with_zero() {
    assert_eq!(EXIT_OK, 0);
    assert_eq!(exit_code(&Ok::<(), LedgerError>(())), 0);
    assert_eq!(exit_code(&Ok::<u8, LedgerError>(7)), 0);
}

#[test]
fn every_failure_exits_with_two() {
    assert_eq!(EXIT_FAILURE, 2);
    for e in [
        LedgerError::InvalidAmount,
        LedgerError::InvalidTime,
        LedgerError::NotFound,
        LedgerError::Io,
        LedgerError::Internal,
    ] {
        assert_eq!(exit_code(&Err::<(), LedgerError>(e)), 2);
    }
}

#[test]
fn each_error_has_its_line() {
    assert_eq!(
        LedgerError::InvalidAmount.message(),
        "invalid amount: expected a positive number with at most two decimals"
    );
    assert_eq!(LedgerError::InvalidTime.message(), "invalid time: expected a month written as YYYY-MM");
    assert_eq!(LedgerError::NotFound.message(), "not found: no record has this id");
    assert_eq!(LedgerError::Io.message(), "storage failure");
    assert_eq!(LedgerError::Internal.message(), "internal error: a ledger invariant does not hold");
}

#[test]
fn error_lines_are_single_lines() {
    for e in [
        LedgerError::InvalidAmount,
        LedgerError::InvalidTime,
        LedgerError::NotFound,
        LedgerError::Io,
        LedgerError::Internal,
    ] {
        assert!(!e.message().contains('\n'));
        assert!(!e.message().is_empty());
    }
}
