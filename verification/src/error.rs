use vstd::prelude::*;

verus! {

/// Failure taxonomy shared by every cluster and market operation.
///
/// Every core method validates its inputs locally and fails fast; a failure
/// is terminal for the whole enclosing operation and no partial mutation is
/// ever kept.
#[derive(Clone, Copy, Debug, PartialEq, Eq, Structural)]
pub enum LendError {
    /// A non-positive amount or unit count was supplied, or the request was
    /// malformed (for example a duplicated asset in one batch).
    InvalidInput,
    /// The requested amount exceeds the available liquidity, or the balance
    /// held or owed.
    InsufficientFunds,
    /// Checked arithmetic failed: an overflow past the representable range,
    /// a division by zero, or a field that would have become negative.
    ArithmeticFailure,
    /// The operation would have left a position's collateralization health
    /// below one.
    HealthViolation,
    /// The operation does not apply to the current state: an unknown or
    /// untracked asset, a missing price, a position that cannot be closed,
    /// or an exhausted credential counter.
    StateViolation,
}

impl LendError {
    /// A short description of the failure, for callers that display it.
    pub fn message(&self) -> &'static str {
        match self {
            LendError::InvalidInput => "invalid input",
            LendError::InsufficientFunds => "insufficient funds",
            LendError::ArithmeticFailure => "arithmetic failure",
            LendError::HealthViolation => "health below one",
            LendError::StateViolation => "state violation",
        }
    }
}

} // verus!
