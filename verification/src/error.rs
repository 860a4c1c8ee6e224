use vstd::prelude::*;

verus! {

/// Every way an operation of the ledger can fail.
#[derive(Clone, PartialEq, Eq, Debug)]
pub enum ContractError {
    /// The caller lacks the role or identity the operation demands.
    Unauthorized,
    /// No record exists for the given key (account or proposal).
    NotFound,
    /// A malformed input: a non-canonical address, a self-transfer
    /// proposal, or an excessive proposal time-to-live.
    InvalidInput,
    /// A requested claim amount exceeds the vested balance.
    AmountIsNotAvailable,
    /// A schedule breaks the start/end invariant; carries the address
    /// of the offending account.
    VestingScheduleError(String),
    /// The declared schedule totals of a batch do not sum to the
    /// deposited amount.
    VestingScheduleAmountError,
    /// A balance computation would exceed the integer range.
    Overflow,
    /// More was recorded as released than ever vested: a corrupted record.
    Underflow,
    /// An ownership proposal was accepted after its expiry time.
    Expired,
}

} // verus!
