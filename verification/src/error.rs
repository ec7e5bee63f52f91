//! The failures an operation can report.

use vstd::prelude::*;

verus! {

/// A failure of the host or of plain arithmetic.
#[derive(Clone, Debug, PartialEq, Eq)]
pub enum StdError {
    /// The host refused a value, for instance an address.
    GenericErr { msg: String },
    /// No record of the named kind is stored under the key asked for.
    NotFound { kind: String },
    /// A token or share computation left the range of `u128`.
    Overflow,
}

/// Why the answer to a sub-call could not be used.
#[derive(Clone, Debug, PartialEq, Eq)]
pub enum ParseReplyError {
    /// The sub-call itself failed.
    SubMsgFailure(String),
    /// The answer carries no data, or data that is not the expected message.
    ParseFailure(String),
    /// The address in the answer is not UTF-8.
    BrokenUtf8,
}

#[derive(Clone, Debug, PartialEq, Eq)]
pub enum ContractError {
    Std(StdError),
    Parse(ParseReplyError),
    /// The caller is not the one the operation is reserved for.
    Unauthorized,
    /// A sub-call answer arrived under an id that nothing waits for.
    InvalidReplyId(u64),
    /// No validator is registered under this address.
    UnknownValidator(String),
    /// The validator has left the active set.
    RemovedValidator(String),
    /// An amount or percentage of zero.
    ZeroAmount,
    /// The position is worth less than the amount asked for.
    InsufficientStake,
}

impl StdError {
    /// The error of a computation that left the range of `u128`.
    pub fn overflow() -> (e: StdError)
        ensures
            e is Overflow,
    {
        StdError::Overflow
    }
}

} // verus!
