//! Errors as they are reported to clients.

use vstd::prelude::*;

verus! {

/// Kind of an error reported to a client.
#[derive(Debug, Clone, Copy, PartialEq, Eq)]
pub enum ErrorCode {
    /// The request's parameters are not acceptable.
    InvalidParams,
    /// The relay itself failed.
    InternalError,
}

impl ErrorCode {
    /// The number that JSON-RPC gives the kind.
    pub open spec fn spec_code(self) -> i64 {
        match self {
            ErrorCode::InvalidParams => -32602i64,
            ErrorCode::InternalError => -32603i64,
        }
    }

    /// The number that JSON-RPC gives the kind.
    #[verifier::when_used_as_spec(spec_code)]
    pub fn code(self) -> (code: i64)
        ensures
            code == self.spec_code(),
    {
        match self {
            ErrorCode::InvalidParams => -32602,
            ErrorCode::InternalError => -32603,
        }
    }
}

/// An error as it is reported to a client.
#[derive(Debug, Clone, PartialEq)]
pub struct Error {
    /// The kind of the error.
    pub code: ErrorCode,
    /// What went wrong, in a word.
    pub message: String,
    /// What went wrong, in detail.
    pub data: Option<String>,
}

/// The bytes of a transaction could not be decoded.
pub fn rlp(error: String) -> (reported: Error)
    ensures
        reported.code == ErrorCode::InvalidParams,
        reported.message@ == "Invalid RLP."@,
        reported.data == Some(error),
{
    Error {
        code: ErrorCode::InvalidParams,
        message: String::from_str("Invalid RLP."),
        data: Some(error),
    }
}

/// A transaction is not acceptable.
pub fn transaction(error: String) -> (reported: Error)
    ensures
        reported.code == ErrorCode::InvalidParams,
        reported.message@ == "Invalid Transaction."@,
        reported.data == Some(error),
{
    Error {
        code: ErrorCode::InvalidParams,
        message: String::from_str("Invalid Transaction."),
        data: Some(error),
    }
}

/// A block number is outside the window in which transactions can be
/// scheduled.
pub fn block(error: String) -> (reported: Error)
    ensures
        reported.code == ErrorCode::InvalidParams,
        reported.message@ == "Invalid block number."@,
        reported.data == Some(error),
{
    Error {
        code: ErrorCode::InvalidParams,
        message: String::from_str("Invalid block number."),
        data: Some(error),
    }
}

/// A time is outside the window in which transactions can be scheduled.
pub fn timestamp(error: String) -> (reported: Error)
    ensures
        reported.code == ErrorCode::InvalidParams,
        reported.message@ == "Invalid timestamp."@,
        reported.data == Some(error),
{
    Error {
        code: ErrorCode::InvalidParams,
        message: String::from_str("Invalid timestamp."),
        data: Some(error),
    }
}

/// The relay itself failed.
pub fn internal(error: String) -> (reported: Error)
    ensures
        reported.code == ErrorCode::InternalError,
        reported.message@ == "Internal Error"@,
        reported.data == Some(error),
{
    Error {
        code: ErrorCode::InternalError,
        message: String::from_str("Internal Error"),
        data: Some(error),
    }
}

} // verus!
