//! Typed failures shared by every module of the library.

use vstd::prelude::*;

verus! {

/// Stable class of a failure. Callers branch on the class, never on the message.
#[derive(Clone, Copy, Debug, PartialEq, Eq, Structural)]
pub enum ErrorCode {
    InvalidData,
    QueryType,
    CorruptStorage,
    ResultBudgetExceeded,
    TransactionConflict,
    IndexUnavailable,
    EmbeddingProfileMismatch,
    EmbeddingProfileImmutable,
    GpuAdmissionFailure,
    DeadlineExceeded,
    Cancelled,
    Internal,
}

/// One failure: its class and a diagnostic for people.
#[derive(Debug)]
pub struct Error {
    pub code: ErrorCode,
    pub message: String,
}

pub type Result<T> = std::result::Result<T, Error>;

impl Error {
    pub fn new(code: ErrorCode, message: &str) -> (error: Self)
        ensures
            error.is(code, message@),
    {
        Error { code, message: message.to_owned() }
    }

    /// Input that no valid caller can produce.
    pub fn invalid_data(message: &str) -> (error: Self)
        ensures
            error.is(ErrorCode::InvalidData, message@),
    {
        Error::new(ErrorCode::InvalidData, message)
    }

    /// A broken internal invariant.
    pub fn internal(message: &str) -> (error: Self)
        ensures
            error.is(ErrorCode::Internal, message@),
    {
        Error::new(ErrorCode::Internal, message)
    }

    /// The error carries exactly this class and this message.
    pub open spec fn is(self, code: ErrorCode, message: Seq<char>) -> bool {
        &&& self.code == code
        &&& self.message@ == message
    }
}

impl Clone for Error {
    fn clone(&self) -> (copy: Self)
        ensures
            copy.code == self.code,
            copy.message@ == self.message@,
    {
        Error { code: self.code, message: self.message.clone() }
    }
}

/// `result` failed with exactly this class and this message.
pub open spec fn fails_with<T>(result: Result<T>, code: ErrorCode, message: Seq<char>) -> bool {
    &&& result is Err
    &&& result->Err_0.is(code, message)
}

} // verus!
