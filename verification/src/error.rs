//! What a caller learns of a failure.
use vstd::prelude::*;

verus! {

/// Why an operation failed, and whether trying it again may help.
#[derive(Clone, Debug, PartialEq, Eq)]
pub struct Error {
    pub retryable: bool,
    pub message: String,
}

/// What an [`Error`] says.
pub struct ErrorView {
    pub retryable: bool,
    pub message: Seq<char>,
}

impl View for Error {
    type V = ErrorView;

    open spec fn view(&self) -> ErrorView {
        ErrorView { retryable: self.retryable, message: self.message@ }
    }
}

/// A breach of the protocol, which stays one however often it is tried.
pub open spec fn breach(message: Seq<char>) -> ErrorView {
    ErrorView { retryable: false, message }
}

/// The model of a result: what it holds, or what its error says.
pub open spec fn outcome<T: DeepView>(result: Result<T, Error>) -> Result<T::V, ErrorView> {
    match result {
        Ok(value) => Ok(value.deep_view()),
        Err(error) => Err(error@),
    }
}

/// The error of a breach of the protocol.
pub fn protocol_error(message: &str) -> (error: Error)
    ensures
        error@ == breach(message@),
{
    Error { retryable: false, message: message.to_owned() }
}

} // verus!
