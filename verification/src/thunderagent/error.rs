//! Errors of program-aware flow control.
use vstd::prelude::*;

verus! {

/// Why a request is not classified.
#[derive(Debug, PartialEq, Eq)]
pub enum ThunderAgentError {
    /// Session-aware classification requires a request id.
    MissingRequestId,
    /// The request is already active.
    DuplicateRequestId(String),
    /// The request ended while classification was pending.
    RequestEnded(String),
    /// The configured number of requests is already tracked.
    RequestLimitExceeded { limit: usize },
    /// The configured number of programs is already tracked.
    ProgramLimitExceeded { limit: usize },
}

/// What an error says.
pub enum Refusal {
    MissingRequestId,
    DuplicateRequestId(Seq<char>),
    RequestEnded(Seq<char>),
    RequestLimitExceeded { limit: usize },
    ProgramLimitExceeded { limit: usize },
}

impl View for ThunderAgentError {
    type V = Refusal;

    open spec fn view(&self) -> Refusal {
        match self {
            ThunderAgentError::MissingRequestId => Refusal::MissingRequestId,
            ThunderAgentError::DuplicateRequestId(id) => Refusal::DuplicateRequestId(id@),
            ThunderAgentError::RequestEnded(id) => Refusal::RequestEnded(id@),
            ThunderAgentError::RequestLimitExceeded { limit } => Refusal::RequestLimitExceeded {
                limit: *limit,
            },
            ThunderAgentError::ProgramLimitExceeded { limit } => Refusal::ProgramLimitExceeded {
                limit: *limit,
            },
        }
    }
}

} // verus!
