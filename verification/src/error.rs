//! Error types shared by client-side callers.

use vstd::prelude::*;

verus! {

/// An error surfaced through the client.
#[derive(Debug)]
pub enum ClientError {
    /// A record could not be built or encoded.
    DeriveError(String),
    /// The submit channel refused the record.
    SendError(String),
}

impl ClientError {
    /// The human-readable description.
    pub fn message(&self) -> (r: String)
        ensures
            self matches ClientError::DeriveError(e) ==> r@ == e@,
            self matches ClientError::SendError(e) ==> r@ == e@,
    {
        match self {
            ClientError::DeriveError(e) => e.clone(),
            ClientError::SendError(e) => e.clone(),
        }
    }
}

/// An error raised inside the worker.
#[derive(Debug)]
pub enum WorkerError {
    /// A record could not be encoded.
    DeriveError(String),
    /// An acknowledgement named another chunk id: received, then
    /// expected.
    AckUnmatchedError(String, String),
}

impl WorkerError {
    /// The human-readable description.
    pub fn message(&self) -> (r: String)
        ensures
            self matches WorkerError::DeriveError(e) ==> r@ == e@,
            self is AckUnmatchedError ==> r@ == "request chunk and response ack did not match"@,
    {
        match self {
            WorkerError::DeriveError(e) => e.clone(),
            WorkerError::AckUnmatchedError(_, _) => "request chunk and response ack did not match".to_owned(),
        }
    }
}

} // verus!
