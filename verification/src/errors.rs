//! The error taxonomy of the transaction family.
//!
//! `InvalidPayload` and `DuplicateRecord` reject a client's transaction;
//! `DecodeError` and `StorageError` report ledger-side corruption or I/O
//! failure; `SigningError` and `BuildError` abort a client-side submission
//! attempt, which must then be rebuilt from scratch.

use vstd::prelude::*;

verus! {

/// One failure of the transaction family, tagged by who is at fault.
#[derive(Debug)]
pub enum TwitError {
    /// The inbound transaction payload is malformed or incomplete: a client
    /// error, never retried.
    InvalidPayload(String),
    /// A create was attempted for a name that already holds a record: the
    /// write-once rule rejects it.
    DuplicateRecord(String),
    /// Bytes stored on the ledger do not decode as a container: internal
    /// corruption, fatal to the apply call.
    DecodeError(String),
    /// The ledger context failed, or stored state has the wrong shape.
    StorageError(String),
    /// A signature could not be produced; the submission is abandoned.
    SigningError(String),
    /// A signed unit could not be assembled; the submission is abandoned.
    BuildError(String),
}

impl TwitError {
    /// The human-readable reason carried by the error.
    pub fn reason(&self) -> (r: &String)
        ensures
            r@ == match self {
                TwitError::InvalidPayload(m) => m@,
                TwitError::DuplicateRecord(m) => m@,
                TwitError::DecodeError(m) => m@,
                TwitError::StorageError(m) => m@,
                TwitError::SigningError(m) => m@,
                TwitError::BuildError(m) => m@,
            },
    {
        match self {
            TwitError::InvalidPayload(m) => m,
            TwitError::DuplicateRecord(m) => m,
            TwitError::DecodeError(m) => m,
            TwitError::StorageError(m) => m,
            TwitError::SigningError(m) => m,
            TwitError::BuildError(m) => m,
        }
    }
}

} // verus!
