//! The closed error taxonomy of the storage layer.

use vstd::prelude::*;

use crate::types::LogId;

verus! {

/// What a failing operation was acting on.
#[derive(Clone, Copy, Debug, PartialEq, Eq, Structural)]
pub enum ErrorSubject {
    /// A log entry or a range of log entries.
    Logs,
    /// A single log position.
    Log(LogId),
    /// The vote/term record.
    HardState,
    /// The state machine.
    StateMachine,
    /// A snapshot.
    Snapshot,
    /// The store as a whole.
    Store,
}

/// What a failing operation was doing.
#[derive(Clone, Copy, Debug, PartialEq, Eq, Structural)]
pub enum ErrorVerb {
    Read,
    Write,
    Delete,
    Apply,
}

/// A storage failure, as a closed set of variants each carrying structured
/// context, so callers can branch on kind.
#[derive(Clone, Copy, Debug, PartialEq, Eq, Structural)]
pub enum StorageError {
    /// The underlying medium failed to read, write or fsync.
    IO { subject: ErrorSubject, verb: ErrorVerb },
    /// A strict range read found an entry missing that the known log bounds
    /// say should exist: storage corruption, or a caller's stale assumption.
    RangeMismatch { start: u64, end: u64, missing_index: u64 },
}

impl StorageError {
    /// Whether the node must shut down rather than retry: a failed log
    /// deletion leaves a log the node can neither trust nor fix.
    pub open spec fn spec_requires_shutdown(&self) -> bool {
        match *self {
            StorageError::IO { subject: _, verb } => verb is Delete,
            StorageError::RangeMismatch { .. } => false,
        }
    }

    /// Whether the node must shut down rather than retry.
    pub fn requires_shutdown(&self) -> (r: bool)
        ensures
            r == self.spec_requires_shutdown(),
    {
        match *self {
            StorageError::IO { subject: _, verb } => matches!(verb, ErrorVerb::Delete),
            StorageError::RangeMismatch { .. } => false,
        }
    }
}

} // verus!
