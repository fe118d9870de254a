//! Error taxonomy of the session manager.
//!
//! Every synchronous operation either succeeds or returns one of these
//! kinds. None of them is fatal to the process.
use vstd::prelude::*;

verus! {

/// The kinds of failure a session-manager operation can report.
///
/// `StatePoisoned` is produced by the locking layer around the manager,
/// never by the manager itself; `SerializationFailure` is absorbed by the
/// recorder and only surfaces in diagnostics.
#[derive(Clone, Copy, Debug, PartialEq, Eq, Structural)]
pub enum PtyError {
    /// The operation referenced a nonexistent or already-closed session id.
    UnknownSession,
    /// A recording start was requested while one is already active.
    AlreadyRecording,
    /// An OS-level PTY or process creation step failed.
    SpawnFailure,
    /// A read, write, resize or flush at the OS boundary failed.
    IOFailure,
    /// The registry lock could not be acquired after a panic elsewhere.
    StatePoisoned,
    /// A recording event could not be encoded.
    SerializationFailure,
}

impl PtyError {
    /// The fixed diagnostic text of this error kind.
    pub open spec fn spec_message(self) -> Seq<char> {
        match self {
            PtyError::UnknownSession => "unknown session"@,
            PtyError::AlreadyRecording => "already recording"@,
            PtyError::SpawnFailure => "spawn failed"@,
            PtyError::IOFailure => "io failed"@,
            PtyError::StatePoisoned => "state poisoned"@,
            PtyError::SerializationFailure => "serialize failed"@,
        }
    }

    /// A short human-readable description, stable per kind.
    pub fn message(&self) -> (r: String)
        ensures
            r@ == self.spec_message(),
    {
        match self {
            PtyError::UnknownSession => String::from_str("unknown session"),
            PtyError::AlreadyRecording => String::from_str("already recording"),
            PtyError::SpawnFailure => String::from_str("spawn failed"),
            PtyError::IOFailure => String::from_str("io failed"),
            PtyError::StatePoisoned => String::from_str("state poisoned"),
            PtyError::SerializationFailure => String::from_str("serialize failed"),
        }
    }
}

} // verus!
