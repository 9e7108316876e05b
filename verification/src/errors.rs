//! The closed set of failure kinds that the library reports.

use vstd::prelude::*;

verus! {

/// What went wrong. Every failure the library reports carries exactly one of
/// these kinds, together with a human-readable message.
#[derive(Clone, Copy, Debug, PartialEq, Eq, Structural)]
pub enum ErrorKind {
    /// A construction parameter was rejected (for example a pool of zero threads).
    InvalidArgument,
    /// A node index lies outside the graph.
    InvalidIndex,
    /// A channel endpoint was torn down while the other side still needed it.
    Disconnected,
    /// A shared lock could not be acquired.
    LockUnavailable,
    /// A requested entry does not exist.
    NotFound,
}

/// A failure: a kind from the closed taxonomy plus an explanatory message.
#[derive(Clone, Copy, Debug)]
pub struct Error {
    pub kind: ErrorKind,
    pub message: &'static str,
}

impl Error {
    /// Builds an error of the given kind carrying the given message.
    pub fn new(kind: ErrorKind, message: &'static str) -> (r: Self)
        ensures
            r.kind == kind,
            r.message == message,
    {
        Error { kind, message }
    }
}

} // verus!
