//! The kinds of failure that a file-system operation reports.

use vstd::prelude::*;

verus! {

/// Why an operation was refused.
#[derive(Clone, Copy, Debug, PartialEq, Eq, Structural)]
pub enum ErrorKind {
    NotFound,
    PermissionDenied,
    ConnectionRefused,
    ConnectionReset,
    ConnectionAborted,
    NotConnected,
    AddrInUse,
    AddrNotAvailable,
    BrokenPipe,
    AlreadyExists,
    WouldBlock,
    InvalidInput,
    InvalidData,
    TimedOut,
    WriteZero,
    Interrupted,
    Other,
    UnexpectedEof,
}

/// A refused operation: its kind and a fixed description of that kind.
#[derive(Clone, Copy, Debug)]
pub struct Error {
    pub kind: ErrorKind,
    pub description: &'static str,
}

/// The text that describes each kind.
pub open spec fn description_of(kind: ErrorKind) -> Seq<char> {
    match kind {
        ErrorKind::NotFound => "entity not found"@,
        ErrorKind::PermissionDenied => "permission denied"@,
        ErrorKind::ConnectionRefused => "connection refused"@,
        ErrorKind::ConnectionReset => "connection reset"@,
        ErrorKind::ConnectionAborted => "connection aborted"@,
        ErrorKind::NotConnected => "not connected"@,
        ErrorKind::AddrInUse => "address in use"@,
        ErrorKind::AddrNotAvailable => "address not available"@,
        ErrorKind::BrokenPipe => "broken pipe"@,
        ErrorKind::AlreadyExists => "entity already exists"@,
        ErrorKind::WouldBlock => "operation would block"@,
        ErrorKind::InvalidInput => "invalid input parameter"@,
        ErrorKind::InvalidData => "invalid data"@,
        ErrorKind::TimedOut => "timed out"@,
        ErrorKind::WriteZero => "write zero"@,
        ErrorKind::Interrupted => "operation interrupted"@,
        ErrorKind::Other => "other os error"@,
        ErrorKind::UnexpectedEof => "unexpected end of file"@,
    }
}

impl Error {
    /// Whether this is the error that `create_error` builds for `kind`.
    pub open spec fn is(self, kind: ErrorKind) -> bool {
        self.kind == kind && self.description@ == description_of(kind)
    }

    /// The kind of this error.
    pub fn kind(&self) -> (k: ErrorKind)
        ensures
            k == self.kind,
    {
        self.kind
    }

    /// The description of this error.
    pub fn description(&self) -> (d: &'static str)
        ensures
            d@ == self.description@,
    {
        self.description
    }
}

/// Builds the error of the given kind, with the description that belongs to it.
pub fn create_error(kind: ErrorKind) -> (e: Error)
    ensures
        e.kind == kind,
        e.description@ == description_of(kind),
{
    let description = match kind {
        ErrorKind::NotFound => "entity not found",
        ErrorKind::PermissionDenied => "permission denied",
        ErrorKind::ConnectionRefused => "connection refused",
        ErrorKind::ConnectionReset => "connection reset",
        ErrorKind::ConnectionAborted => "connection aborted",
        ErrorKind::NotConnected => "not connected",
        ErrorKind::AddrInUse => "address in use",
        ErrorKind::AddrNotAvailable => "address not available",
        ErrorKind::BrokenPipe => "broken pipe",
        ErrorKind::AlreadyExists => "entity already exists",
        ErrorKind::WouldBlock => "operation would block",
        ErrorKind::InvalidInput => "invalid input parameter",
        ErrorKind::InvalidData => "invalid data",
        ErrorKind::TimedOut => "timed out",
        ErrorKind::WriteZero => "write zero",
        ErrorKind::Interrupted => "operation interrupted",
        ErrorKind::Other => "other os error",
        ErrorKind::UnexpectedEof => "unexpected end of file",
    };
    Error { kind, description }
}

} // verus!
