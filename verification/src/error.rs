//! Errors that travel through the engine, and their classification into
//! transient and lasting ones.

use vstd::prelude::*;

verus! {

/// Why an I/O attempt on a connection did not complete.
#[derive(Clone, Copy, Debug, PartialEq, Eq, Structural)]
pub enum IoErrorKind {
    /// The operation would have had to wait.
    WouldBlock,
    /// The operation ran into its deadline.
    TimedOut,
    /// The peer reset the connection.
    ConnectionReset,
    /// The connection was torn down locally.
    ConnectionAborted,
    /// The write side of the connection is gone.
    BrokenPipe,
    /// The stream ended in the middle of a line.
    UnexpectedEof,
    /// Anything else.
    Other,
}

/// Why a line was not accepted as a protocol message.
#[derive(Clone, Copy, Debug, PartialEq, Eq, Structural)]
pub enum ParseErrorKind {
    /// The line ended where more input was expected.
    UnexpectedEnd,
    /// The tags or the body of the line exceed the protocol's length limit.
    TooLong,
    /// The parser gave another reason.
    Other,
}

/// A failure of the transport; `detail` is free-form text from the
/// transport.
#[derive(Debug, PartialEq, Eq)]
pub struct IoError {
    pub kind: IoErrorKind,
    pub detail: String,
}

/// A failure to receive, parse or send a message.
#[derive(Debug, PartialEq, Eq)]
pub enum Error {
    /// The transport failed.
    Io(IoError),
    /// A line was not a well-formed message; `raw` is the offending line.
    Parse { reason: ParseErrorKind, raw: String },
}

impl IoErrorKind {
    /// A transient kind says that the attempt could not complete right now
    /// and is expected to succeed later.
    pub open spec fn transient(self) -> bool {
        self == IoErrorKind::WouldBlock || self == IoErrorKind::TimedOut
    }

    /// Tells whether the kind is transient.
    pub fn is_transient(self) -> (r: bool)
        ensures
            r == self.transient(),
    {
        match self {
            IoErrorKind::WouldBlock => true,
            IoErrorKind::TimedOut => true,
            _ => false,
        }
    }
}

impl Error {
    /// An error is transient exactly when it is an I/O error of a transient
    /// kind.  Parse errors never are.
    pub open spec fn transient(self) -> bool {
        match self {
            Error::Io(failure) => failure.kind.transient(),
            Error::Parse { .. } => false,
        }
    }

    /// Tells whether the error is transient.
    pub fn is_transient(&self) -> (r: bool)
        ensures
            r == self.transient(),
    {
        match self {
            Error::Io(failure) => failure.kind.is_transient(),
            Error::Parse { .. } => false,
        }
    }
}

impl Clone for IoError {
    fn clone(&self) -> (copy: Self)
        ensures
            copy == *self,
    {
        IoError { kind: self.kind, detail: self.detail.clone() }
    }
}

impl Clone for Error {
    fn clone(&self) -> (copy: Self)
        ensures
            copy == *self,
    {
        match self {
            Error::Io(failure) => Error::Io(failure.clone()),
            Error::Parse { reason, raw } => Error::Parse { reason: *reason, raw: raw.clone() },
        }
    }
}

} // verus!
