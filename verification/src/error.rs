//! The error taxonomy shared by every layer.

use vstd::prelude::*;

verus! {

/// Failure of the byte transport, or of a byte source standing in for it.
#[derive(Clone, Copy, Debug, PartialEq, Eq)]
pub enum IoError {
    /// Fewer bytes were available than the frame being read needs.
    UnexpectedEof,
    /// The bytes were there but cannot be what the frame claims.
    InvalidData(&'static str),
    /// No data is available right now; not a failure of the stream.
    WouldBlock,
    /// Any other transport failure, as reported by the host.
    Other,
}

/// Everything that can go wrong in a session.
#[derive(Clone, Debug, PartialEq, Eq)]
pub enum Error {
    /// Transport error or end of stream at a framing-critical point.
    Io(IoError),
    /// The server speaks a protocol version outside 3.3 to 3.8.
    UnsupportedVersion,
    /// No acceptable authentication method, or the decider declined.
    AuthenticationUnavailable,
    /// The server refused the credentials; the bytes are its reason, if any.
    AuthenticationFailure(Vec<u8>),
    /// A protocol invariant was violated; the string names it.
    Unexpected(&'static str),
    /// A write would block; the host may retry.
    BackPressure,
    /// The peer closed the session.
    Disconnected,
}

/// An error, as a value.
pub enum ErrorView {
    Io(IoError),
    UnsupportedVersion,
    AuthenticationUnavailable,
    AuthenticationFailure(Seq<u8>),
    Unexpected(&'static str),
    BackPressure,
    Disconnected,
}

impl View for Error {
    type V = ErrorView;

    open spec fn view(&self) -> ErrorView {
        match self {
            Error::Io(e) => ErrorView::Io(*e),
            Error::UnsupportedVersion => ErrorView::UnsupportedVersion,
            Error::AuthenticationUnavailable => ErrorView::AuthenticationUnavailable,
            Error::AuthenticationFailure(reason) => ErrorView::AuthenticationFailure(reason@),
            Error::Unexpected(what) => ErrorView::Unexpected(*what),
            Error::BackPressure => ErrorView::BackPressure,
            Error::Disconnected => ErrorView::Disconnected,
        }
    }
}

impl Error {
    /// Whether the session can go on after this error.
    pub open spec fn recoverable(self) -> bool {
        self is BackPressure
    }

    /// Whether the session can go on after this error: only back-pressure is
    /// not terminal.
    pub fn is_recoverable(&self) -> (r: bool)
        ensures
            r == self.recoverable(),
    {
        match self {
            Error::BackPressure => true,
            _ => false,
        }
    }
}

} // verus!
