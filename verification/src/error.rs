//! Error taxonomy of the protocol and the store.
//!
//! `Error` is the condition a codec or framing call reports; `ErrorKind`
//! classifies it for use in specifications, so that contracts can pin down
//! which condition comes back without speaking about the carried text.

use vstd::prelude::*;

verus! {

/// The conditions the codec, the framing engine and the store report.
#[derive(Debug, PartialEq)]
pub enum Error {
    /// Not enough bytes for the requested read; transient, the framing
    /// engine keeps accumulating input.
    InvalidBytes,
    /// No frame terminator found yet in the buffered bytes; transient.
    Incomplete,
    /// The frame's leading tag byte is not one of the recognized tags.
    UnknownCommand,
    /// The peer ended the stream between frames; a graceful end.
    ConnectionClosed,
    /// The frame's content is malformed (bad text encoding, bad terminator,
    /// or a partial frame left when the peer closed).
    BadRequest { msg: String },
    /// The peer answered with an application-level error frame.
    DatabaseError { msg: String },
    /// The transport failed; fatal for the connection.
    Io { msg: String },
}

/// The classification of an [`Error`], one kind per variant.
#[derive(Debug, PartialEq, Eq, Structural)]
pub enum ErrorKind {
    InvalidBytes,
    Incomplete,
    UnknownCommand,
    ConnectionClosed,
    BadRequest,
    DatabaseError,
    Io,
}

impl Error {
    /// The kind of this error, ignoring any carried message.
    pub open spec fn kind(self) -> ErrorKind {
        match self {
            Error::InvalidBytes => ErrorKind::InvalidBytes,
            Error::Incomplete => ErrorKind::Incomplete,
            Error::UnknownCommand => ErrorKind::UnknownCommand,
            Error::ConnectionClosed => ErrorKind::ConnectionClosed,
            Error::BadRequest { .. } => ErrorKind::BadRequest,
            Error::DatabaseError { .. } => ErrorKind::DatabaseError,
            Error::Io { .. } => ErrorKind::Io,
        }
    }

    /// A short description: fixed text for the plain variants, the carried
    /// message for the variants that hold one.
    pub fn message(&self) -> (m: String)
        ensures
            m@ == match *self {
                Error::InvalidBytes => "invalid bytes"@,
                Error::Incomplete => "request is incomplete"@,
                Error::UnknownCommand => "unknown command type"@,
                Error::ConnectionClosed => "connection was closed"@,
                Error::BadRequest { msg } => msg@,
                Error::DatabaseError { msg } => msg@,
                Error::Io { msg } => msg@,
            },
    {
        match self {
            Error::InvalidBytes => "invalid bytes".to_owned(),
            Error::Incomplete => "request is incomplete".to_owned(),
            Error::UnknownCommand => "unknown command type".to_owned(),
            Error::ConnectionClosed => "connection was closed".to_owned(),
            Error::BadRequest { msg } => msg.clone(),
            Error::DatabaseError { msg } => msg.clone(),
            Error::Io { msg } => msg.clone(),
        }
    }
}

} // verus!

verus! {

/// The failures of the request-header protocol and of configuration
/// loading.
#[derive(Debug, PartialEq, Eq, Structural)]
pub enum DatabaseError {
    /// The request's header or content is not well formed.
    InvalidRequest,
    /// The configured port is not a number.
    InvalidPortFormat,
    /// The configured port lies outside the registered range.
    InvalidPortValue(u16),
}

/// Shorthand for results that fail with [`DatabaseError`].
pub type DatabaseResult<T> = Result<T, DatabaseError>;

} // verus!
