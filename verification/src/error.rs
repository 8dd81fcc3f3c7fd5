//! The errors of the protocol.

use vstd::prelude::*;

verus! {

/// The kinds of transport failure that the protocol itself produces or tells apart.
#[derive(Clone, Copy, Debug, PartialEq, Eq, Structural)]
pub enum IoErrorKind {
    UnexpectedEof,
    BrokenPipe,
    WriteZero,
    NotFound,
    TimedOut,
    Other,
}

/// A transport failure: its kind and its text.
#[derive(Clone, Debug)]
pub struct IoError {
    pub kind: IoErrorKind,
    pub message: String,
}

/// What can go wrong.
#[derive(Clone, Debug)]
pub enum AnyTlsError {
    Io(IoError),
    Tls(String),
    Url(String),
    InvalidDnsName(String),
    AuthenticationFailed,
    Protocol(String),
    SessionClosed,
}

pub type Result<T> = core::result::Result<T, AnyTlsError>;

/// The mathematical value of an [`AnyTlsError`].
pub enum ErrorView {
    Io(IoErrorKind, Seq<char>),
    Tls(Seq<char>),
    Url(Seq<char>),
    InvalidDnsName(Seq<char>),
    AuthenticationFailed,
    Protocol(Seq<char>),
    SessionClosed,
}

impl View for AnyTlsError {
    type V = ErrorView;

    open spec fn view(&self) -> ErrorView {
        match self {
            AnyTlsError::Io(err) => ErrorView::Io(err.kind, err.message@),
            AnyTlsError::Tls(text) => ErrorView::Tls(text@),
            AnyTlsError::Url(text) => ErrorView::Url(text@),
            AnyTlsError::InvalidDnsName(text) => ErrorView::InvalidDnsName(text@),
            AnyTlsError::AuthenticationFailed => ErrorView::AuthenticationFailed,
            AnyTlsError::Protocol(text) => ErrorView::Protocol(text@),
            AnyTlsError::SessionClosed => ErrorView::SessionClosed,
        }
    }
}

/// How an error reads.
pub open spec fn error_text(err: ErrorView) -> Seq<char> {
    match err {
        ErrorView::Io(_, text) => "io error: "@ + text,
        ErrorView::Tls(text) => "tls error: "@ + text,
        ErrorView::Url(text) => "url parse error: "@ + text,
        ErrorView::InvalidDnsName(text) => "invalid DNS name: "@ + text,
        ErrorView::AuthenticationFailed => "authentication failed"@,
        ErrorView::Protocol(text) => "protocol error: "@ + text,
        ErrorView::SessionClosed => "session is closed"@,
    }
}

impl AnyTlsError {
    /// A protocol error with this text.
    pub fn protocol(message: &str) -> (err: Self)
        ensures
            err@ == ErrorView::Protocol(message@),
    {
        AnyTlsError::Protocol(message.to_owned())
    }

    /// How the error reads.
    pub fn message(&self) -> (text: String)
        ensures
            text@ == error_text(self@),
    {
        match self {
            AnyTlsError::Io(err) => String::from_str("io error: ").concat(err.message.as_str()),
            AnyTlsError::Tls(text) => String::from_str("tls error: ").concat(text.as_str()),
            AnyTlsError::Url(text) => String::from_str("url parse error: ").concat(text.as_str()),
            AnyTlsError::InvalidDnsName(text) => String::from_str("invalid DNS name: ").concat(text.as_str()),
            AnyTlsError::AuthenticationFailed => String::from_str("authentication failed"),
            AnyTlsError::Protocol(text) => String::from_str("protocol error: ").concat(text.as_str()),
            AnyTlsError::SessionClosed => String::from_str("session is closed"),
        }
    }
}

} // verus!
