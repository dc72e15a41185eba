//! Error kinds of the front ends.

use vstd::prelude::*;
use crate::address::AddressError;

verus! {

/// Malformed or unsupported input on a front end.
#[derive(Debug, Clone, Copy, PartialEq, Eq, Structural)]
pub enum ProtocolError {
    /// The SOCKS5 greeting is shorter than two bytes or names another version.
    MalformedHandshake,
    /// The client does not offer the method "no authentication".
    NoAcceptableAuth,
    /// The SOCKS5 request names another version.
    MalformedRequest,
    /// The SOCKS5 command is not CONNECT.
    UnsupportedCommand,
    /// The SOCKS5 address type is none of IPv4, domain name, IPv6.
    UnknownAddressType,
    /// The input ended inside a message.
    Truncated,
    /// The client closed before it sent anything.
    EmptyRequest,
    /// The first byte announces a TLS handshake.
    HttpsNotSupported,
    /// The HTTP method is not CONNECT.
    WrongMethod,
    /// The HTTP request line names no target.
    MissingTarget,
    /// The HTTP target is no `host:port`.
    InvalidTarget { reason: AddressError },
}

impl ProtocolError {
    /// The error in words.
    pub open spec fn message_text(self) -> Seq<char> {
        match self {
            ProtocolError::MalformedHandshake => "Not a SOCKS5 request"@,
            ProtocolError::NoAcceptableAuth => "No supported auth method"@,
            ProtocolError::MalformedRequest => "Invalid SOCKS5 request"@,
            ProtocolError::UnsupportedCommand => "Only CONNECT is supported"@,
            ProtocolError::UnknownAddressType => "Unknown ATYP"@,
            ProtocolError::Truncated => "Request ended early"@,
            ProtocolError::EmptyRequest => "Empty request"@,
            ProtocolError::HttpsNotSupported =>
                "Not supported by HTTPS, TLS handshake detected, rejecting connection"@,
            ProtocolError::WrongMethod => "Wrong HTTP method"@,
            ProtocolError::MissingTarget => "not found target addr"@,
            ProtocolError::InvalidTarget { reason } => reason.message_text(),
        }
    }

    /// The error in words, for a log line.
    pub fn message(&self) -> (out: String)
        ensures
            out@ == self.message_text(),
    {
        match self {
            ProtocolError::MalformedHandshake => "Not a SOCKS5 request".to_owned(),
            ProtocolError::NoAcceptableAuth => "No supported auth method".to_owned(),
            ProtocolError::MalformedRequest => "Invalid SOCKS5 request".to_owned(),
            ProtocolError::UnsupportedCommand => "Only CONNECT is supported".to_owned(),
            ProtocolError::UnknownAddressType => "Unknown ATYP".to_owned(),
            ProtocolError::Truncated => "Request ended early".to_owned(),
            ProtocolError::EmptyRequest => "Empty request".to_owned(),
            ProtocolError::HttpsNotSupported =>
                "Not supported by HTTPS, TLS handshake detected, rejecting connection".to_owned(),
            ProtocolError::WrongMethod => "Wrong HTTP method".to_owned(),
            ProtocolError::MissingTarget => "not found target addr".to_owned(),
            ProtocolError::InvalidTarget { reason } => reason.message(),
        }
    }
}

} // verus!
