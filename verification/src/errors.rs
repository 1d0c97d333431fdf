//! The error taxonomy shared by the whole library. Every failure is reported
//! as one of these tags and propagates to the immediate caller; nothing is
//! retried.

use vstd::prelude::*;

verus! {

/// A typed failure of decoding, extraction, tracker parsing or the handshake.
#[derive(Clone, Copy, Debug, PartialEq, Eq, Structural)]
pub enum TorrentError {
    /// A bencode syntax violation: bad length prefix, missing terminator,
    /// truncated buffer, or a leading byte that begins no value.
    MalformedInputError,
    /// A repeated key inside one bencoded dictionary.
    DuplicateKeyError,
    /// A torrent metadata field that is absent or has the wrong type or value.
    MissingFieldError,
    /// A tracker response of the wrong shape.
    TrackerProtocolError,
    /// A caller-supplied precondition violation, such as a hash of the wrong
    /// length.
    InvalidArgumentError,
    /// A peer handshake response that fails validation.
    HandshakeProtocolError,
    /// A connection or I/O failure, passed through opaquely from the
    /// networking layer.
    TransportError,
}

impl TorrentError {
    /// A short tag naming the error, for reporting.
    pub fn as_str(&self) -> (r: &'static str)
        ensures
            r@.len() > 0,
    {
        proof {
            reveal_strlit("malformed input");
            reveal_strlit("duplicate dictionary key");
            reveal_strlit("missing or mistyped field");
            reveal_strlit("bad tracker response");
            reveal_strlit("invalid argument");
            reveal_strlit("handshake validation failed");
            reveal_strlit("transport failure");
        }
        match self {
            TorrentError::MalformedInputError => "malformed input",
            TorrentError::DuplicateKeyError => "duplicate dictionary key",
            TorrentError::MissingFieldError => "missing or mistyped field",
            TorrentError::TrackerProtocolError => "bad tracker response",
            TorrentError::InvalidArgumentError => "invalid argument",
            TorrentError::HandshakeProtocolError => "handshake validation failed",
            TorrentError::TransportError => "transport failure",
        }
    }
}

} // verus!
