use vstd::prelude::*;

verus! {

/// Errors raised while decoding a message body.
#[derive(Clone, Copy, Debug, PartialEq, Eq, Structural)]
pub enum DecodeError {
    /// A chunk size line held a byte that is neither a hex digit nor part
    /// of the expected CRLF, a chunk terminator was malformed, or a chunk
    /// size no longer fits in 64 bits.
    MalformedChunk,
    /// The transport closed before the declared body length or the current
    /// chunk was fully consumed.
    TruncatedBody,
    /// A read was attempted after the decoder had already failed.
    BrokenPipe,
}

/// Errors raised while encoding a message body.
#[derive(Clone, Copy, Debug, PartialEq, Eq, Structural)]
pub enum EncodeError {
    /// A fixed-length write would exceed the declared body length.
    BodyOverflow,
    /// A write was attempted after the encoder failed or was closed.
    BrokenPipe,
    /// A chunked write was attempted after end-of-body was signalled.
    InvalidData,
}

/// Errors raised while accumulating or parsing a message head.
#[derive(Clone, Copy, Debug, PartialEq, Eq, Structural)]
pub enum HeadError {
    /// The accumulated head exceeded the configured maximum size before the
    /// terminator was found.
    HeadTooLarge,
    /// The start line or a header line is syntactically invalid.
    MalformedHead,
    /// The start line names an HTTP version other than 1.1.
    UnsupportedVersion,
    /// A header value holds a byte that cannot be written on the wire.
    InvalidHeaderValue,
}

impl DecodeError {
    /// A short description, in place of a `Display` implementation.
    pub fn message(&self) -> (r: &'static str) {
        match self {
            DecodeError::MalformedChunk => "malformed chunk",
            DecodeError::TruncatedBody => "truncated body",
            DecodeError::BrokenPipe => "broken pipe",
        }
    }
}

impl EncodeError {
    /// A short description, in place of a `Display` implementation.
    pub fn message(&self) -> (r: &'static str) {
        match self {
            EncodeError::BodyOverflow => "body overflow",
            EncodeError::BrokenPipe => "broken pipe",
            EncodeError::InvalidData => "write after end of body",
        }
    }
}

impl HeadError {
    /// A short description, in place of a `Display` implementation.
    pub fn message(&self) -> (r: &'static str) {
        match self {
            HeadError::HeadTooLarge => "head too large",
            HeadError::MalformedHead => "malformed head",
            HeadError::UnsupportedVersion => "unsupported HTTP version",
            HeadError::InvalidHeaderValue => "invalid header value",
        }
    }
}

} // verus!
