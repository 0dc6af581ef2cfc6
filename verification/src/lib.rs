//! Streaming codec for HTTP/1.1 message framing.
//!
//! The crate decodes and encodes request/response heads (start line plus
//! header block) and message bodies (fixed-length or chunked transfer
//! coding) as incremental state machines over plain bytes.  No I/O happens
//! here: a caller reads from or writes to its transport and feeds the bytes
//! through the state machines, which never ask for more bytes than the
//! framing allows.

pub mod body_decode;
pub mod body_encode;
pub mod body_parse;
pub mod buffer_write;
pub mod chunked;
pub mod errors;
pub mod head;
pub mod head_laws;
pub mod head_parse;
pub mod headers;
pub mod status;
pub mod terminator;

pub use errors::DecodeError;
pub use errors::EncodeError;
pub use errors::HeadError;
