//! A minimal HTTP/1.x message codec.
//!
//! The codec turns a raw byte buffer into a structured request or response
//! and turns a structured message back into the exact bytes to send on the
//! wire.  It owns no I/O: callers feed it byte buffers and take byte buffers
//! back.  All message fields are owned byte strings (`Vec<u8>`), so a parsed
//! message never borrows from the input buffer and may outlive it.
//!
//! Each parser is specified by a spec-level parsing function and each
//! serializer by a spec-level rendering function; the round-trip lemmas in
//! [`request_builder`], [`response`] and [`response_builder`] prove that
//! parsing inverts serialization for every message a builder can produce
//! with wire-safe fields.

pub mod codec;
pub mod error;
pub mod header_map;
pub mod method;
pub mod request;
pub mod request_builder;
pub mod response;
pub mod response_builder;
pub mod status;
pub mod utf8check;
pub mod version;
pub mod wire;

pub use error::Error;
pub use header_map::HeaderMap;
pub use header_map::HeaderMapIter;
pub use method::Method;
pub use request::Request;
pub use request_builder::RequestBuilder;
pub use response::Response;
pub use response_builder::ResponseBuilder;
pub use status::Status;
pub use version::Version;
