//! The error taxonomy of the codec.
use vstd::prelude::*;

verus! {

/// Everything that can go wrong while parsing a message.
///
/// `NotEnoughData` is the only retriable condition: the caller should read
/// more bytes and parse again.  The other two report a malformed message and
/// must never be conflated with "read more".
#[derive(Debug, Clone, Copy, PartialEq, Eq, Structural)]
pub enum Error {
    /// The start line or a header line is malformed, a method, version or
    /// status token is outside the recognized set, or `Content-Length` does
    /// not parse as a non-negative integer.
    InvalidHeader,
    /// The header region of the buffer is not valid UTF-8.
    InvalidUtf8,
    /// The buffer does not yet contain a complete message: either the blank
    /// line ending the header region is missing, or fewer body bytes are
    /// available than `Content-Length` declares.
    NotEnoughData,
}

impl Error {
    /// A human-readable description of the error.
    pub fn to_static_str(&self) -> (r: &'static str)
        ensures
            r@ == self.describe(),
    {
        match self {
            Error::InvalidHeader => "invalid header",
            Error::InvalidUtf8 => "invalid utf-8",
            Error::NotEnoughData => "not enough data",
        }
    }

    /// What `to_static_str` returns, as a character sequence.
    pub open spec fn describe(self) -> Seq<char> {
        match self {
            Error::InvalidHeader => "invalid header"@,
            Error::InvalidUtf8 => "invalid utf-8"@,
            Error::NotEnoughData => "not enough data"@,
        }
    }
}

} // verus!
