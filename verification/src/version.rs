//! The closed set of protocol versions.
use crate::error::Error;
use crate::wire::{bytes_eq, is_ws, COLON};
use vstd::prelude::*;
use vstd::utf8::encode_utf8;

verus! {

/// A protocol version, represented identically on the wire.
/// `Http1` (HTTP/1.1) is the default applied by the builders.
#[derive(Debug, Clone, Copy, PartialEq, Eq, Structural)]
pub enum Version {
    Http0,
    Http1,
    Http2,
    Http3,
}

impl Version {
    /// The canonical token of the version, as characters.
    pub open spec fn describe(self) -> Seq<char> {
        match self {
            Version::Http0 => "HTTP/1.0"@,
            Version::Http1 => "HTTP/1.1"@,
            Version::Http2 => "HTTP/2"@,
            Version::Http3 => "HTTP/3"@,
        }
    }

    /// The canonical token of the version, as wire bytes.
    pub open spec fn wire(self) -> Seq<u8> {
        encode_utf8(self.describe())
    }

    /// The version a token denotes; `None` outside the closed set.
    pub open spec fn from_wire_spec(s: Seq<u8>) -> Option<Version> {
        if s == Version::Http0.wire() {
            Some(Version::Http0)
        } else if s == Version::Http1.wire() {
            Some(Version::Http1)
        } else if s == Version::Http2.wire() {
            Some(Version::Http2)
        } else if s == Version::Http3.wire() {
            Some(Version::Http3)
        } else {
            None
        }
    }

    /// The canonical token of the version.
    pub fn to_static(&self) -> (r: &'static str)
        ensures
            r@ == self.describe(),
            encode_utf8(r@) == self.wire(),
    {
        match self {
            Version::Http0 => "HTTP/1.0",
            Version::Http1 => "HTTP/1.1",
            Version::Http2 => "HTTP/2",
            Version::Http3 => "HTTP/3",
        }
    }

    /// Parse a version token; exact, case-sensitive matching against the
    /// closed set, anything else is `InvalidHeader`.
    pub fn from_wire(s: &[u8]) -> (r: Result<Version, Error>)
        ensures
            match r {
                Ok(v) => Version::from_wire_spec(s@) == Some(v),
                Err(e) => Version::from_wire_spec(s@) is None && e == Error::InvalidHeader,
            },
    {
        if bytes_eq(s, "HTTP/1.0".as_bytes()) {
            Ok(Version::Http0)
        } else if bytes_eq(s, "HTTP/1.1".as_bytes()) {
            Ok(Version::Http1)
        } else if bytes_eq(s, "HTTP/2".as_bytes()) {
            Ok(Version::Http2)
        } else if bytes_eq(s, "HTTP/3".as_bytes()) {
            Ok(Version::Http3)
        } else {
            Err(Error::InvalidHeader)
        }
    }
}

impl Default for Version {
    /// The version the builders fall back to when none is set.
    fn default() -> (r: Version)
        ensures
            r == Version::Http1,
    {
        Version::Http1
    }
}

/// The concrete bytes of the four version tokens.
pub proof fn lemma_version_tokens()
    ensures
        Version::Http0.wire() == seq![72u8, 84, 84, 80, 47, 49, 46, 48],
        Version::Http1.wire() == seq![72u8, 84, 84, 80, 47, 49, 46, 49],
        Version::Http2.wire() == seq![72u8, 84, 84, 80, 47, 50],
        Version::Http3.wire() == seq![72u8, 84, 84, 80, 47, 51],
{
    reveal_strlit("HTTP/1.0");
    reveal_strlit("HTTP/1.1");
    reveal_strlit("HTTP/2");
    reveal_strlit("HTTP/3");
    vstd::string::is_ascii_spec_bytes("HTTP/1.0");
    vstd::string::is_ascii_spec_bytes("HTTP/1.1");
    vstd::string::is_ascii_spec_bytes("HTTP/2");
    vstd::string::is_ascii_spec_bytes("HTTP/3");
    assert(Version::Http0.wire() =~= seq![72u8, 84, 84, 80, 47, 49, 46, 48]);
    assert(Version::Http1.wire() =~= seq![72u8, 84, 84, 80, 47, 49, 46, 49]);
    assert(Version::Http2.wire() =~= seq![72u8, 84, 84, 80, 47, 50]);
    assert(Version::Http3.wire() =~= seq![72u8, 84, 84, 80, 47, 51]);
}

/// A version token is a nonempty run of ASCII bytes free of whitespace and
/// colons, and parsing inverts rendering.
pub proof fn lemma_version_wire_props(v: Version)
    ensures
        v.wire().len() > 0,
        forall|i: int|
            0 <= i < v.wire().len() ==> !is_ws(#[trigger] v.wire()[i]) && v.wire()[i] < 128
                && v.wire()[i] != COLON,
        Version::from_wire_spec(v.wire()) == Some(v),
{
    lemma_version_tokens();
}

} // verus!
