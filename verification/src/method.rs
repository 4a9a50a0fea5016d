//! The closed set of request methods.
use crate::error::Error;
use crate::wire::{bytes_eq, is_ws, COLON};
use vstd::prelude::*;
use vstd::utf8::encode_utf8;

verus! {

/// A request method.  Any token outside this set fails to parse.
#[derive(Debug, PartialEq, Eq, Clone, Copy, Structural)]
pub enum Method {
    Get,
    Post,
    Put,
    Delete,
}

impl Method {
    /// The canonical token of the method, as characters.
    pub open spec fn describe(self) -> Seq<char> {
        match self {
            Method::Get => "GET"@,
            Method::Post => "POST"@,
            Method::Put => "PUT"@,
            Method::Delete => "DELETE"@,
        }
    }

    /// The canonical token of the method, as wire bytes.
    pub open spec fn wire(self) -> Seq<u8> {
        encode_utf8(self.describe())
    }

    /// The method a token denotes; `None` outside the closed set.
    /// Matching is exact and case-sensitive.
    pub open spec fn from_wire_spec(s: Seq<u8>) -> Option<Method> {
        if s == Method::Get.wire() {
            Some(Method::Get)
        } else if s == Method::Post.wire() {
            Some(Method::Post)
        } else if s == Method::Put.wire() {
            Some(Method::Put)
        } else if s == Method::Delete.wire() {
            Some(Method::Delete)
        } else {
            None
        }
    }

    /// The canonical token of the method.
    pub fn to_static_str(&self) -> (r: &'static str)
        ensures
            r@ == self.describe(),
            encode_utf8(r@) == self.wire(),
    {
        match self {
            Method::Get => "GET",
            Method::Post => "POST",
            Method::Put => "PUT",
            Method::Delete => "DELETE",
        }
    }

    /// Parse a method token; exact, case-sensitive matching against the
    /// closed set, anything else is `InvalidHeader`.
    pub fn from_wire(s: &[u8]) -> (r: Result<Method, Error>)
        ensures
            match r {
                Ok(m) => Method::from_wire_spec(s@) == Some(m),
                Err(e) => Method::from_wire_spec(s@) is None && e == Error::InvalidHeader,
            },
    {
        if bytes_eq(s, "GET".as_bytes()) {
            Ok(Method::Get)
        } else if bytes_eq(s, "POST".as_bytes()) {
            Ok(Method::Post)
        } else if bytes_eq(s, "PUT".as_bytes()) {
            Ok(Method::Put)
        } else if bytes_eq(s, "DELETE".as_bytes()) {
            Ok(Method::Delete)
        } else {
            Err(Error::InvalidHeader)
        }
    }
}

/// The concrete bytes of the four method tokens.
pub proof fn lemma_method_tokens()
    ensures
        Method::Get.wire() == seq![71u8, 69, 84],
        Method::Post.wire() == seq![80u8, 79, 83, 84],
        Method::Put.wire() == seq![80u8, 85, 84],
        Method::Delete.wire() == seq![68u8, 69, 76, 69, 84, 69],
{
    reveal_strlit("GET");
    reveal_strlit("POST");
    reveal_strlit("PUT");
    reveal_strlit("DELETE");
    vstd::string::is_ascii_spec_bytes("GET");
    vstd::string::is_ascii_spec_bytes("POST");
    vstd::string::is_ascii_spec_bytes("PUT");
    vstd::string::is_ascii_spec_bytes("DELETE");
    assert(Method::Get.wire() =~= seq![71u8, 69, 84]);
    assert(Method::Post.wire() =~= seq![80u8, 79, 83, 84]);
    assert(Method::Put.wire() =~= seq![80u8, 85, 84]);
    assert(Method::Delete.wire() =~= seq![68u8, 69, 76, 69, 84, 69]);
}

/// A method token is a nonempty run of ASCII bytes free of whitespace and
/// colons, and parsing inverts rendering.
pub proof fn lemma_method_wire_props(m: Method)
    ensures
        m.wire().len() > 0,
        forall|i: int|
            0 <= i < m.wire().len() ==> !is_ws(#[trigger] m.wire()[i]) && m.wire()[i] < 128
                && m.wire()[i] != COLON,
        Method::from_wire_spec(m.wire()) == Some(m),
{
    lemma_method_tokens();
}

} // verus!
