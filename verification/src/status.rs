//! The closed set of response statuses.
use crate::error::Error;
use crate::wire::{byte_at, bytes_eq, crlf_free, find1, is_ws, lemma_find1_eq, trim, SP};
use vstd::prelude::*;
use vstd::utf8::encode_utf8;

verus! {

/// A response status: a numeric code paired with its reason phrase.
/// Parsing a status line matches the numeric code only; codes outside the
/// closed set are rejected as `InvalidHeader`.
#[derive(Debug, PartialEq, Eq, Clone, Copy, Structural)]
pub enum Status {
    Okay,
    MultipleChoices,
    BadRequest,
    Unauthorized,
    Forbidden,
    NotFound,
    MethodNotAllowed,
    IamATeapot,
    InternalServerError,
    NotImplemented,
    ServiceUnavailable,
    HttpVersionNotSupported,
}

impl Status {
    /// The canonical status line of the status (code and reason phrase),
    /// as characters.
    pub open spec fn describe(self) -> Seq<char> {
        match self {
            Status::Okay => "200 OK"@,
            Status::MultipleChoices => "300 Multiple Choices"@,
            Status::BadRequest => "400 Bad Request"@,
            Status::Unauthorized => "401 Unauthorized"@,
            Status::Forbidden => "403 Forbidden"@,
            Status::NotFound => "404 Not Found"@,
            Status::MethodNotAllowed => "405 Method Not Allowed"@,
            Status::IamATeapot => "418 I'm a teapot"@,
            Status::InternalServerError => "500 Internal Server Error"@,
            Status::NotImplemented => "501 Not Implemented"@,
            Status::ServiceUnavailable => "503 Service Unavailable"@,
            Status::HttpVersionNotSupported => "505 HTTP Version Not Supported"@,
        }
    }

    /// The canonical status line of the status, as wire bytes.
    pub open spec fn wire(self) -> Seq<u8> {
        encode_utf8(self.describe())
    }

    /// The three-digit numeric code of the status, as wire bytes.
    pub open spec fn code(self) -> Seq<u8> {
        match self {
            Status::Okay => seq![50u8, 48, 48],
            Status::MultipleChoices => seq![51u8, 48, 48],
            Status::BadRequest => seq![52u8, 48, 48],
            Status::Unauthorized => seq![52u8, 48, 49],
            Status::Forbidden => seq![52u8, 48, 51],
            Status::NotFound => seq![52u8, 48, 52],
            Status::MethodNotAllowed => seq![52u8, 48, 53],
            Status::IamATeapot => seq![52u8, 49, 56],
            Status::InternalServerError => seq![53u8, 48, 48],
            Status::NotImplemented => seq![53u8, 48, 49],
            Status::ServiceUnavailable => seq![53u8, 48, 51],
            Status::HttpVersionNotSupported => seq![53u8, 48, 53],
        }
    }

    /// The status a numeric code denotes; `None` outside the closed set.
    pub open spec fn from_code_spec(c: Seq<u8>) -> Option<Status> {
        if c == Status::Okay.code() {
            Some(Status::Okay)
        } else if c == Status::MultipleChoices.code() {
            Some(Status::MultipleChoices)
        } else if c == Status::BadRequest.code() {
            Some(Status::BadRequest)
        } else if c == Status::Unauthorized.code() {
            Some(Status::Unauthorized)
        } else if c == Status::Forbidden.code() {
            Some(Status::Forbidden)
        } else if c == Status::NotFound.code() {
            Some(Status::NotFound)
        } else if c == Status::MethodNotAllowed.code() {
            Some(Status::MethodNotAllowed)
        } else if c == Status::IamATeapot.code() {
            Some(Status::IamATeapot)
        } else if c == Status::InternalServerError.code() {
            Some(Status::InternalServerError)
        } else if c == Status::NotImplemented.code() {
            Some(Status::NotImplemented)
        } else if c == Status::ServiceUnavailable.code() {
            Some(Status::ServiceUnavailable)
        } else if c == Status::HttpVersionNotSupported.code() {
            Some(Status::HttpVersionNotSupported)
        } else {
            None
        }
    }

    /// The canonical status line of the status.
    pub fn to_static_str(&self) -> (r: &'static str)
        ensures
            r@ == self.describe(),
            encode_utf8(r@) == self.wire(),
    {
        match self {
            Status::Okay => "200 OK",
            Status::MultipleChoices => "300 Multiple Choices",
            Status::BadRequest => "400 Bad Request",
            Status::Unauthorized => "401 Unauthorized",
            Status::Forbidden => "403 Forbidden",
            Status::NotFound => "404 Not Found",
            Status::MethodNotAllowed => "405 Method Not Allowed",
            Status::IamATeapot => "418 I'm a teapot",
            Status::InternalServerError => "500 Internal Server Error",
            Status::NotImplemented => "501 Not Implemented",
            Status::ServiceUnavailable => "503 Service Unavailable",
            Status::HttpVersionNotSupported => "505 HTTP Version Not Supported",
        }
    }

    /// Parse a numeric status code; codes outside the closed set are
    /// `InvalidHeader`.
    pub fn from_code(c: &[u8]) -> (r: Result<Status, Error>)
        ensures
            match r {
                Ok(st) => Status::from_code_spec(c@) == Some(st),
                Err(e) => Status::from_code_spec(c@) is None && e == Error::InvalidHeader,
            },
    {
        proof {
            lemma_code_tokens();
        }
        if bytes_eq(c, "200".as_bytes()) {
            Ok(Status::Okay)
        } else if bytes_eq(c, "300".as_bytes()) {
            Ok(Status::MultipleChoices)
        } else if bytes_eq(c, "400".as_bytes()) {
            Ok(Status::BadRequest)
        } else if bytes_eq(c, "401".as_bytes()) {
            Ok(Status::Unauthorized)
        } else if bytes_eq(c, "403".as_bytes()) {
            Ok(Status::Forbidden)
        } else if bytes_eq(c, "404".as_bytes()) {
            Ok(Status::NotFound)
        } else if bytes_eq(c, "405".as_bytes()) {
            Ok(Status::MethodNotAllowed)
        } else if bytes_eq(c, "418".as_bytes()) {
            Ok(Status::IamATeapot)
        } else if bytes_eq(c, "500".as_bytes()) {
            Ok(Status::InternalServerError)
        } else if bytes_eq(c, "501".as_bytes()) {
            Ok(Status::NotImplemented)
        } else if bytes_eq(c, "503".as_bytes()) {
            Ok(Status::ServiceUnavailable)
        } else if bytes_eq(c, "505".as_bytes()) {
            Ok(Status::HttpVersionNotSupported)
        } else {
            Err(Error::InvalidHeader)
        }
    }
}

/// The twelve numeric code tokens, rendered as wire bytes.
pub proof fn lemma_code_tokens()
    ensures
        encode_utf8("200"@) == Status::Okay.code(),
        encode_utf8("300"@) == Status::MultipleChoices.code(),
        encode_utf8("400"@) == Status::BadRequest.code(),
        encode_utf8("401"@) == Status::Unauthorized.code(),
        encode_utf8("403"@) == Status::Forbidden.code(),
        encode_utf8("404"@) == Status::NotFound.code(),
        encode_utf8("405"@) == Status::MethodNotAllowed.code(),
        encode_utf8("418"@) == Status::IamATeapot.code(),
        encode_utf8("500"@) == Status::InternalServerError.code(),
        encode_utf8("501"@) == Status::NotImplemented.code(),
        encode_utf8("503"@) == Status::ServiceUnavailable.code(),
        encode_utf8("505"@) == Status::HttpVersionNotSupported.code(),
{
    reveal_strlit("200");
    reveal_strlit("300");
    reveal_strlit("400");
    reveal_strlit("401");
    reveal_strlit("403");
    reveal_strlit("404");
    reveal_strlit("405");
    reveal_strlit("418");
    reveal_strlit("500");
    reveal_strlit("501");
    reveal_strlit("503");
    reveal_strlit("505");
    vstd::string::is_ascii_spec_bytes("200");
    vstd::string::is_ascii_spec_bytes("300");
    vstd::string::is_ascii_spec_bytes("400");
    vstd::string::is_ascii_spec_bytes("401");
    vstd::string::is_ascii_spec_bytes("403");
    vstd::string::is_ascii_spec_bytes("404");
    vstd::string::is_ascii_spec_bytes("405");
    vstd::string::is_ascii_spec_bytes("418");
    vstd::string::is_ascii_spec_bytes("500");
    vstd::string::is_ascii_spec_bytes("501");
    vstd::string::is_ascii_spec_bytes("503");
    vstd::string::is_ascii_spec_bytes("505");
    assert(encode_utf8("200"@) =~= seq![50u8, 48, 48]);
    assert(encode_utf8("300"@) =~= seq![51u8, 48, 48]);
    assert(encode_utf8("400"@) =~= seq![52u8, 48, 48]);
    assert(encode_utf8("401"@) =~= seq![52u8, 48, 49]);
    assert(encode_utf8("403"@) =~= seq![52u8, 48, 51]);
    assert(encode_utf8("404"@) =~= seq![52u8, 48, 52]);
    assert(encode_utf8("405"@) =~= seq![52u8, 48, 53]);
    assert(encode_utf8("418"@) =~= seq![52u8, 49, 56]);
    assert(encode_utf8("500"@) =~= seq![53u8, 48, 48]);
    assert(encode_utf8("501"@) =~= seq![53u8, 48, 49]);
    assert(encode_utf8("503"@) =~= seq![53u8, 48, 51]);
    assert(encode_utf8("505"@) =~= seq![53u8, 48, 53]);
}

proof fn status_props_okay()
    ensures
        Status::Okay.wire().len() > 4,
        crlf_free(Status::Okay.wire()),
        forall|i: int| 0 <= i < Status::Okay.wire().len() ==> #[trigger] Status::Okay.wire()[i] < 128,
        !is_ws(Status::Okay.wire()[0]),
        !is_ws(Status::Okay.wire().last()),
        trim(Status::Okay.wire()) == Status::Okay.wire(),
        find1(Status::Okay.wire(), SP) == Some(3int),
        Status::Okay.wire().subrange(0, 3) == Status::Okay.code(),
        Status::from_code_spec(Status::Okay.code()) == Some(Status::Okay),
{
    reveal_strlit("200 OK");
    vstd::string::is_ascii_spec_bytes("200 OK");
    let w = Status::Okay.wire();
    assert(w =~= seq![50u8, 48, 48, 32, 79, 75]);
    assert(byte_at(w, SP, 3));
    assert(forall|j: int| 0 <= j < 3 ==> !#[trigger] byte_at(w, SP, j));
    lemma_find1_eq(w, SP, 3);
    assert(w.subrange(0, 3) =~= Status::Okay.code());
    crate::wire::lemma_trim_noop(w);
}

proof fn status_props_multiplechoices()
    ensures
        Status::MultipleChoices.wire().len() > 4,
        crlf_free(Status::MultipleChoices.wire()),
        forall|i: int| 0 <= i < Status::MultipleChoices.wire().len() ==> #[trigger] Status::MultipleChoices.wire()[i] < 128,
        !is_ws(Status::MultipleChoices.wire()[0]),
        !is_ws(Status::MultipleChoices.wire().last()),
        trim(Status::MultipleChoices.wire()) == Status::MultipleChoices.wire(),
        find1(Status::MultipleChoices.wire(), SP) == Some(3int),
        Status::MultipleChoices.wire().subrange(0, 3) == Status::MultipleChoices.code(),
        Status::from_code_spec(Status::MultipleChoices.code()) == Some(Status::MultipleChoices),
{
    reveal_strlit("300 Multiple Choices");
    vstd::string::is_ascii_spec_bytes("300 Multiple Choices");
    let w = Status::MultipleChoices.wire();
    assert(w =~= seq![51u8, 48, 48, 32, 77, 117, 108, 116, 105, 112, 108, 101, 32, 67, 104, 111, 105, 99, 101, 115]);
    assert(byte_at(w, SP, 3));
    assert(forall|j: int| 0 <= j < 3 ==> !#[trigger] byte_at(w, SP, j));
    lemma_find1_eq(w, SP, 3);
    assert(w.subrange(0, 3) =~= Status::MultipleChoices.code());
    crate::wire::lemma_trim_noop(w);
}

proof fn status_props_badrequest()
    ensures
        Status::BadRequest.wire().len() > 4,
        crlf_free(Status::BadRequest.wire()),
        forall|i: int| 0 <= i < Status::BadRequest.wire().len() ==> #[trigger] Status::BadRequest.wire()[i] < 128,
        !is_ws(Status::BadRequest.wire()[0]),
        !is_ws(Status::BadRequest.wire().last()),
        trim(Status::BadRequest.wire()) == Status::BadRequest.wire(),
        find1(Status::BadRequest.wire(), SP) == Some(3int),
        Status::BadRequest.wire().subrange(0, 3) == Status::BadRequest.code(),
        Status::from_code_spec(Status::BadRequest.code()) == Some(Status::BadRequest),
{
    reveal_strlit("400 Bad Request");
    vstd::string::is_ascii_spec_bytes("400 Bad Request");
    let w = Status::BadRequest.wire();
    assert(w =~= seq![52u8, 48, 48, 32, 66, 97, 100, 32, 82, 101, 113, 117, 101, 115, 116]);
    assert(byte_at(w, SP, 3));
    assert(forall|j: int| 0 <= j < 3 ==> !#[trigger] byte_at(w, SP, j));
    lemma_find1_eq(w, SP, 3);
    assert(w.subrange(0, 3) =~= Status::BadRequest.code());
    crate::wire::lemma_trim_noop(w);
}

proof fn status_props_unauthorized()
    ensures
        Status::Unauthorized.wire().len() > 4,
        crlf_free(Status::Unauthorized.wire()),
        forall|i: int| 0 <= i < Status::Unauthorized.wire().len() ==> #[trigger] Status::Unauthorized.wire()[i] < 128,
        !is_ws(Status::Unauthorized.wire()[0]),
        !is_ws(Status::Unauthorized.wire().last()),
        trim(Status::Unauthorized.wire()) == Status::Unauthorized.wire(),
        find1(Status::Unauthorized.wire(), SP) == Some(3int),
        Status::Unauthorized.wire().subrange(0, 3) == Status::Unauthorized.code(),
        Status::from_code_spec(Status::Unauthorized.code()) == Some(Status::Unauthorized),
{
    reveal_strlit("401 Unauthorized");
    vstd::string::is_ascii_spec_bytes("401 Unauthorized");
    let w = Status::Unauthorized.wire();
    assert(w =~= seq![52u8, 48, 49, 32, 85, 110, 97, 117, 116, 104, 111, 114, 105, 122, 101, 100]);
    assert(byte_at(w, SP, 3));
    assert(forall|j: int| 0 <= j < 3 ==> !#[trigger] byte_at(w, SP, j));
    lemma_find1_eq(w, SP, 3);
    assert(w.subrange(0, 3) =~= Status::Unauthorized.code());
    crate::wire::lemma_trim_noop(w);
}

proof fn status_props_forbidden()
    ensures
        Status::Forbidden.wire().len() > 4,
        crlf_free(Status::Forbidden.wire()),
        forall|i: int| 0 <= i < Status::Forbidden.wire().len() ==> #[trigger] Status::Forbidden.wire()[i] < 128,
        !is_ws(Status::Forbidden.wire()[0]),
        !is_ws(Status::Forbidden.wire().last()),
        trim(Status::Forbidden.wire()) == Status::Forbidden.wire(),
        find1(Status::Forbidden.wire(), SP) == Some(3int),
        Status::Forbidden.wire().subrange(0, 3) == Status::Forbidden.code(),
        Status::from_code_spec(Status::Forbidden.code()) == Some(Status::Forbidden),
{
    reveal_strlit("403 Forbidden");
    vstd::string::is_ascii_spec_bytes("403 Forbidden");
    let w = Status::Forbidden.wire();
    assert(w =~= seq![52u8, 48, 51, 32, 70, 111, 114, 98, 105, 100, 100, 101, 110]);
    assert(byte_at(w, SP, 3));
    assert(forall|j: int| 0 <= j < 3 ==> !#[trigger] byte_at(w, SP, j));
    lemma_find1_eq(w, SP, 3);
    assert(w.subrange(0, 3) =~= Status::Forbidden.code());
    crate::wire::lemma_trim_noop(w);
}

proof fn status_props_notfound()
    ensures
        Status::NotFound.wire().len() > 4,
        crlf_free(Status::NotFound.wire()),
        forall|i: int| 0 <= i < Status::NotFound.wire().len() ==> #[trigger] Status::NotFound.wire()[i] < 128,
        !is_ws(Status::NotFound.wire()[0]),
        !is_ws(Status::NotFound.wire().last()),
        trim(Status::NotFound.wire()) == Status::NotFound.wire(),
        find1(Status::NotFound.wire(), SP) == Some(3int),
        Status::NotFound.wire().subrange(0, 3) == Status::NotFound.code(),
        Status::from_code_spec(Status::NotFound.code()) == Some(Status::NotFound),
{
    reveal_strlit("404 Not Found");
    vstd::string::is_ascii_spec_bytes("404 Not Found");
    let w = Status::NotFound.wire();
    assert(w =~= seq![52u8, 48, 52, 32, 78, 111, 116, 32, 70, 111, 117, 110, 100]);
    assert(byte_at(w, SP, 3));
    assert(forall|j: int| 0 <= j < 3 ==> !#[trigger] byte_at(w, SP, j));
    lemma_find1_eq(w, SP, 3);
    assert(w.subrange(0, 3) =~= Status::NotFound.code());
    crate::wire::lemma_trim_noop(w);
}

proof fn status_props_methodnotallowed()
    ensures
        Status::MethodNotAllowed.wire().len() > 4,
        crlf_free(Status::MethodNotAllowed.wire()),
        forall|i: int| 0 <= i < Status::MethodNotAllowed.wire().len() ==> #[trigger] Status::MethodNotAllowed.wire()[i] < 128,
        !is_ws(Status::MethodNotAllowed.wire()[0]),
        !is_ws(Status::MethodNotAllowed.wire().last()),
        trim(Status::MethodNotAllowed.wire()) == Status::MethodNotAllowed.wire(),
        find1(Status::MethodNotAllowed.wire(), SP) == Some(3int),
        Status::MethodNotAllowed.wire().subrange(0, 3) == Status::MethodNotAllowed.code(),
        Status::from_code_spec(Status::MethodNotAllowed.code()) == Some(Status::MethodNotAllowed),
{
    reveal_strlit("405 Method Not Allowed");
    vstd::string::is_ascii_spec_bytes("405 Method Not Allowed");
    let w = Status::MethodNotAllowed.wire();
    assert(w =~= seq![52u8, 48, 53, 32, 77, 101, 116, 104, 111, 100, 32, 78, 111, 116, 32, 65, 108, 108, 111, 119, 101, 100]);
    assert(byte_at(w, SP, 3));
    assert(forall|j: int| 0 <= j < 3 ==> !#[trigger] byte_at(w, SP, j));
    lemma_find1_eq(w, SP, 3);
    assert(w.subrange(0, 3) =~= Status::MethodNotAllowed.code());
    crate::wire::lemma_trim_noop(w);
}

proof fn status_props_iamateapot()
    ensures
        Status::IamATeapot.wire().len() > 4,
        crlf_free(Status::IamATeapot.wire()),
        forall|i: int| 0 <= i < Status::IamATeapot.wire().len() ==> #[trigger] Status::IamATeapot.wire()[i] < 128,
        !is_ws(Status::IamATeapot.wire()[0]),
        !is_ws(Status::IamATeapot.wire().last()),
        trim(Status::IamATeapot.wire()) == Status::IamATeapot.wire(),
        find1(Status::IamATeapot.wire(), SP) == Some(3int),
        Status::IamATeapot.wire().subrange(0, 3) == Status::IamATeapot.code(),
        Status::from_code_spec(Status::IamATeapot.code()) == Some(Status::IamATeapot),
{
    reveal_strlit("418 I'm a teapot");
    vstd::string::is_ascii_spec_bytes("418 I'm a teapot");
    let w = Status::IamATeapot.wire();
    assert(w =~= seq![52u8, 49, 56, 32, 73, 39, 109, 32, 97, 32, 116, 101, 97, 112, 111, 116]);
    assert(byte_at(w, SP, 3));
    assert(forall|j: int| 0 <= j < 3 ==> !#[trigger] byte_at(w, SP, j));
    lemma_find1_eq(w, SP, 3);
    assert(w.subrange(0, 3) =~= Status::IamATeapot.code());
    crate::wire::lemma_trim_noop(w);
}

proof fn status_props_internalservererror()
    ensures
        Status::InternalServerError.wire().len() > 4,
        crlf_free(Status::InternalServerError.wire()),
        forall|i: int| 0 <= i < Status::InternalServerError.wire().len() ==> #[trigger] Status::InternalServerError.wire()[i] < 128,
        !is_ws(Status::InternalServerError.wire()[0]),
        !is_ws(Status::InternalServerError.wire().last()),
        trim(Status::InternalServerError.wire()) == Status::InternalServerError.wire(),
        find1(Status::InternalServerError.wire(), SP) == Some(3int),
        Status::InternalServerError.wire().subrange(0, 3) == Status::InternalServerError.code(),
        Status::from_code_spec(Status::InternalServerError.code()) == Some(Status::InternalServerError),
{
    reveal_strlit("500 Internal Server Error");
    vstd::string::is_ascii_spec_bytes("500 Internal Server Error");
    let w = Status::InternalServerError.wire();
    assert(w =~= seq![53u8, 48, 48, 32, 73, 110, 116, 101, 114, 110, 97, 108, 32, 83, 101, 114, 118, 101, 114, 32, 69, 114, 114, 111, 114]);
    assert(byte_at(w, SP, 3));
    assert(forall|j: int| 0 <= j < 3 ==> !#[trigger] byte_at(w, SP, j));
    lemma_find1_eq(w, SP, 3);
    assert(w.subrange(0, 3) =~= Status::InternalServerError.code());
    crate::wire::lemma_trim_noop(w);
}

proof fn status_props_notimplemented()
    ensures
        Status::NotImplemented.wire().len() > 4,
        crlf_free(Status::NotImplemented.wire()),
        forall|i: int| 0 <= i < Status::NotImplemented.wire().len() ==> #[trigger] Status::NotImplemented.wire()[i] < 128,
        !is_ws(Status::NotImplemented.wire()[0]),
        !is_ws(Status::NotImplemented.wire().last()),
        trim(Status::NotImplemented.wire()) == Status::NotImplemented.wire(),
        find1(Status::NotImplemented.wire(), SP) == Some(3int),
        Status::NotImplemented.wire().subrange(0, 3) == Status::NotImplemented.code(),
        Status::from_code_spec(Status::NotImplemented.code()) == Some(Status::NotImplemented),
{
    reveal_strlit("501 Not Implemented");
    vstd::string::is_ascii_spec_bytes("501 Not Implemented");
    let w = Status::NotImplemented.wire();
    assert(w =~= seq![53u8, 48, 49, 32, 78, 111, 116, 32, 73, 109, 112, 108, 101, 109, 101, 110, 116, 101, 100]);
    assert(byte_at(w, SP, 3));
    assert(forall|j: int| 0 <= j < 3 ==> !#[trigger] byte_at(w, SP, j));
    lemma_find1_eq(w, SP, 3);
    assert(w.subrange(0, 3) =~= Status::NotImplemented.code());
    crate::wire::lemma_trim_noop(w);
}

proof fn status_props_serviceunavailable()
    ensures
        Status::ServiceUnavailable.wire().len() > 4,
        crlf_free(Status::ServiceUnavailable.wire()),
        forall|i: int| 0 <= i < Status::ServiceUnavailable.wire().len() ==> #[trigger] Status::ServiceUnavailable.wire()[i] < 128,
        !is_ws(Status::ServiceUnavailable.wire()[0]),
        !is_ws(Status::ServiceUnavailable.wire().last()),
        trim(Status::ServiceUnavailable.wire()) == Status::ServiceUnavailable.wire(),
        find1(Status::ServiceUnavailable.wire(), SP) == Some(3int),
        Status::ServiceUnavailable.wire().subrange(0, 3) == Status::ServiceUnavailable.code(),
        Status::from_code_spec(Status::ServiceUnavailable.code()) == Some(Status::ServiceUnavailable),
{
    reveal_strlit("503 Service Unavailable");
    vstd::string::is_ascii_spec_bytes("503 Service Unavailable");
    let w = Status::ServiceUnavailable.wire();
    assert(w =~= seq![53u8, 48, 51, 32, 83, 101, 114, 118, 105, 99, 101, 32, 85, 110, 97, 118, 97, 105, 108, 97, 98, 108, 101]);
    assert(byte_at(w, SP, 3));
    assert(forall|j: int| 0 <= j < 3 ==> !#[trigger] byte_at(w, SP, j));
    lemma_find1_eq(w, SP, 3);
    assert(w.subrange(0, 3) =~= Status::ServiceUnavailable.code());
    crate::wire::lemma_trim_noop(w);
}

proof fn status_props_httpversionnotsupported()
    ensures
        Status::HttpVersionNotSupported.wire().len() > 4,
        crlf_free(Status::HttpVersionNotSupported.wire()),
        forall|i: int| 0 <= i < Status::HttpVersionNotSupported.wire().len() ==> #[trigger] Status::HttpVersionNotSupported.wire()[i] < 128,
        !is_ws(Status::HttpVersionNotSupported.wire()[0]),
        !is_ws(Status::HttpVersionNotSupported.wire().last()),
        trim(Status::HttpVersionNotSupported.wire()) == Status::HttpVersionNotSupported.wire(),
        find1(Status::HttpVersionNotSupported.wire(), SP) == Some(3int),
        Status::HttpVersionNotSupported.wire().subrange(0, 3) == Status::HttpVersionNotSupported.code(),
        Status::from_code_spec(Status::HttpVersionNotSupported.code()) == Some(Status::HttpVersionNotSupported),
{
    reveal_strlit("505 HTTP Version Not Supported");
    vstd::string::is_ascii_spec_bytes("505 HTTP Version Not Supported");
    let w = Status::HttpVersionNotSupported.wire();
    assert(w =~= seq![53u8, 48, 53, 32, 72, 84, 84, 80, 32, 86, 101, 114, 115, 105, 111, 110, 32, 78, 111, 116, 32, 83, 117, 112, 112, 111, 114, 116, 101, 100]);
    assert(byte_at(w, SP, 3));
    assert(forall|j: int| 0 <= j < 3 ==> !#[trigger] byte_at(w, SP, j));
    lemma_find1_eq(w, SP, 3);
    assert(w.subrange(0, 3) =~= Status::HttpVersionNotSupported.code());
    crate::wire::lemma_trim_noop(w);
}

/// A status line starts with its three-digit code, a space, and a nonempty
/// reason phrase; it is ASCII, free of CR and LF, is unchanged by trimming,
/// and its code parses back to the status.
pub proof fn lemma_status_wire_props(st: Status)
    ensures
        st.wire().len() > 4,
        crlf_free(st.wire()),
        forall|i: int| 0 <= i < st.wire().len() ==> #[trigger] st.wire()[i] < 128,
        !is_ws(st.wire()[0]),
        !is_ws(st.wire().last()),
        trim(st.wire()) == st.wire(),
        find1(st.wire(), SP) == Some(3int),
        st.wire().subrange(0, 3) == st.code(),
        Status::from_code_spec(st.code()) == Some(st),
{
    match st {
        Status::Okay => status_props_okay(),
        Status::MultipleChoices => status_props_multiplechoices(),
        Status::BadRequest => status_props_badrequest(),
        Status::Unauthorized => status_props_unauthorized(),
        Status::Forbidden => status_props_forbidden(),
        Status::NotFound => status_props_notfound(),
        Status::MethodNotAllowed => status_props_methodnotallowed(),
        Status::IamATeapot => status_props_iamateapot(),
        Status::InternalServerError => status_props_internalservererror(),
        Status::NotImplemented => status_props_notimplemented(),
        Status::ServiceUnavailable => status_props_serviceunavailable(),
        Status::HttpVersionNotSupported => status_props_httpversionnotsupported(),
    }
}

} // verus!
