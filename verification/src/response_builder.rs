//! Staged construction of a response serialized directly to wire bytes.
//!
//! Unlike [`crate::response::ResponseBuilder`], whose terminal operation
//! produces a structured [`crate::response::Response`], this builder's
//! `finish` renders the accumulated state straight to bytes.  Its body is a
//! plain byte buffer: an empty buffer means "no body" and removes the
//! `Content-Length` header.
use crate::codec::{message_bytes, pairs_wire_ok, render_lines, set_content_length};
use crate::error::Error;
use crate::header_map::{distinct_keys, HeaderMap, SpecPair};
use crate::response::{
    lemma_response_round_trip, parse_response_spec, resp_finish_model, RespBuilderModel, RespModel,
};
use crate::status::Status;
use crate::version::Version;
use crate::wire::{dec_render, push_bytes, COLON, CR, LF, SP};
use vstd::prelude::*;
use vstd::slice::slice_to_vec;

verus! {

/// The staged state of a byte-producing response builder.
#[verifier::ext_equal]
pub struct RawRespModel {
    /// The protocol version; `finish` renders it as accumulated.
    pub version: Version,
    /// The response status.
    pub status: Status,
    /// The header entries accumulated so far.
    pub headers: Seq<SpecPair>,
    /// The body bytes; empty means no body.
    pub body: Seq<u8>,
}

/// The bytes `finish` renders: the start line, the headers with
/// `Content-Length` set to the body's exact length (or removed when the
/// body is empty), the blank line, then the body.
pub open spec fn raw_response_bytes(m: RawRespModel) -> Seq<u8> {
    message_bytes(
        m.version.wire() + seq![SP] + m.status.wire(),
        set_content_length(m.headers, m.body.len() as int),
        m.body,
    )
}

/// A staged response serialized by its terminal operation: fluent state
/// with a version (defaulted to HTTP/1.1), a status, headers and a body
/// buffer, consumed exactly once by `finish`.
#[derive(Debug, PartialEq, Eq, Clone)]
pub struct ResponseBuilder {
    version: Version,
    status: Status,
    header: HeaderMap,
    body: Vec<u8>,
}

impl View for ResponseBuilder {
    type V = RawRespModel;

    closed spec fn view(&self) -> RawRespModel {
        RawRespModel {
            version: self.version,
            status: self.status,
            headers: self.header@,
            body: self.body@,
        }
    }
}

impl ResponseBuilder {
    /// The builder's invariant: header names are unique.
    pub open spec fn wf(self) -> bool {
        distinct_keys(self@.headers)
    }

    /// A fresh builder for the given status: the default version, no
    /// headers, an empty body.
    pub fn new(status: Status) -> (r: ResponseBuilder)
        ensures
            r@ == (RawRespModel {
                version: Version::Http1,
                status,
                headers: Seq::<SpecPair>::empty(),
                body: Seq::<u8>::empty(),
            }),
            r.wf(),
    {
        let r = ResponseBuilder {
            version: Version::default(),
            status,
            header: HeaderMap::empty(),
            body: Vec::new(),
        };
        proof {
            assert(r@ =~= (RawRespModel {
                version: Version::Http1,
                status,
                headers: Seq::<SpecPair>::empty(),
                body: Seq::<u8>::empty(),
            }));
        }
        r
    }

    /// A fresh builder for a `200 OK` response.
    pub fn ok() -> (r: ResponseBuilder)
        ensures
            r@ == (RawRespModel {
                version: Version::Http1,
                status: Status::Okay,
                headers: Seq::<SpecPair>::empty(),
                body: Seq::<u8>::empty(),
            }),
            r.wf(),
    {
        Self::new(Status::Okay)
    }

    /// A fresh builder for a `400 Bad Request` response.
    pub fn bad_request() -> (r: ResponseBuilder)
        ensures
            r@ == (RawRespModel {
                version: Version::Http1,
                status: Status::BadRequest,
                headers: Seq::<SpecPair>::empty(),
                body: Seq::<u8>::empty(),
            }),
            r.wf(),
    {
        Self::new(Status::BadRequest)
    }

    /// A fresh builder for a `401 Unauthorized` response.
    pub fn unauthorized() -> (r: ResponseBuilder)
        ensures
            r@ == (RawRespModel {
                version: Version::Http1,
                status: Status::Unauthorized,
                headers: Seq::<SpecPair>::empty(),
                body: Seq::<u8>::empty(),
            }),
            r.wf(),
    {
        Self::new(Status::Unauthorized)
    }

    /// A fresh builder for a `403 Forbidden` response.
    pub fn forbidden() -> (r: ResponseBuilder)
        ensures
            r@ == (RawRespModel {
                version: Version::Http1,
                status: Status::Forbidden,
                headers: Seq::<SpecPair>::empty(),
                body: Seq::<u8>::empty(),
            }),
            r.wf(),
    {
        Self::new(Status::Forbidden)
    }

    /// A fresh builder for a `404 Not Found` response.
    pub fn not_found() -> (r: ResponseBuilder)
        ensures
            r@ == (RawRespModel {
                version: Version::Http1,
                status: Status::NotFound,
                headers: Seq::<SpecPair>::empty(),
                body: Seq::<u8>::empty(),
            }),
            r.wf(),
    {
        Self::new(Status::NotFound)
    }

    /// A fresh builder for a `500 Internal Server Error` response.
    pub fn internal_server_error() -> (r: ResponseBuilder)
        ensures
            r@ == (RawRespModel {
                version: Version::Http1,
                status: Status::InternalServerError,
                headers: Seq::<SpecPair>::empty(),
                body: Seq::<u8>::empty(),
            }),
            r.wf(),
    {
        Self::new(Status::InternalServerError)
    }

    /// The accumulated headers.
    pub fn header(&self) -> (r: &HeaderMap)
        ensures
            r@ == self@.headers,
    {
        &self.header
    }

    /// Mutable access to the headers.
    pub fn header_mut(&mut self) -> (r: &mut HeaderMap)
        ensures
            (*r)@ == old(self)@.headers,
            final(self)@ == (RawRespModel { headers: (*final(r))@, ..old(self)@ }),
    {
        &mut self.header
    }

    /// The accumulated version.
    pub fn version(&self) -> (r: Version)
        ensures
            r == self@.version,
    {
        self.version
    }

    /// Mutable access to the version.
    pub fn version_mut(&mut self) -> (r: &mut Version)
        ensures
            *r == old(self)@.version,
            final(self)@ == (RawRespModel { version: *final(r), ..old(self)@ }),
    {
        &mut self.version
    }

    /// The accumulated status.
    pub fn status(&self) -> (r: Status)
        ensures
            r == self@.status,
    {
        self.status
    }

    /// Mutable access to the status.
    pub fn status_mut(&mut self) -> (r: &mut Status)
        ensures
            *r == old(self)@.status,
            final(self)@ == (RawRespModel { status: *final(r), ..old(self)@ }),
    {
        &mut self.status
    }

    /// The accumulated body.
    pub fn body(&self) -> (r: &Vec<u8>)
        ensures
            r@ == self@.body,
    {
        &self.body
    }

    /// Mutable access to the body.
    pub fn body_mut(&mut self) -> (r: &mut Vec<u8>)
        ensures
            (*r)@ == old(self)@.body,
            final(self)@ == (RawRespModel { body: (*final(r))@, ..old(self)@ }),
    {
        &mut self.body
    }

    /// Consume the builder and serialize the response: `Content-Length` is
    /// set to the body's exact byte length (removed entirely when the body
    /// is empty), then the start line, the header lines, the blank line and
    /// the body are rendered in order.  `finish` never fails.
    pub fn finish(self) -> (r: Vec<u8>)
        ensures
            r@ == raw_response_bytes(self@),
    {
        let ghost m0 = self@;
        let mut this = self;
        let body_len = this.body.len();
        if body_len == 0 {
            this.header.remove("Content-Length".as_bytes());
        } else {
            let name = slice_to_vec("Content-Length".as_bytes());
            let value = dec_render(body_len);
            this.header.insert(name, value);
        }
        let ghost hdrs = set_content_length(m0.headers, m0.body.len() as int);
        proof {
            assert(this.header@ == hdrs);
        }
        let mut buf: Vec<u8> = Vec::new();
        push_bytes(&mut buf, this.version.to_static().as_bytes());
        buf.push(SP);
        push_bytes(&mut buf, this.status.to_static_str().as_bytes());
        let ghost start = m0.version.wire() + seq![SP] + m0.status.wire();
        proof {
            assert(buf@ =~= start);
        }
        let n = this.header.len();
        let mut i: usize = 0;
        proof {
            assert(hdrs.subrange(0, 0) =~= Seq::<SpecPair>::empty());
            assert(buf@ =~= start + render_lines(hdrs.subrange(0, 0)));
        }
        while i < n
            invariant
                i <= n,
                n == this.header@.len(),
                this.header@ == hdrs,
                buf@ == start + render_lines(hdrs.subrange(0, i as int)),
            decreases n - i,
        {
            let ghost pre = hdrs.subrange(0, i as int);
            let pair = this.header.entry_at(i);
            buf.push(CR);
            buf.push(LF);
            push_bytes(&mut buf, pair.0.as_slice());
            buf.push(COLON);
            buf.push(SP);
            push_bytes(&mut buf, pair.1.as_slice());
            proof {
                crate::codec::lemma_render_lines_push(pre, hdrs[i as int]);
                assert(hdrs.subrange(0, i as int + 1) =~= pre.push(hdrs[i as int]));
                assert(crate::codec::header_line(hdrs[i as int]) =~= pair.0@ + seq![COLON, SP]
                    + pair.1@);
                assert(buf@ =~= start + render_lines(hdrs.subrange(0, i as int + 1)));
            }
            i = i + 1;
        }
        proof {
            assert(hdrs.subrange(0, n as int) =~= hdrs);
        }
        buf.push(CR);
        buf.push(LF);
        buf.push(CR);
        buf.push(LF);
        push_bytes(&mut buf, this.body.as_slice());
        proof {
            assert(buf@ =~= message_bytes(start, hdrs, m0.body));
        }
        buf
    }
}

/// Round trip for the byte-producing builder: its output parses back to
/// the response whose version, status and headers it accumulated, with the
/// body present exactly when it was nonempty.
pub proof fn lemma_raw_response_round_trip(m: RawRespModel)
    requires
        pairs_wire_ok(m.headers),
        m.body.len() <= usize::MAX,
    ensures
        parse_response_spec(raw_response_bytes(m)) == Ok::<RespModel, Error>(
            resp_finish_model(
                RespBuilderModel {
                    version: Some(m.version),
                    status: m.status,
                    headers: m.headers,
                    body: if m.body.len() > 0 {
                        Some(m.body)
                    } else {
                        None
                    },
                },
            ),
        ),
{
    let b = RespBuilderModel {
        version: Some(m.version),
        status: m.status,
        headers: m.headers,
        body: if m.body.len() > 0 {
            Some(m.body)
        } else {
            None
        },
    };
    lemma_response_round_trip(b);
    assert(raw_response_bytes(m) =~= crate::response::response_bytes(resp_finish_model(b)));
}

} // verus!
