//! Parsing, building and serializing responses.
use crate::codec::{
    cl_key, header_line, lemma_ascii_valid_utf8, lemma_cl_key_props, lemma_crlf_free_cr_ok,
    lemma_hm_parse_round_trip, lemma_message_boundary, lemma_region_cr_ok,
    lemma_render_lines_ascii, lemma_render_lines_push, lemma_set_content_length,
    lemma_start_split, message_bytes, pairs_wire_ok, render_lines, set_content_length,
};
use crate::error::Error;
use crate::header_map::{distinct_keys, hm_get, hm_parse, HeaderMap, SpecPair};
use crate::status::{lemma_status_wire_props, Status};
use crate::utf8check::is_utf8;
use crate::version::{lemma_version_wire_props, Version};
use crate::wire::{
    all_ascii, all_digits, byte_at, copy_range, crlf_free, dec_render, dec_val, find1, find2,
    find_boundary, is_digit, lemma_dec_bytes_val, lemma_find1_eq, parse_dec, push_bytes, scan1,
    scan2, scan_boundary, trim, trim_bounds, COLON, CR, D0, LF, SP,
};
use vstd::prelude::*;
use vstd::slice::{slice_subrange, slice_to_vec};
use vstd::utf8::valid_utf8;

verus! {

/// The mathematical content of a response.  The body is optionally absent,
/// which the parser distinguishes from empty: a response with no (or a
/// zero) `Content-Length` has no body.
#[verifier::ext_equal]
pub struct RespModel {
    /// The protocol version.
    pub version: Version,
    /// The response status.
    pub status: Status,
    /// The header entries, in order, with unique names.
    pub headers: Seq<SpecPair>,
    /// The body bytes, absent when `Content-Length` is zero or missing.
    pub body: Option<Seq<u8>>,
}

/// The staged state of a response builder: an optional version (the
/// default is applied at `finish`), a status, headers and an optional body.
#[verifier::ext_equal]
pub struct RespBuilderModel {
    /// The version, if one was set.
    pub version: Option<Version>,
    /// The response status.
    pub status: Status,
    /// The header entries accumulated so far.
    pub headers: Seq<SpecPair>,
    /// The body, if one was set.
    pub body: Option<Seq<u8>>,
}

/// The length `finish` derives the `Content-Length` header from.
pub open spec fn resp_body_len(body: Option<Seq<u8>>) -> int {
    match body {
        Some(b) => b.len() as int,
        None => 0,
    }
}

/// What `finish` makes of the accumulated state: the default version when
/// none was set, and `Content-Length` set to the body's exact length or
/// removed when the body is absent or empty (never emitted as `0`).
pub open spec fn resp_finish_model(b: RespBuilderModel) -> RespModel {
    RespModel {
        version: match b.version {
            Some(v) => v,
            None => Version::Http1,
        },
        status: b.status,
        headers: set_content_length(b.headers, resp_body_len(b.body)),
        body: b.body,
    }
}

/// The start line of a response: version and status line separated by a
/// single space.
pub open spec fn response_start_line(m: RespModel) -> Seq<u8> {
    m.version.wire() + seq![SP] + m.status.wire()
}

/// The body bytes a response puts on the wire: none when the body is
/// absent.
pub open spec fn resp_body_bytes(m: RespModel) -> Seq<u8> {
    match m.body {
        Some(b) => b,
        None => Seq::empty(),
    }
}

/// The full wire form of a response.
pub open spec fn response_bytes(m: RespModel) -> Seq<u8> {
    message_bytes(response_start_line(m), m.headers, resp_body_bytes(m))
}

/// What parsing a response buffer yields, step for step: find the
/// blank-line boundary, decode the header region as UTF-8, split the start
/// line at its first space into a version token and a status line, match
/// the status line's numeric code, build the header collection, then take
/// as many body bytes as `Content-Length` declares (no body when it
/// declares none).
pub open spec fn parse_response_spec(buf: Seq<u8>) -> Result<RespModel, Error> {
    match find_boundary(buf) {
        None => Err(Error::NotEnoughData),
        Some(b) => if !valid_utf8(buf.subrange(0, b + 4)) {
            Err(Error::InvalidUtf8)
        } else {
            let hr = buf.subrange(0, b);
            let start = match find2(hr, CR, LF) {
                None => hr,
                Some(i) => hr.subrange(0, i),
            };
            let block = match find2(hr, CR, LF) {
                None => Seq::<u8>::empty(),
                Some(i) => hr.subrange(i + 2, hr.len() as int),
            };
            match find1(start, SP) {
                None => Err(Error::InvalidHeader),
                Some(sp) => {
                    let vtok = trim(start.subrange(0, sp));
                    let stext = trim(start.subrange(sp + 1, start.len() as int));
                    match Version::from_wire_spec(vtok) {
                        None => Err(Error::InvalidHeader),
                        Some(v) => match find1(stext, SP) {
                            None => Err(Error::InvalidHeader),
                            Some(sp2) => match Status::from_code_spec(stext.subrange(0, sp2)) {
                                None => Err(Error::InvalidHeader),
                                Some(st) => match hm_parse(block) {
                                    None => Err(Error::InvalidHeader),
                                    Some(pairs) => {
                                        let clv = match hm_get(pairs, cl_key()) {
                                            None => seq![D0],
                                            Some(val) => val,
                                        };
                                        match parse_dec(clv) {
                                            None => Err(Error::InvalidHeader),
                                            Some(n) => if buf.len() - (b + 4) < n {
                                                Err(Error::NotEnoughData)
                                            } else {
                                                Ok(
                                                    RespModel {
                                                        version: v,
                                                        status: st,
                                                        headers: pairs,
                                                        body: if n > 0 {
                                                            Some(buf.subrange(b + 4, b + 4 + n))
                                                        } else {
                                                            None
                                                        },
                                                    },
                                                )
                                            },
                                        }
                                    },
                                },
                            },
                        },
                    }
                },
            }
        },
    }
}

/// A response: a status line, headers and an optional body.  All fields
/// are owned.
#[derive(Debug, PartialEq, Eq, Clone)]
pub struct Response {
    version: Version,
    status: Status,
    header: HeaderMap,
    body: Option<Vec<u8>>,
}

impl View for Response {
    type V = RespModel;

    closed spec fn view(&self) -> RespModel {
        RespModel {
            version: self.version,
            status: self.status,
            headers: self.header@,
            body: match self.body {
                Some(ref b) => Some(b@),
                None => None,
            },
        }
    }
}

/// A builder that accumulates a response and is consumed once by `finish`
/// to produce it.  The builder never fails: every required field has a
/// default.
#[derive(Debug, PartialEq, Eq, Clone)]
pub struct ResponseBuilder {
    version: Option<Version>,
    status: Status,
    header: HeaderMap,
    body: Option<Vec<u8>>,
}

impl View for ResponseBuilder {
    type V = RespBuilderModel;

    closed spec fn view(&self) -> RespBuilderModel {
        RespBuilderModel {
            version: self.version,
            status: self.status,
            headers: self.header@,
            body: match self.body {
                Some(ref b) => Some(b@),
                None => None,
            },
        }
    }
}

impl ResponseBuilder {
    /// The builder's invariant: header names are unique.
    pub open spec fn wf(self) -> bool {
        distinct_keys(self@.headers)
    }

    /// A fresh builder for the given status: no version, no headers, no
    /// body.
    pub fn new(status: Status) -> (r: ResponseBuilder)
        ensures
            r@ == (RespBuilderModel {
                version: None,
                status,
                headers: Seq::<SpecPair>::empty(),
                body: None,
            }),
            r.wf(),
    {
        let r = ResponseBuilder { version: None, status, header: HeaderMap::empty(), body: None };
        proof {
            assert(r@ =~= (RespBuilderModel {
                version: None,
                status,
                headers: Seq::<SpecPair>::empty(),
                body: None,
            }));
        }
        r
    }

    /// Set the version of the response being built.
    pub fn version(self, version: Version) -> (r: ResponseBuilder)
        ensures
            r@ == (RespBuilderModel { version: Some(version), ..self@ }),
            self.wf() ==> r.wf(),
    {
        ResponseBuilder { version: Some(version), ..self }
    }

    /// Assign a header of the response being built; assigning the same
    /// name again keeps only the latest value.
    pub fn header(self, key: Vec<u8>, value: Vec<u8>) -> (r: ResponseBuilder)
        ensures
            r@ == (RespBuilderModel {
                headers: crate::header_map::hm_insert(self@.headers, key@, value@),
                ..self@
            }),
            self.wf() ==> r.wf(),
    {
        let mut this = self;
        this.header.insert(key, value);
        this
    }

    /// Set the body of the response being built.
    pub fn body(self, body: Vec<u8>) -> (r: ResponseBuilder)
        ensures
            r@ == (RespBuilderModel { body: Some(body@), ..self@ }),
            self.wf() ==> r.wf(),
    {
        ResponseBuilder { body: Some(body), ..self }
    }

    /// Consume the builder into a response: the default version is applied
    /// when none was set, and `Content-Length` is set to the body's exact
    /// length, or removed entirely when the body is absent or empty (it is
    /// never emitted as `0`).  `finish` has no error path.
    pub fn finish(self) -> (r: Response)
        ensures
            r@ == resp_finish_model(self@),
            self.wf() ==> r.wf(),
    {
        let ghost m0 = self@;
        let mut this = self;
        let version = match this.version {
            Some(v) => v,
            None => Version::default(),
        };
        let body_len = match this.body {
            Some(ref b) => b.len(),
            None => 0,
        };
        if body_len == 0 {
            this.header.remove("Content-Length".as_bytes());
        } else {
            let name = slice_to_vec("Content-Length".as_bytes());
            let value = dec_render(body_len);
            this.header.insert(name, value);
        }
        let r = Response { version, status: this.status, header: this.header, body: this.body };
        proof {
            assert(r@ =~= resp_finish_model(m0));
        }
        r
    }
}

impl Response {
    /// The response's invariant: header names are unique.
    pub open spec fn wf(self) -> bool {
        distinct_keys(self@.headers)
    }

    /// The protocol version.
    pub fn version(&self) -> (r: Version)
        ensures
            r == self@.version,
    {
        self.version
    }

    /// The response status.
    pub fn status(&self) -> (r: Status)
        ensures
            r == self@.status,
    {
        self.status
    }

    /// The header collection.
    pub fn header(&self) -> (r: &HeaderMap)
        ensures
            r@ == self@.headers,
    {
        &self.header
    }

    /// The body, absent when the message declared none.
    pub fn body(&self) -> (r: &Option<Vec<u8>>)
        ensures
            match r {
                Some(b) => self@.body == Some(b@),
                None => self@.body is None,
            },
    {
        &self.body
    }

    /// A new builder for a response with the given status; the same as
    /// `ResponseBuilder::new(status)`.
    pub fn builder(status: Status) -> (r: ResponseBuilder)
        ensures
            r@ == (RespBuilderModel {
                version: None,
                status,
                headers: Seq::<SpecPair>::empty(),
                body: None,
            }),
            r.wf(),
    {
        ResponseBuilder::new(status)
    }

    /// A new builder for a `200 OK` response.
    pub fn ok() -> (r: ResponseBuilder)
        ensures
            r@ == (RespBuilderModel {
                version: None,
                status: Status::Okay,
                headers: Seq::<SpecPair>::empty(),
                body: None,
            }),
            r.wf(),
    {
        Self::builder(Status::Okay)
    }

    /// A new builder for a `400 Bad Request` response.
    pub fn bad_request() -> (r: ResponseBuilder)
        ensures
            r@ == (RespBuilderModel {
                version: None,
                status: Status::BadRequest,
                headers: Seq::<SpecPair>::empty(),
                body: None,
            }),
            r.wf(),
    {
        Self::builder(Status::BadRequest)
    }

    /// A new builder for a `401 Unauthorized` response.
    pub fn unauthorized() -> (r: ResponseBuilder)
        ensures
            r@ == (RespBuilderModel {
                version: None,
                status: Status::Unauthorized,
                headers: Seq::<SpecPair>::empty(),
                body: None,
            }),
            r.wf(),
    {
        Self::builder(Status::Unauthorized)
    }

    /// A new builder for a `403 Forbidden` response.
    pub fn forbidden() -> (r: ResponseBuilder)
        ensures
            r@ == (RespBuilderModel {
                version: None,
                status: Status::Forbidden,
                headers: Seq::<SpecPair>::empty(),
                body: None,
            }),
            r.wf(),
    {
        Self::builder(Status::Forbidden)
    }

    /// A new builder for a `404 Not Found` response.
    pub fn not_found() -> (r: ResponseBuilder)
        ensures
            r@ == (RespBuilderModel {
                version: None,
                status: Status::NotFound,
                headers: Seq::<SpecPair>::empty(),
                body: None,
            }),
            r.wf(),
    {
        Self::builder(Status::NotFound)
    }

    /// A new builder for a `405 Method Not Allowed` response.
    pub fn method_not_allowed() -> (r: ResponseBuilder)
        ensures
            r@ == (RespBuilderModel {
                version: None,
                status: Status::MethodNotAllowed,
                headers: Seq::<SpecPair>::empty(),
                body: None,
            }),
            r.wf(),
    {
        Self::builder(Status::MethodNotAllowed)
    }

    /// A new builder for a `500 Internal Server Error` response.
    pub fn internal_server_error() -> (r: ResponseBuilder)
        ensures
            r@ == (RespBuilderModel {
                version: None,
                status: Status::InternalServerError,
                headers: Seq::<SpecPair>::empty(),
                body: None,
            }),
            r.wf(),
    {
        Self::builder(Status::InternalServerError)
    }

    /// Parse a response from a raw buffer.
    ///
    /// Errors:
    /// - `NotEnoughData` when the buffer holds no blank-line boundary yet,
    ///   or fewer body bytes than `Content-Length` declares: read more
    ///   bytes and parse again.
    /// - `InvalidUtf8` when the header region is not valid UTF-8.
    /// - `InvalidHeader` when the start line has no space, the version
    ///   token or the status line's numeric code is unrecognized, a header
    ///   line lacks the `: ` delimiter, or `Content-Length` does not parse
    ///   as a non-negative integer.
    pub fn from_bytes(buf: &[u8]) -> (r: Result<Response, Error>)
        ensures
            match (r, parse_response_spec(buf@)) {
                (Ok(resp), Ok(m)) => resp@ == m && resp.wf(),
                (Err(e), Err(em)) => e == em,
                _ => false,
            },
    {
        let buf_len = buf.len();
        let b = match scan_boundary(buf) {
            None => {
                return Err(Error::NotEnoughData);
            },
            Some(b) => b,
        };
        if !is_utf8(slice_subrange(buf, 0, b + 4)) {
            return Err(Error::InvalidUtf8);
        }
        let hr = slice_subrange(buf, 0, b);
        let ghost hrs = buf@.subrange(0, b as int);
        let start_end: usize = match scan2(hr, CR, LF) {
            None => b,
            Some(i) => i,
        };
        let block_lo: usize = if start_end == b {
            b
        } else {
            start_end + 2
        };
        let start_slice = slice_subrange(buf, 0, start_end);
        let block_slice = slice_subrange(buf, block_lo, b);
        let ghost start = match find2(hrs, CR, LF) {
            None => hrs,
            Some(i) => hrs.subrange(0, i),
        };
        let ghost block = match find2(hrs, CR, LF) {
            None => Seq::<u8>::empty(),
            Some(i) => hrs.subrange(i + 2, hrs.len() as int),
        };
        proof {
            crate::wire::lemma_find2_props(hrs, CR, LF);
            assert(start_slice@ =~= start);
            assert(block_slice@ =~= block);
        }
        let sp = match scan1(start_slice, SP) {
            None => {
                return Err(Error::InvalidHeader);
            },
            Some(i) => i,
        };
        let vraw = slice_subrange(start_slice, 0, sp);
        let (vlo, vhi) = trim_bounds(vraw);
        let vtok = slice_subrange(vraw, vlo, vhi);
        proof {
            assert(vraw@ =~= start.subrange(0, sp as int));
            assert(vtok@ == trim(start.subrange(0, sp as int)));
        }
        let version = match Version::from_wire(vtok) {
            Ok(v) => v,
            Err(e) => {
                return Err(e);
            },
        };
        let sraw = slice_subrange(start_slice, sp + 1, start_slice.len());
        let (slo, shi) = trim_bounds(sraw);
        let stext = slice_subrange(sraw, slo, shi);
        proof {
            assert(sraw@ =~= start.subrange(sp as int + 1, start.len() as int));
            assert(stext@ == trim(start.subrange(sp as int + 1, start.len() as int)));
        }
        let sp2 = match scan1(stext, SP) {
            None => {
                return Err(Error::InvalidHeader);
            },
            Some(i) => i,
        };
        let code = slice_subrange(stext, 0, sp2);
        let status = match Status::from_code(code) {
            Ok(st) => st,
            Err(e) => {
                return Err(e);
            },
        };
        let header = match HeaderMap::new(block_slice) {
            Ok(h) => h,
            Err(e) => {
                return Err(e);
            },
        };
        let content_len = match header.get("Content-Length".as_bytes()) {
            None => {
                let ghost clv = seq![D0];
                proof {
                    assert(clv.drop_last() =~= Seq::<u8>::empty());
                    assert(is_digit(clv[0]));
                    assert(all_digits(clv));
                    assert(clv.last() == D0);
                    assert(dec_val(clv) == dec_val(clv.drop_last()) * 10 + (clv.last() - D0));
                    assert(parse_dec(clv) == Some(0int));
                }
                0
            },
            Some(v) => match crate::wire::parse_dec_exec(v.as_slice()) {
                None => {
                    return Err(Error::InvalidHeader);
                },
                Some(n) => n,
            },
        };
        if buf.len() - (b + 4) < content_len {
            return Err(Error::NotEnoughData);
        }
        let body = if content_len > 0 {
            Some(copy_range(buf, b + 4, b + 4 + content_len))
        } else {
            None
        };
        let resp = Response { version, status, header, body };
        proof {
            assert(resp@ =~= parse_response_spec(buf@)->Ok_0);
        }
        Ok(resp)
    }

    /// Serialize the response to wire bytes: the start line, each header
    /// line in iteration order, the blank line, then the body bytes (none
    /// when the body is absent).
    pub fn to_bytes(&self) -> (r: Vec<u8>)
        ensures
            r@ == response_bytes(self@),
    {
        let ghost m = self@;
        let mut buf: Vec<u8> = Vec::new();
        push_bytes(&mut buf, self.version.to_static().as_bytes());
        buf.push(SP);
        push_bytes(&mut buf, self.status.to_static_str().as_bytes());
        let ghost start = response_start_line(m);
        proof {
            assert(buf@ =~= start);
        }
        let n = self.header.len();
        let mut i: usize = 0;
        proof {
            assert(m.headers.subrange(0, 0) =~= Seq::<SpecPair>::empty());
            assert(buf@ =~= start + render_lines(m.headers.subrange(0, 0)));
        }
        while i < n
            invariant
                i <= n,
                n == self.header@.len(),
                self.header@ == m.headers,
                buf@ == start + render_lines(m.headers.subrange(0, i as int)),
            decreases n - i,
        {
            let ghost pre = m.headers.subrange(0, i as int);
            let pair = self.header.entry_at(i);
            buf.push(CR);
            buf.push(LF);
            push_bytes(&mut buf, pair.0.as_slice());
            buf.push(COLON);
            buf.push(SP);
            push_bytes(&mut buf, pair.1.as_slice());
            proof {
                lemma_render_lines_push(pre, m.headers[i as int]);
                assert(m.headers.subrange(0, i as int + 1) =~= pre.push(m.headers[i as int]));
                assert(header_line(m.headers[i as int]) =~= pair.0@ + seq![COLON, SP] + pair.1@);
                assert(buf@ =~= start + render_lines(m.headers.subrange(0, i as int + 1)));
            }
            i = i + 1;
        }
        proof {
            assert(m.headers.subrange(0, n as int) =~= m.headers);
        }
        buf.push(CR);
        buf.push(LF);
        buf.push(CR);
        buf.push(LF);
        match &self.body {
            Some(body) => {
                push_bytes(&mut buf, body.as_slice());
            },
            None => {
            },
        }
        proof {
            assert(buf@ =~= message_bytes(start, m.headers, resp_body_bytes(m)));
        }
        buf
    }
}

/// Round trip: any response a builder can produce serializes to bytes that
/// parse back to exactly that response, provided its headers are wire-safe
/// and its body, when present, is nonempty (a present-but-empty body
/// serializes identically to an absent one, so only its presence bit would
/// be lost).
#[verifier::rlimit(100)]
pub proof fn lemma_response_round_trip(b: RespBuilderModel)
    requires
        pairs_wire_ok(b.headers),
        match b.body {
            Some(bd) => bd.len() > 0 && bd.len() <= usize::MAX,
            None => true,
        },
    ensures
        parse_response_spec(response_bytes(resp_finish_model(b))) == Ok::<
            RespModel,
            Error,
        >(resp_finish_model(b)),
{
    let fm = resp_finish_model(b);
    let blen = resp_body_len(b.body);
    lemma_set_content_length(b.headers, blen);
    lemma_version_wire_props(fm.version);
    lemma_status_wire_props(fm.status);
    lemma_cl_key_props();
    let vw = fm.version.wire();
    let sw = fm.status.wire();
    let start = response_start_line(fm);
    assert(start.len() > 0);
    assert forall|i: int| 0 <= i < start.len() implies (#[trigger] start[i]) != CR && start[i]
        != LF && start[i] < 128 by {
        if i < vw.len() {
            assert(start[i] == vw[i]);
        } else if i == vw.len() {
            assert(start[i] == SP);
        } else {
            assert(start[i] == sw[i - vw.len() - 1]);
        }
    }
    assert(crlf_free(start));
    assert(all_ascii(start));
    lemma_crlf_free_cr_ok(start);
    lemma_region_cr_ok(start, fm.headers);
    let s = response_bytes(fm);
    lemma_message_boundary(start, fm.headers, resp_body_bytes(fm));
    let region = start + render_lines(fm.headers);
    let bpos = region.len() as int;
    lemma_render_lines_ascii(fm.headers);
    assert(all_ascii(s.subrange(0, bpos + 4))) by {
        let hr4 = s.subrange(0, bpos + 4);
        assert forall|i: int| 0 <= i < hr4.len() implies (#[trigger] hr4[i]) < 128 by {
            if i < start.len() {
                assert(hr4[i] == start[i]);
            } else if i < bpos {
                assert(hr4[i] == render_lines(fm.headers)[i - start.len()]);
            } else {
                assert(hr4[i] == CR || hr4[i] == LF);
            }
        }
    }
    lemma_ascii_valid_utf8(s.subrange(0, bpos + 4));
    assert(s.subrange(0, bpos) =~= region);
    lemma_start_split(start, fm.headers);
    // The start line splits at its first space: the version token has no
    // space, and one follows it.
    assert(byte_at(start, SP, vw.len() as int));
    assert(forall|j: int| 0 <= j < vw.len() ==> start[j] == vw[j]);
    assert(forall|j: int| 0 <= j < vw.len() ==> !#[trigger] byte_at(start, SP, j));
    lemma_find1_eq(start, SP, vw.len() as int);
    assert(start.subrange(0, vw.len() as int) =~= vw);
    crate::wire::lemma_trim_noop(vw);
    assert(start.subrange(vw.len() as int + 1, start.len() as int) =~= sw);
    // The trimmed status line splits at its first space into the numeric
    // code and the reason phrase.
    lemma_hm_parse_round_trip(fm.headers);
    if blen > 0 {
        lemma_dec_bytes_val(blen);
        assert(parse_dec(crate::wire::dec_bytes(blen)) == Some(blen));
    } else {
        let clv = seq![D0];
        assert(clv.drop_last() =~= Seq::<u8>::empty());
        assert(is_digit(clv[0]));
        assert(all_digits(clv));
        assert(clv.last() == D0);
        assert(dec_val(clv) == dec_val(clv.drop_last()) * 10 + (clv.last() - D0));
        assert(parse_dec(clv) == Some(0int));
    }
    assert(s.len() - (bpos + 4) == resp_body_bytes(fm).len());
    assert(s.subrange(bpos + 4, bpos + 4 + blen) =~= resp_body_bytes(fm));
    assert(parse_response_spec(s) == Ok::<RespModel, Error>(fm)) by {
        match parse_response_spec(s) {
            Ok(p) => {
                assert(p =~= fm);
            },
            Err(_) => {
            },
        }
    }
}


/// Re-parsing is deterministic in the accumulated bytes alone: two buffers
/// that chunk the same total byte sequence differently parse identically.
pub proof fn lemma_parse_response_chunked(a: Seq<u8>, b: Seq<u8>, c: Seq<u8>, d: Seq<u8>)
    requires
        a + b == c + d,
    ensures
        parse_response_spec(a + b) == parse_response_spec(c + d),
{
}

/// Content-Length governance of a finished response: a body of `n` bytes
/// yields a message whose headers carry exactly `Content-Length: n`, and
/// whose serialized form embeds that header line, when `n > 0`; when the
/// body is absent or empty the finished headers carry no `Content-Length`
/// entry at all.
pub proof fn lemma_response_content_length(b: RespBuilderModel)
    requires
        distinct_keys(b.headers),
    ensures
        resp_body_len(b.body) == 0 ==> hm_get(resp_finish_model(b).headers, cl_key()) is None,
        resp_body_len(b.body) > 0 ==> hm_get(resp_finish_model(b).headers, cl_key()) == Some(
            crate::wire::dec_bytes(resp_body_len(b.body)),
        ),
        resp_body_len(b.body) > 0 ==> exists|off: int|
            0 <= off && off + 2 + header_line(
                (cl_key(), crate::wire::dec_bytes(resp_body_len(b.body))),
            ).len() <= response_bytes(resp_finish_model(b)).len()
                && #[trigger] response_bytes(resp_finish_model(b)).subrange(
                off,
                off + 2 + header_line(
                    (cl_key(), crate::wire::dec_bytes(resp_body_len(b.body))),
                ).len() as int,
            ) == seq![CR, LF] + header_line(
                (cl_key(), crate::wire::dec_bytes(resp_body_len(b.body))),
            ),
{
    let blen = resp_body_len(b.body);
    let fm = resp_finish_model(b);
    if blen == 0 {
        crate::header_map::lemma_hm_remove_distinct(b.headers, cl_key());
    } else {
        let value = crate::wire::dec_bytes(blen);
        crate::header_map::lemma_hm_insert_distinct(b.headers, cl_key(), value);
        crate::header_map::lemma_hm_find_props(b.headers, cl_key());
        let k: int = match crate::header_map::hm_find(b.headers, cl_key()) {
            Some(i) => i,
            None => b.headers.len() as int,
        };
        assert(fm.headers[k] == (cl_key(), value));
        let off = crate::codec::lemma_message_embeds_header(
            response_start_line(fm),
            fm.headers,
            resp_body_bytes(fm),
            k,
        );
        let line = header_line((cl_key(), value));
        assert(response_bytes(fm).subrange(off, off + 2 + line.len() as int) == seq![CR, LF]
            + line);
    }
}

} // verus!
