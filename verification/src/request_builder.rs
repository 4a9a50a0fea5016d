//! Staged construction of a request and its serialization to wire bytes.
use crate::codec::{
    cl_key, lemma_ascii_valid_utf8, lemma_cl_key_props, lemma_crlf_free_cr_ok,
    lemma_hm_parse_round_trip, lemma_message_boundary, lemma_region_cr_ok,
    lemma_render_lines_ascii, lemma_render_lines_push, lemma_set_content_length,
    lemma_start_split, message_bytes, pairs_wire_ok, render_lines, set_content_length, uri_ok,
};
use crate::header_map::{distinct_keys, HeaderMap, SpecPair};
use crate::method::{lemma_method_wire_props, Method};
use crate::request::{parse_request_spec, ReqModel};
use crate::version::{lemma_version_wire_props, Version};
use crate::wire::{
    all_ascii, crlf_free, dec_render, is_ws, lemma_dec_bytes_val, push_bytes, COLON, CR, LF, SP,
};
use vstd::prelude::*;
use vstd::slice::slice_to_vec;

verus! {

/// The start line of a request: method, target and version, separated by
/// single spaces.
pub open spec fn request_start_line(m: ReqModel) -> Seq<u8> {
    m.method.wire() + seq![SP] + m.uri + seq![SP] + m.version.wire()
}

/// The full wire form of a request.
pub open spec fn request_bytes(m: ReqModel) -> Seq<u8> {
    message_bytes(request_start_line(m), m.headers, m.body)
}

/// What `finish` makes of the accumulated state: the same message with
/// `Content-Length` set to the body's exact length, or removed when the
/// body is empty.
pub open spec fn req_finish_model(m: ReqModel) -> ReqModel {
    ReqModel { headers: set_content_length(m.headers, m.body.len() as int), ..m }
}

/// A staged request: the same fields as a request, accumulated by fluent
/// setters and consumed exactly once by `finish`, which serializes them.
#[derive(Debug, PartialEq, Eq, Clone)]
pub struct RequestBuilder {
    method: Method,
    uri: Vec<u8>,
    version: Version,
    header: HeaderMap,
    body: Vec<u8>,
}

impl View for RequestBuilder {
    type V = ReqModel;

    closed spec fn view(&self) -> ReqModel {
        ReqModel {
            method: self.method,
            uri: self.uri@,
            version: self.version,
            headers: self.header@,
            body: self.body@,
        }
    }
}

impl RequestBuilder {
    /// The builder's invariant: header names are unique.
    pub open spec fn wf(self) -> bool {
        distinct_keys(self@.headers)
    }

    /// A fresh builder: the given method and target, the default version,
    /// no headers, an empty body.
    pub fn new(method: Method, uri: Vec<u8>) -> (r: RequestBuilder)
        ensures
            r@ == (ReqModel {
                method,
                uri: uri@,
                version: Version::Http1,
                headers: Seq::<SpecPair>::empty(),
                body: Seq::<u8>::empty(),
            }),
            r.wf(),
    {
        let r = RequestBuilder {
            method,
            uri,
            version: Version::default(),
            header: HeaderMap::empty(),
            body: Vec::new(),
        };
        proof {
            assert(r@ =~= (ReqModel {
                method,
                uri: r.uri@,
                version: Version::Http1,
                headers: Seq::<SpecPair>::empty(),
                body: Seq::<u8>::empty(),
            }));
        }
        r
    }

    /// A fresh GET builder.
    pub fn get(uri: Vec<u8>) -> (r: RequestBuilder)
        ensures
            r@ == (ReqModel {
                method: Method::Get,
                uri: uri@,
                version: Version::Http1,
                headers: Seq::<SpecPair>::empty(),
                body: Seq::<u8>::empty(),
            }),
            r.wf(),
    {
        Self::new(Method::Get, uri)
    }

    /// A fresh POST builder.
    pub fn post(uri: Vec<u8>) -> (r: RequestBuilder)
        ensures
            r@ == (ReqModel {
                method: Method::Post,
                uri: uri@,
                version: Version::Http1,
                headers: Seq::<SpecPair>::empty(),
                body: Seq::<u8>::empty(),
            }),
            r.wf(),
    {
        Self::new(Method::Post, uri)
    }

    /// A fresh PUT builder.
    pub fn put(uri: Vec<u8>) -> (r: RequestBuilder)
        ensures
            r@ == (ReqModel {
                method: Method::Put,
                uri: uri@,
                version: Version::Http1,
                headers: Seq::<SpecPair>::empty(),
                body: Seq::<u8>::empty(),
            }),
            r.wf(),
    {
        Self::new(Method::Put, uri)
    }

    /// A fresh DELETE builder.
    pub fn delete(uri: Vec<u8>) -> (r: RequestBuilder)
        ensures
            r@ == (ReqModel {
                method: Method::Delete,
                uri: uri@,
                version: Version::Http1,
                headers: Seq::<SpecPair>::empty(),
                body: Seq::<u8>::empty(),
            }),
            r.wf(),
    {
        Self::new(Method::Delete, uri)
    }

    /// The accumulated target.
    pub fn uri(&self) -> (r: &Vec<u8>)
        ensures
            r@ == self@.uri,
    {
        &self.uri
    }

    /// Mutable access to the target.
    pub fn uri_mut(&mut self) -> (r: &mut Vec<u8>)
        ensures
            (*r)@ == old(self)@.uri,
            final(self)@ == (ReqModel { uri: (*final(r))@, ..old(self)@ }),
    {
        &mut self.uri
    }

    /// The accumulated method.
    pub fn method(&self) -> (r: Method)
        ensures
            r == self@.method,
    {
        self.method
    }

    /// Mutable access to the method.
    pub fn method_mut(&mut self) -> (r: &mut Method)
        ensures
            *r == old(self)@.method,
            final(self)@ == (ReqModel { method: *final(r), ..old(self)@ }),
    {
        &mut self.method
    }

    /// The accumulated version.
    pub fn version(&self) -> (r: Version)
        ensures
            r == self@.version,
    {
        self.version
    }

    /// Mutable access to the version.
    pub fn version_mut(&mut self) -> (r: &mut Version)
        ensures
            *r == old(self)@.version,
            final(self)@ == (ReqModel { version: *final(r), ..old(self)@ }),
    {
        &mut self.version
    }

    /// The accumulated headers.
    pub fn header(&self) -> (r: &HeaderMap)
        ensures
            r@ == self@.headers,
    {
        &self.header
    }

    /// Mutable access to the headers.
    pub fn header_mut(&mut self) -> (r: &mut HeaderMap)
        ensures
            (*r)@ == old(self)@.headers,
            final(self)@ == (ReqModel { headers: (*final(r))@, ..old(self)@ }),
    {
        &mut self.header
    }

    /// The accumulated body.
    pub fn body(&self) -> (r: &Vec<u8>)
        ensures
            r@ == self@.body,
    {
        &self.body
    }

    /// Mutable access to the body.
    pub fn body_but(&mut self) -> (r: &mut Vec<u8>)
        ensures
            (*r)@ == old(self)@.body,
            final(self)@ == (ReqModel { body: (*final(r))@, ..old(self)@ }),
    {
        &mut self.body
    }

    /// Consume the builder and serialize the request: `Content-Length` is
    /// set to the body's exact byte length (removed entirely when the body
    /// is empty), then the start line, the header lines, the blank line and
    /// the body are rendered in order.  `finish` never fails.
    pub fn finish(self) -> (r: Vec<u8>)
        ensures
            r@ == request_bytes(req_finish_model(self@)),
    {
        let ghost m0 = self@;
        let mut this = self;
        let body_len = this.body.len();
        if body_len == 0 {
            this.header.remove("Content-Length".as_bytes());
        } else {
            let name = slice_to_vec("Content-Length".as_bytes());
            let value = dec_render(body_len);
            this.header.insert(name, value);
        }
        let ghost fm = req_finish_model(m0);
        proof {
            assert(this.header@ == fm.headers);
        }
        let mut buf: Vec<u8> = Vec::new();
        push_bytes(&mut buf, this.method.to_static_str().as_bytes());
        buf.push(SP);
        push_bytes(&mut buf, this.uri.as_slice());
        buf.push(SP);
        push_bytes(&mut buf, this.version.to_static().as_bytes());
        let ghost start = request_start_line(fm);
        proof {
            assert(buf@ =~= start);
        }
        let n = this.header.len();
        let mut i: usize = 0;
        proof {
            assert(fm.headers.subrange(0, 0) =~= Seq::<SpecPair>::empty());
            assert(buf@ =~= start + render_lines(fm.headers.subrange(0, 0)));
        }
        while i < n
            invariant
                i <= n,
                n == this.header@.len(),
                this.header@ == fm.headers,
                buf@ == start + render_lines(fm.headers.subrange(0, i as int)),
            decreases n - i,
        {
            let ghost pre = fm.headers.subrange(0, i as int);
            let pair = this.header.entry_at(i);
            buf.push(CR);
            buf.push(LF);
            push_bytes(&mut buf, pair.0.as_slice());
            buf.push(COLON);
            buf.push(SP);
            push_bytes(&mut buf, pair.1.as_slice());
            proof {
                lemma_render_lines_push(pre, fm.headers[i as int]);
                assert(fm.headers.subrange(0, i as int + 1) =~= pre.push(fm.headers[i as int]));
                assert(crate::codec::header_line(fm.headers[i as int]) =~= pair.0@ + seq![
                    COLON,
                    SP,
                ] + pair.1@);
                assert(buf@ =~= start + render_lines(fm.headers.subrange(0, i as int + 1)));
            }
            i = i + 1;
        }
        proof {
            assert(fm.headers.subrange(0, n as int) =~= fm.headers);
        }
        buf.push(CR);
        buf.push(LF);
        buf.push(CR);
        buf.push(LF);
        push_bytes(&mut buf, this.body.as_slice());
        proof {
            assert(buf@ =~= message_bytes(start, fm.headers, fm.body));
        }
        buf
    }
}

/// Round trip: any request a builder can serialize parses back to exactly
/// the message the builder finished, provided its target and headers are
/// wire-safe (nonempty, ASCII, free of the delimiter bytes the wire format
/// reserves, and values not ending in whitespace).
pub proof fn lemma_request_round_trip(m: ReqModel)
    requires
        uri_ok(m.uri),
        pairs_wire_ok(m.headers),
        m.body.len() <= usize::MAX,
    ensures
        parse_request_spec(request_bytes(req_finish_model(m))) == Ok::<ReqModel, crate::error::Error>(req_finish_model(m)),
{
    let fm = req_finish_model(m);
    let blen = m.body.len() as int;
    lemma_set_content_length(m.headers, blen);
    lemma_method_wire_props(m.method);
    lemma_version_wire_props(m.version);
    lemma_cl_key_props();
    let mw = m.method.wire();
    let vw = m.version.wire();
    let start = request_start_line(fm);
    assert(start.len() > 0);
    assert forall|i: int| 0 <= i < start.len() implies !is_ws(#[trigger] start[i]) || start[i]
        == SP by {
        if i < mw.len() {
            assert(start[i] == mw[i]);
        } else if i == mw.len() {
            assert(start[i] == SP);
        } else if i < mw.len() + 1 + m.uri.len() {
            assert(start[i] == m.uri[i - mw.len() - 1]);
        } else if i == mw.len() + 1 + m.uri.len() {
            assert(start[i] == SP);
        } else {
            assert(start[i] == vw[i - mw.len() - 2 - m.uri.len()]);
        }
    }
    assert(crlf_free(start));
    assert forall|i: int| 0 <= i < start.len() implies (#[trigger] start[i]) < 128 by {
        if i < mw.len() {
            assert(start[i] == mw[i]);
        } else if i == mw.len() {
            assert(start[i] == SP);
        } else if i < mw.len() + 1 + m.uri.len() {
            assert(start[i] == m.uri[i - mw.len() - 1]);
        } else if i == mw.len() + 1 + m.uri.len() {
            assert(start[i] == SP);
        } else {
            assert(start[i] == vw[i - mw.len() - 2 - m.uri.len()]);
        }
    }
    lemma_crlf_free_cr_ok(start);
    lemma_region_cr_ok(start, fm.headers);
    let s = request_bytes(fm);
    lemma_message_boundary(start, fm.headers, fm.body);
    let region = start + render_lines(fm.headers);
    let b = region.len() as int;
    // The header region and the boundary are ASCII, hence valid UTF-8.
    lemma_render_lines_ascii(fm.headers);
    assert(all_ascii(s.subrange(0, b + 4))) by {
        let hr4 = s.subrange(0, b + 4);
        assert forall|i: int| 0 <= i < hr4.len() implies (#[trigger] hr4[i]) < 128 by {
            if i < start.len() {
                assert(hr4[i] == start[i]);
            } else if i < b {
                assert(hr4[i] == render_lines(fm.headers)[i - start.len()]);
            } else {
                assert(hr4[i] == CR || hr4[i] == LF);
            }
        }
    }
    lemma_ascii_valid_utf8(s.subrange(0, b + 4));
    // The header region splits into the start line and the header block.
    assert(s.subrange(0, b) =~= region);
    lemma_start_split(start, fm.headers);
    // The start line tokenizes into exactly the three tokens.
    crate::wire::lemma_ws_tokens_three(mw, m.uri, vw);
    assert(mw + seq![SP] + m.uri + seq![SP] + vw =~= start);
    // The header block parses back to exactly the finished header list.
    lemma_hm_parse_round_trip(fm.headers);
    // Content-Length governance makes the declared length the body length.
    if blen > 0 {
        lemma_dec_bytes_val(blen);
        assert(crate::wire::parse_dec(crate::wire::dec_bytes(blen)) == Some(blen));
    } else {
        let ghost clv = seq![crate::wire::D0];
        assert(clv.drop_last() =~= Seq::<u8>::empty());
        assert(crate::wire::is_digit(clv[0]));
        assert(crate::wire::all_digits(clv));
        assert(clv.last() == crate::wire::D0);
        assert(crate::wire::dec_val(clv) == crate::wire::dec_val(clv.drop_last()) * 10 + (
        clv.last() - crate::wire::D0));
        assert(crate::wire::parse_dec(clv) == Some(0int));
    }
    // Exactly the body bytes follow the boundary.
    assert(s.len() - (b + 4) == fm.body.len());
    assert(s.subrange(b + 4, b + 4 + blen) =~= fm.body);
    assert(parse_request_spec(s) == Ok::<ReqModel, crate::error::Error>(fm)) by {
        match parse_request_spec(s) {
            Ok(p) => {
                assert(p =~= fm);
            },
            Err(_) => {
            },
        }
    }
}


/// Content-Length governance of a finished request: a body of `n` bytes
/// yields a message whose headers carry exactly `Content-Length: n`, and
/// whose serialized form embeds that header line, when `n > 0`; when
/// `n == 0` the finished headers carry no `Content-Length` entry at all.
pub proof fn lemma_request_content_length(m: ReqModel)
    requires
        distinct_keys(m.headers),
    ensures
        m.body.len() == 0 ==> crate::header_map::hm_get(req_finish_model(m).headers, cl_key())
            is None,
        m.body.len() > 0 ==> crate::header_map::hm_get(req_finish_model(m).headers, cl_key())
            == Some(crate::wire::dec_bytes(m.body.len() as int)),
        m.body.len() > 0 ==> exists|off: int|
            0 <= off && off + 2 + crate::codec::header_line(
                (cl_key(), crate::wire::dec_bytes(m.body.len() as int)),
            ).len() <= request_bytes(req_finish_model(m)).len()
                && #[trigger] request_bytes(req_finish_model(m)).subrange(
                off,
                off + 2 + crate::codec::header_line(
                    (cl_key(), crate::wire::dec_bytes(m.body.len() as int)),
                ).len() as int,
            ) == seq![CR, LF] + crate::codec::header_line(
                (cl_key(), crate::wire::dec_bytes(m.body.len() as int)),
            ),
{
    let blen = m.body.len() as int;
    let fmh = req_finish_model(m).headers;
    if m.body.len() == 0 {
        crate::header_map::lemma_hm_remove_distinct(m.headers, cl_key());
    } else {
        let value = crate::wire::dec_bytes(blen);
        crate::header_map::lemma_hm_insert_distinct(m.headers, cl_key(), value);
        // The entry stands somewhere in the finished list.
        crate::header_map::lemma_hm_find_props(m.headers, cl_key());
        let k: int = match crate::header_map::hm_find(m.headers, cl_key()) {
            Some(i) => i,
            None => m.headers.len() as int,
        };
        assert(fmh[k] == (cl_key(), value));
        let off = crate::codec::lemma_message_embeds_header(
            request_start_line(req_finish_model(m)),
            fmh,
            m.body,
            k,
        );
        let line = crate::codec::header_line((cl_key(), value));
        assert(request_bytes(req_finish_model(m)).subrange(off, off + 2 + line.len() as int)
            == seq![CR, LF] + line);
    }
}

} // verus!
