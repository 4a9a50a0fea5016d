//! Parsing a raw byte buffer into a structured request.
use crate::codec::cl_key;
use crate::error::Error;
use crate::header_map::{hm_get, hm_parse, HeaderMap, SpecPair};
use crate::method::Method;
use crate::utf8check::is_utf8;
use crate::version::Version;
use crate::wire::{
    all_digits, copy_range, dec_val, find2, find_boundary, is_digit, parse_dec, scan2,
    scan_boundary, tokenize_ws, ws_tokens, CR, D0, LF,
};
use vstd::prelude::*;
use vstd::slice::slice_subrange;
use vstd::utf8::valid_utf8;

verus! {

/// The mathematical content of a request: what the parser recovers from a
/// buffer and what the serializer renders back to bytes.
#[verifier::ext_equal]
pub struct ReqModel {
    /// The request method.
    pub method: Method,
    /// The request target, stored verbatim.
    pub uri: Seq<u8>,
    /// The protocol version.
    pub version: Version,
    /// The header entries, in order, with unique names.
    pub headers: Seq<SpecPair>,
    /// The body bytes, exactly `Content-Length` of them.
    pub body: Seq<u8>,
}

/// What parsing a request buffer yields, step for step: find the blank-line
/// boundary (else the caller must read more), decode the header region as
/// UTF-8, split off the start line, read its three tokens, build the header
/// collection, then take as many body bytes as `Content-Length` declares.
pub open spec fn parse_request_spec(buf: Seq<u8>) -> Result<ReqModel, Error> {
    match find_boundary(buf) {
        None => Err(Error::NotEnoughData),
        Some(b) => if !valid_utf8(buf.subrange(0, b + 4)) {
            Err(Error::InvalidUtf8)
        } else {
            let hr = buf.subrange(0, b);
            let start = match find2(hr, CR, LF) {
                None => hr,
                Some(i) => hr.subrange(0, i),
            };
            let block = match find2(hr, CR, LF) {
                None => Seq::<u8>::empty(),
                Some(i) => hr.subrange(i + 2, hr.len() as int),
            };
            let toks = ws_tokens(start);
            if toks.len() != 3 {
                Err(Error::InvalidHeader)
            } else {
                match (Method::from_wire_spec(toks[0]), Version::from_wire_spec(toks[2])) {
                    (Some(m), Some(v)) => match hm_parse(block) {
                        None => Err(Error::InvalidHeader),
                        Some(pairs) => {
                            let clv = match hm_get(pairs, cl_key()) {
                                None => seq![D0],
                                Some(val) => val,
                            };
                            match parse_dec(clv) {
                                None => Err(Error::InvalidHeader),
                                Some(n) => if buf.len() - (b + 4) < n {
                                    Err(Error::NotEnoughData)
                                } else {
                                    Ok(
                                        ReqModel {
                                            method: m,
                                            uri: toks[1],
                                            version: v,
                                            headers: pairs,
                                            body: buf.subrange(b + 4, b + 4 + n),
                                        },
                                    )
                                },
                            }
                        },
                    },
                    _ => Err(Error::InvalidHeader),
                }
            }
        },
    }
}

/// A parsed request.  All fields are owned, so the request is independent
/// of the buffer it was parsed from.
#[derive(Debug, PartialEq, Eq, Clone)]
pub struct Request {
    version: Version,
    uri: Vec<u8>,
    method: Method,
    header: HeaderMap,
    body: Vec<u8>,
}

impl View for Request {
    type V = ReqModel;

    closed spec fn view(&self) -> ReqModel {
        ReqModel {
            method: self.method,
            uri: self.uri@,
            version: self.version,
            headers: self.header@,
            body: self.body@,
        }
    }
}

impl Request {
    /// The request's invariant: header names are unique.
    pub open spec fn wf(self) -> bool {
        crate::header_map::distinct_keys(self@.headers)
    }

    /// The protocol version.
    pub fn version(&self) -> (r: Version)
        ensures
            r == self@.version,
    {
        self.version
    }

    /// The request target, verbatim bytes from the start line.
    pub fn uri(&self) -> (r: &Vec<u8>)
        ensures
            r@ == self@.uri,
    {
        &self.uri
    }

    /// The request method.
    pub fn method(&self) -> (r: Method)
        ensures
            r == self@.method,
    {
        self.method
    }

    /// The header collection.
    pub fn header(&self) -> (r: &HeaderMap)
        ensures
            r@ == self@.headers,
    {
        &self.header
    }

    /// The body bytes.
    pub fn body(&self) -> (r: &Vec<u8>)
        ensures
            r@ == self@.body,
    {
        &self.body
    }

    /// Parse a request from a raw buffer.
    ///
    /// Errors:
    /// - `NotEnoughData` when the buffer holds no blank-line boundary yet,
    ///   or fewer body bytes than `Content-Length` declares: read more
    ///   bytes and parse again.
    /// - `InvalidUtf8` when the header region is not valid UTF-8.
    /// - `InvalidHeader` when the start line does not have exactly three
    ///   tokens, the method or version token is unrecognized, a header
    ///   line lacks the `: ` delimiter, or `Content-Length` does not parse
    ///   as a non-negative integer.
    pub fn from_bytes(buf: &[u8]) -> (r: Result<Request, Error>)
        ensures
            match (r, parse_request_spec(buf@)) {
                (Ok(req), Ok(m)) => req@ == m && req.wf(),
                (Err(e), Err(em)) => e == em,
                _ => false,
            },
    {
        let buf_len = buf.len();
        let b = match scan_boundary(buf) {
            None => {
                return Err(Error::NotEnoughData);
            },
            Some(b) => b,
        };
        if !is_utf8(slice_subrange(buf, 0, b + 4)) {
            return Err(Error::InvalidUtf8);
        }
        let hr = slice_subrange(buf, 0, b);
        let ghost hrs = buf@.subrange(0, b as int);
        let start_end: usize = match scan2(hr, CR, LF) {
            None => b,
            Some(i) => i,
        };
        let block_lo: usize = if start_end == b {
            b
        } else {
            start_end + 2
        };
        let start_slice = slice_subrange(buf, 0, start_end);
        let block_slice = slice_subrange(buf, block_lo, b);
        let ghost start = match find2(hrs, CR, LF) {
            None => hrs,
            Some(i) => hrs.subrange(0, i),
        };
        let ghost block = match find2(hrs, CR, LF) {
            None => Seq::<u8>::empty(),
            Some(i) => hrs.subrange(i + 2, hrs.len() as int),
        };
        proof {
            crate::wire::lemma_find2_props(hrs, CR, LF);
            assert(start_slice@ =~= start);
            assert(block_slice@ =~= block);
        }
        let mut toks = tokenize_ws(start_slice);
        if toks.len() != 3 {
            return Err(Error::InvalidHeader);
        }
        proof {
            assert(toks@[0]@ == ws_tokens(start)[0]);
            assert(toks@[1]@ == ws_tokens(start)[1]);
            assert(toks@[2]@ == ws_tokens(start)[2]);
        }
        let method = match Method::from_wire(toks[0].as_slice()) {
            Ok(m) => m,
            Err(e) => {
                return Err(e);
            },
        };
        let version = match Version::from_wire(toks[2].as_slice()) {
            Ok(v) => v,
            Err(e) => {
                return Err(e);
            },
        };
        let header = match HeaderMap::new(block_slice) {
            Ok(h) => h,
            Err(e) => {
                return Err(e);
            },
        };
        let content_len = match header.get("Content-Length".as_bytes()) {
            None => {
                let ghost clv = seq![D0];
                proof {
                    assert(clv.drop_last() =~= Seq::<u8>::empty());
                    assert(is_digit(clv[0]));
                    assert(all_digits(clv));
                    assert(clv.last() == D0);
                    assert(dec_val(clv) == dec_val(clv.drop_last()) * 10 + (clv.last() - D0));
                    assert(parse_dec(clv) == Some(0int));
                }
                0
            },
            Some(v) => match crate::wire::parse_dec_exec(v.as_slice()) {
                None => {
                    return Err(Error::InvalidHeader);
                },
                Some(n) => n,
            },
        };
        if buf.len() - (b + 4) < content_len {
            return Err(Error::NotEnoughData);
        }
        let body = copy_range(buf, b + 4, b + 4 + content_len);
        let uri = toks.remove(1);
        let req = Request { version, uri, method, header, body };
        proof {
            assert(req@ =~= parse_request_spec(buf@)->Ok_0);
        }
        Ok(req)
    }
}


/// Re-parsing is deterministic in the accumulated bytes alone: two buffers
/// that chunk the same total byte sequence differently parse identically.
/// A caller that got `NotEnoughData`, read more and parsed again therefore
/// sees a result that depends only on the total bytes received, not on how
/// the reads were split.
pub proof fn lemma_parse_request_chunked(a: Seq<u8>, b: Seq<u8>, c: Seq<u8>, d: Seq<u8>)
    requires
        a + b == c + d,
    ensures
        parse_request_spec(a + b) == parse_request_spec(c + d),
{
}

} // verus!
