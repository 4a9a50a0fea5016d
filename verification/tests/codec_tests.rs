use reqse::{Error, HeaderMap, Method, Request, RequestBuilder, Response, Status, Version};

fn contains(haystack: &[u8], needle: &[u8]) -> bool {
    if needle.is_empty() {
        return true;
    }
    if haystack.len() < needle.len() {
        return false;
    }
    haystack.windows(needle.len()).any(|w| w == needle)
}

#[test]
fn test_from_bytes_1() {
    let raw_request = b"GET / HTTP/1.1\r\n\r\n";
    let request = Request::from_bytes(raw_request).unwrap();

    assert_eq!(request.method(), Method::Get);
    assert_eq!(request.uri().as_slice(), b"/");
    assert_eq!(request.version(), Version::Http1);
    assert!(request.body().is_empty());
}

#[test]
fn parse_minimal_request_has_no_headers() {
    let request = Request::from_bytes(b"GET / HTTP/1.1\r\n\r\n").unwrap();
    assert_eq!(request.method(), Method::Get);
    assert_eq!(request.uri().as_slice(), b"/");
    assert_eq!(request.version(), Version::Http1);
    assert_eq!(request.header().len(), 0);
    assert!(request.header().is_empty());
    assert!(request.body().is_empty());
}

#[test]
fn parse_without_blank_line_needs_more_data() {
    assert_eq!(Request::from_bytes(b"GET / HTTP/1.1\r\n"), Err(Error::NotEnoughData));
    assert_eq!(Response::from_bytes(b"HTTP/1.1 200 OK\r\n"), Err(Error::NotEnoughData));
}

#[test]
fn parse_short_body_needs_more_data() {
    let buf = b"HTTP/1.1 200 OK\r\nContent-Length: 5\r\n\r\nHell";
    assert_eq!(Response::from_bytes(buf), Err(Error::NotEnoughData));
    let req = b"GET / HTTP/1.1\r\nContent-Length: 5\r\n\r\nHell";
    assert_eq!(Request::from_bytes(req), Err(Error::NotEnoughData));
}

#[test]
fn parse_unrecognized_method_is_invalid() {
    assert_eq!(Request::from_bytes(b"FOO / HTTP/1.1\r\n\r\n"), Err(Error::InvalidHeader));
}

#[test]
fn parse_unrecognized_version_is_invalid() {
    assert_eq!(Request::from_bytes(b"GET / HTTP/9.9\r\n\r\n"), Err(Error::InvalidHeader));
}

#[test]
fn parse_wrong_token_count_is_invalid() {
    assert_eq!(Request::from_bytes(b"GET / extra HTTP/1.1\r\n\r\n"), Err(Error::InvalidHeader));
    assert_eq!(Request::from_bytes(b"GET /\r\n\r\n"), Err(Error::InvalidHeader));
}

#[test]
fn parse_non_utf8_header_region_is_invalid() {
    assert_eq!(Request::from_bytes(b"GET /\xff\xfe HTTP/1.1\r\n\r\n"), Err(Error::InvalidUtf8));
}

#[test]
fn parse_bad_content_length_is_invalid() {
    assert_eq!(
        Request::from_bytes(b"GET / HTTP/1.1\r\nContent-Length: x\r\n\r\n"),
        Err(Error::InvalidHeader)
    );
    assert_eq!(
        Request::from_bytes(b"GET / HTTP/1.1\r\nContent-Length: \r\n\r\n"),
        Err(Error::InvalidHeader)
    );
    assert_eq!(
        Request::from_bytes(
            b"GET / HTTP/1.1\r\nContent-Length: 99999999999999999999999999\r\n\r\n"
        ),
        Err(Error::InvalidHeader)
    );
}

#[test]
fn parse_truncates_body_to_declared_length() {
    let req = Request::from_bytes(b"GET / HTTP/1.1\r\nContent-Length: 2\r\n\r\nabXtra").unwrap();
    assert_eq!(req.body().as_slice(), b"ab");
}

#[test]
fn parse_request_with_headers_and_body() {
    let buf = b"POST /submit HTTP/1.0\r\nHost: example\r\nContent-Length: 5\r\n\r\nHello";
    let req = Request::from_bytes(buf).unwrap();
    assert_eq!(req.method(), Method::Post);
    assert_eq!(req.uri().as_slice(), b"/submit");
    assert_eq!(req.version(), Version::Http0);
    assert_eq!(req.header().len(), 2);
    assert_eq!(req.header().get(b"Host").unwrap().as_slice(), b"example");
    assert_eq!(req.header().get(b"Content-Length").unwrap().as_slice(), b"5");
    assert_eq!(req.body().as_slice(), b"Hello");
}

#[test]
fn header_map_missing_delimiter_fails_whole_construction() {
    assert_eq!(HeaderMap::new(b"Key1: V1\r\nKey2\r\n").unwrap_err(), Error::InvalidHeader);
}

#[test]
fn header_map_repeated_key_keeps_last_value() {
    let map = HeaderMap::new(b"Key1: V1\r\nKey1: V2\r\n").unwrap();
    assert_eq!(map.get(b"Key1").unwrap().as_slice(), b"V2");
    assert_eq!(map.len(), 1);
    assert!(!map.is_empty());
    assert!(map.contains(b"Key1"));
    assert!(!map.contains(b"Key2"));
}

#[test]
fn header_map_iterates_in_order_and_restarts() {
    let map = HeaderMap::new(b"A: 1\r\nB: 2\r\n").unwrap();
    let mut iter = map.iter();
    let first = iter.next().unwrap();
    assert_eq!(first.0.as_slice(), b"A");
    assert_eq!(first.1.as_slice(), b"1");
    let second = iter.next().unwrap();
    assert_eq!(second.0.as_slice(), b"B");
    assert_eq!(second.1.as_slice(), b"2");
    assert!(iter.next().is_none());
    // A fresh cursor starts over from the stored entries.
    let mut again = map.iter();
    assert_eq!(again.next().unwrap().0.as_slice(), b"A");
}

#[test]
fn header_map_trims_block_and_skips_empty_lines() {
    let map = HeaderMap::new(b"  \r\nA: 1\r\n\r\nB: 2\r\n  ").unwrap();
    assert_eq!(map.len(), 2);
    assert_eq!(map.get(b"A").unwrap().as_slice(), b"1");
    assert_eq!(map.get(b"B").unwrap().as_slice(), b"2");
}

#[test]
fn response_builder_default_has_no_content_length() {
    let response = Response::ok().finish();
    assert_eq!(response.version(), Version::Http1);
    assert_eq!(response.status(), Status::Okay);
    assert!(response.header().is_empty());
    assert!(!response.header().contains(b"Content-Length"));
    assert!(response.body().is_none());
}

#[test]
fn response_builder_sets_fields() {
    let response = Response::builder(Status::NotFound)
        .version(Version::Http2)
        .header(b"Server".to_vec(), b"demo".to_vec())
        .body(b"gone".to_vec())
        .finish();
    assert_eq!(response.version(), Version::Http2);
    assert_eq!(response.status(), Status::NotFound);
    assert_eq!(response.header().get(b"Server").unwrap().as_slice(), b"demo");
    assert_eq!(response.header().get(b"Content-Length").unwrap().as_slice(), b"4");
    assert_eq!(response.body().as_ref().unwrap().as_slice(), b"gone");
}

#[test]
fn request_builder_serializes_content_length_for_nonempty_body() {
    let mut builder = RequestBuilder::post(b"/upload".to_vec());
    builder.body_but().extend_from_slice(b"Hello");
    let bytes = builder.finish();
    assert!(contains(&bytes, b"Content-Length: 5\r\n"));
    assert!(bytes.starts_with(b"POST /upload HTTP/1.1\r\n"));
    assert!(bytes.ends_with(b"\r\n\r\nHello"));
}

#[test]
fn request_builder_empty_body_has_no_content_length() {
    let mut builder = RequestBuilder::get(b"/".to_vec());
    builder
        .header_mut()
        .insert(b"Content-Length".to_vec(), b"7".to_vec());
    let bytes = builder.finish();
    assert!(!contains(&bytes, b"Content-Length"));
    assert_eq!(bytes, b"GET / HTTP/1.1\r\n\r\n".to_vec());
}

#[test]
fn request_round_trips_through_builder_and_parser() {
    let mut builder = RequestBuilder::put(b"/res/1".to_vec());
    *builder.version_mut() = Version::Http0;
    builder.header_mut().insert(b"Host".to_vec(), b"example".to_vec());
    builder.body_but().extend_from_slice(b"abc");
    let bytes = builder.finish();
    let parsed = Request::from_bytes(&bytes).unwrap();
    assert_eq!(parsed.method(), Method::Put);
    assert_eq!(parsed.uri().as_slice(), b"/res/1");
    assert_eq!(parsed.version(), Version::Http0);
    assert_eq!(parsed.header().get(b"Host").unwrap().as_slice(), b"example");
    assert_eq!(parsed.header().get(b"Content-Length").unwrap().as_slice(), b"3");
    assert_eq!(parsed.header().len(), 2);
    assert_eq!(parsed.body().as_slice(), b"abc");
}

#[test]
fn response_round_trips_through_builder_and_parser() {
    let response = Response::builder(Status::IamATeapot)
        .header(b"Server".to_vec(), b"demo".to_vec())
        .body(b"short and stout".to_vec())
        .finish();
    let bytes = response.to_bytes();
    let parsed = Response::from_bytes(&bytes).unwrap();
    assert_eq!(parsed, response);
}

#[test]
fn response_without_body_round_trips() {
    let response = Response::bad_request().finish();
    let bytes = response.to_bytes();
    assert_eq!(bytes, b"HTTP/1.1 400 Bad Request\r\n\r\n".to_vec());
    let parsed = Response::from_bytes(&bytes).unwrap();
    assert_eq!(parsed, response);
}

#[test]
fn reparse_after_more_data_succeeds() {
    // Every strict prefix only asks for more data; the parse result depends
    // on the accumulated bytes alone, never on how they arrived.
    let full = b"GET /page HTTP/1.1\r\nContent-Length: 3\r\n\r\nxyz";
    for cut in 0..full.len() {
        assert_eq!(Request::from_bytes(&full[..cut]), Err(Error::NotEnoughData));
    }
    let parsed = Request::from_bytes(full).unwrap();
    assert_eq!(parsed.body().as_slice(), b"xyz");
}

#[test]
fn parse_response_status_codes() {
    let cases: Vec<(&[u8], Status)> = vec![
        (b"200 OK", Status::Okay),
        (b"300 Multiple Choices", Status::MultipleChoices),
        (b"400 Bad Request", Status::BadRequest),
        (b"401 Unauthorized", Status::Unauthorized),
        (b"403 Forbidden", Status::Forbidden),
        (b"404 Not Found", Status::NotFound),
        (b"405 Method Not Allowed", Status::MethodNotAllowed),
        (b"418 I'm a teapot", Status::IamATeapot),
        (b"500 Internal Server Error", Status::InternalServerError),
        (b"501 Not Implemented", Status::NotImplemented),
        (b"503 Service Unavailable", Status::ServiceUnavailable),
        (b"505 HTTP Version Not Supported", Status::HttpVersionNotSupported),
    ];
    for (line, status) in cases {
        let mut buf = b"HTTP/1.1 ".to_vec();
        buf.extend_from_slice(line);
        buf.extend_from_slice(b"\r\n\r\n");
        let parsed = Response::from_bytes(&buf).unwrap();
        assert_eq!(parsed.status(), status);
        assert_eq!(status.to_static_str().as_bytes(), line);
    }
}

#[test]
fn parse_unrecognized_status_code_is_invalid() {
    assert_eq!(Response::from_bytes(b"HTTP/1.1 999 Whatever\r\n\r\n"), Err(Error::InvalidHeader));
    assert_eq!(Response::from_bytes(b"HTTP/1.1 200\r\n\r\n"), Err(Error::InvalidHeader));
    assert_eq!(Response::from_bytes(b"HTTP/1.1\r\n\r\n"), Err(Error::InvalidHeader));
}

#[test]
fn vocabulary_tokens_render_exactly() {
    assert_eq!(Method::Get.to_static_str(), "GET");
    assert_eq!(Method::Post.to_static_str(), "POST");
    assert_eq!(Method::Put.to_static_str(), "PUT");
    assert_eq!(Method::Delete.to_static_str(), "DELETE");
    assert_eq!(Version::Http0.to_static(), "HTTP/1.0");
    assert_eq!(Version::Http1.to_static(), "HTTP/1.1");
    assert_eq!(Version::Http2.to_static(), "HTTP/2");
    assert_eq!(Version::Http3.to_static(), "HTTP/3");
    assert_eq!(Error::InvalidHeader.to_static_str(), "invalid header");
    assert_eq!(Error::InvalidUtf8.to_static_str(), "invalid utf-8");
    assert_eq!(Error::NotEnoughData.to_static_str(), "not enough data");
}

#[test]
fn bytes_response_builder_serializes_like_the_message_path() {
    let mut builder = reqse::ResponseBuilder::not_found();
    builder.header_mut().insert(b"Server".to_vec(), b"demo".to_vec());
    builder.body_mut().extend_from_slice(b"gone");
    let bytes = builder.finish();
    assert!(bytes.starts_with(b"HTTP/1.1 404 Not Found\r\n"));
    assert!(contains(&bytes, b"Content-Length: 4\r\n"));
    assert!(contains(&bytes, b"Server: demo\r\n"));
    assert!(bytes.ends_with(b"\r\n\r\ngone"));
    let parsed = Response::from_bytes(&bytes).unwrap();
    assert_eq!(parsed.status(), Status::NotFound);
    assert_eq!(parsed.body().as_ref().unwrap().as_slice(), b"gone");
}

#[test]
fn bytes_response_builder_convenience_statuses() {
    assert_eq!(reqse::ResponseBuilder::ok().finish(), b"HTTP/1.1 200 OK\r\n\r\n".to_vec());
    assert_eq!(reqse::ResponseBuilder::bad_request().status(), Status::BadRequest);
    assert_eq!(reqse::ResponseBuilder::unauthorized().status(), Status::Unauthorized);
    assert_eq!(reqse::ResponseBuilder::forbidden().status(), Status::Forbidden);
    assert_eq!(reqse::ResponseBuilder::not_found().status(), Status::NotFound);
    assert_eq!(
        reqse::ResponseBuilder::internal_server_error().status(),
        Status::InternalServerError
    );
}

#[test]
fn response_convenience_statuses() {
    assert_eq!(Response::ok().finish().status(), Status::Okay);
    assert_eq!(Response::bad_request().finish().status(), Status::BadRequest);
    assert_eq!(Response::unauthorized().finish().status(), Status::Unauthorized);
    assert_eq!(Response::forbidden().finish().status(), Status::Forbidden);
    assert_eq!(Response::not_found().finish().status(), Status::NotFound);
    assert_eq!(Response::method_not_allowed().finish().status(), Status::MethodNotAllowed);
    assert_eq!(
        Response::internal_server_error().finish().status(),
        Status::InternalServerError
    );
}

#[test]
fn request_builder_accessors() {
    let mut builder = RequestBuilder::new(Method::Delete, b"/a".to_vec());
    assert_eq!(builder.method(), Method::Delete);
    assert_eq!(builder.uri().as_slice(), b"/a");
    assert_eq!(builder.version(), Version::Http1);
    assert!(builder.body().is_empty());
    assert!(builder.header().is_empty());
    *builder.method_mut() = Method::Get;
    builder.uri_mut().clear();
    builder.uri_mut().extend_from_slice(b"/b");
    assert_eq!(builder.method(), Method::Get);
    assert_eq!(builder.uri().as_slice(), b"/b");
    let bytes = builder.finish();
    assert_eq!(bytes, b"GET /b HTTP/1.1\r\n\r\n".to_vec());
}

#[test]
fn header_map_insert_and_remove() {
    let mut map = HeaderMap::empty();
    map.insert(b"A".to_vec(), b"1".to_vec());
    map.insert(b"B".to_vec(), b"2".to_vec());
    map.insert(b"A".to_vec(), b"3".to_vec());
    assert_eq!(map.len(), 2);
    assert_eq!(map.get(b"A").unwrap().as_slice(), b"3");
    map.remove(b"A");
    assert_eq!(map.len(), 1);
    assert!(map.get(b"A").is_none());
}

#[test]
fn large_content_length_numbers_round_trip() {
    let body = vec![b'x'; 12345];
    let mut builder = RequestBuilder::post(b"/big".to_vec());
    builder.body_but().extend_from_slice(&body);
    let bytes = builder.finish();
    assert!(contains(&bytes, b"Content-Length: 12345\r\n"));
    let parsed = Request::from_bytes(&bytes).unwrap();
    assert_eq!(parsed.body().len(), 12345);
}
