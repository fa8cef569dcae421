use htpp::{Error, Header, Method, Request};

fn empty_headers<const N: usize>() -> [Header<'static>; N] {
    [Header::new(b"", b""); N]
}

#[test]
fn minimal_request() {
    let req = b"GET / HTTP/1.1\r\n\r\n";
    let mut headers = empty_headers::<10>();
    let parsed = Request::parse(req, &mut headers).unwrap();
    assert_eq!(parsed.method, Method::Get);
    assert_eq!(parsed.path, b"/");
    assert!(parsed.headers[0].name.is_empty());
    assert!(parsed.body.is_empty());
}

#[test]
fn request_with_headers_and_empty_value() {
    let req = b"GET / HTTP/1.1\r\nHost: foo.com\r\nCookie: \r\n\r\n";
    let mut headers = empty_headers::<10>();
    let parsed = Request::parse(req, &mut headers).unwrap();
    assert_eq!(parsed.headers[0].name, b"Host");
    assert_eq!(parsed.headers[0].val, b"foo.com");
    assert_eq!(parsed.headers[1].name, b"Cookie");
    assert_eq!(parsed.headers[1].val, b"");
    assert!(parsed.headers[2].name.is_empty());
}

#[test]
fn backslash_in_path_is_malformed() {
    let req = b"GET /\\?wayne\\=5 HTTP/1.1\r\n";
    let mut headers = empty_headers::<10>();
    assert_eq!(Request::parse(req, &mut headers).unwrap_err(), Error::Malformed);
}

#[test]
fn parse_longer_path_and_body() {
    let req = b"POST /index.html HTTP/1.1\r\nHost: a-b_3.example\r\n\r\nhello body";
    let mut headers = empty_headers::<4>();
    let parsed = Request::parse(req, &mut headers).unwrap();
    assert_eq!(parsed.method, Method::Post);
    assert_eq!(parsed.path, b"/index.html");
    assert_eq!(parsed.headers[0].name, b"Host");
    assert_eq!(parsed.headers[0].val, b"a-b_3.example");
    assert_eq!(parsed.body, b"hello body");
}

#[test]
fn put_method_is_recognized() {
    let req = b"PUT /res HTTP/1.1\r\n\r\n";
    let mut headers = empty_headers::<2>();
    let parsed = Request::parse(req, &mut headers).unwrap();
    assert_eq!(parsed.method, Method::Put);
}

#[test]
fn unknown_method_is_malformed() {
    let req = b"DELETE /res HTTP/1.1\r\n\r\n";
    let mut headers = empty_headers::<2>();
    assert_eq!(Request::parse(req, &mut headers).unwrap_err(), Error::Malformed);
}

#[test]
fn lowercase_method_is_malformed() {
    let req = b"get / HTTP/1.1\r\n\r\n";
    let mut headers = empty_headers::<2>();
    assert_eq!(Request::parse(req, &mut headers).unwrap_err(), Error::Malformed);
}

#[test]
fn empty_path_is_malformed() {
    let req = b"GET  HTTP/1.1\r\n\r\n";
    let mut headers = empty_headers::<2>();
    assert_eq!(Request::parse(req, &mut headers).unwrap_err(), Error::Malformed);
}

#[test]
fn http2_version_token_is_accepted() {
    let req = b"GET / HTTP/2.0\r\n\r\n";
    let mut headers = empty_headers::<2>();
    assert!(Request::parse(req, &mut headers).is_ok());
}

#[test]
fn other_version_token_is_malformed() {
    let req = b"GET / HTTP/1.0\r\n\r\n";
    let mut headers = empty_headers::<2>();
    assert_eq!(Request::parse(req, &mut headers).unwrap_err(), Error::Malformed);
}

#[test]
fn bare_lf_request_line_is_malformed() {
    let req = b"GET / HTTP/1.1\n\n";
    let mut headers = empty_headers::<2>();
    assert_eq!(Request::parse(req, &mut headers).unwrap_err(), Error::Malformed);
}

#[test]
fn bare_lf_header_line_is_malformed() {
    let req = b"GET / HTTP/1.1\r\nHost: a\n\r\n";
    let mut headers = empty_headers::<2>();
    assert_eq!(Request::parse(req, &mut headers).unwrap_err(), Error::Malformed);
}

#[test]
fn bare_lf_blank_line_is_malformed() {
    let req = b"GET / HTTP/1.1\r\nHost: a\r\n\n";
    let mut headers = empty_headers::<2>();
    assert_eq!(Request::parse(req, &mut headers).unwrap_err(), Error::Malformed);
}

#[test]
fn lf_inside_header_value_is_data() {
    let req = b"GET / HTTP/1.1\r\nX: a\nb\r\n\r\n";
    let mut headers = empty_headers::<2>();
    let parsed = Request::parse(req, &mut headers).unwrap();
    assert_eq!(parsed.headers[0].val, b"a\nb");
}

#[test]
fn too_many_headers_is_distinct() {
    let req = b"GET / HTTP/1.1\r\nA: 1\r\nB: 2\r\nC: 3\r\n\r\n";
    let mut headers = empty_headers::<2>();
    assert_eq!(Request::parse(req, &mut headers).unwrap_err(), Error::TooManyHeaders);
}

#[test]
fn headers_fitting_exactly_are_accepted() {
    let req = b"GET / HTTP/1.1\r\nA: 1\r\nB: 2\r\n\r\n";
    let mut headers = empty_headers::<2>();
    let parsed = Request::parse(req, &mut headers).unwrap();
    assert_eq!(parsed.headers[0].name, b"A");
    assert_eq!(parsed.headers[1].name, b"B");
}

#[test]
fn header_tab_after_colon_is_skipped() {
    let req = b"GET / HTTP/1.1\r\nA:\tv\r\n\r\n";
    let mut headers = empty_headers::<2>();
    let parsed = Request::parse(req, &mut headers).unwrap();
    assert_eq!(parsed.headers[0].val, b"v");
}

#[test]
fn header_without_space_after_colon() {
    let req = b"GET / HTTP/1.1\r\nA:v\r\n\r\n";
    let mut headers = empty_headers::<2>();
    let parsed = Request::parse(req, &mut headers).unwrap();
    assert_eq!(parsed.headers[0].val, b"v");
}

#[test]
fn only_one_space_after_colon_is_skipped() {
    let req = b"GET / HTTP/1.1\r\nA:  v\r\n\r\n";
    let mut headers = empty_headers::<2>();
    let parsed = Request::parse(req, &mut headers).unwrap();
    assert_eq!(parsed.headers[0].val, b" v");
}

#[test]
fn header_name_with_bad_byte_is_malformed() {
    let req = b"GET / HTTP/1.1\r\nA@B: v\r\n\r\n";
    let mut headers = empty_headers::<2>();
    assert_eq!(Request::parse(req, &mut headers).unwrap_err(), Error::Malformed);
}

#[test]
fn truncated_header_block_is_malformed() {
    let req = b"GET / HTTP/1.1\r\nX";
    let mut headers = empty_headers::<2>();
    assert_eq!(Request::parse(req, &mut headers).unwrap_err(), Error::Malformed);
}

#[test]
fn short_input_is_malformed() {
    let mut headers = empty_headers::<2>();
    assert_eq!(Request::parse(b"GET /", &mut headers).unwrap_err(), Error::Malformed);
    assert_eq!(Request::parse(b"", &mut headers).unwrap_err(), Error::Malformed);
}

#[test]
fn empty_header_name_is_scanned() {
    let req = b"GET / HTTP/1.1\r\n: v\r\n\r\n";
    let mut headers = empty_headers::<2>();
    let parsed = Request::parse(req, &mut headers).unwrap();
    assert_eq!(parsed.headers[0].name, b"");
    assert_eq!(parsed.headers[0].val, b"v");
}

#[test]
fn colon_at_end_of_input_is_malformed() {
    let req = b"GET / HTTP/1.1\r\nabcdefgh:";
    let mut headers = empty_headers::<2>();
    assert_eq!(Request::parse(req, &mut headers).unwrap_err(), Error::Malformed);
}

#[test]
fn zero_capacity_buffer_and_no_headers_is_fine() {
    let req = b"GET / HTTP/1.1\r\n\r\nbody";
    let mut headers = empty_headers::<0>();
    let parsed = Request::parse(req, &mut headers).unwrap();
    assert_eq!(parsed.body, b"body");
}

#[test]
fn zero_capacity_buffer_with_a_header_is_too_many() {
    let req = b"GET / HTTP/1.1\r\nA: 1\r\n\r\n";
    let mut headers = empty_headers::<0>();
    assert_eq!(Request::parse(req, &mut headers).unwrap_err(), Error::TooManyHeaders);
}

#[test]
fn serialize_built_request() {
    let headers = [Header::new(b"Accept", b"*/*")];
    let req = Request::new(Method::Get, b"/index.html", &headers, b"");
    assert_eq!(req.as_bytes(), b"GET /index.html HTTP/1.1\r\nAccept: */*\r\n\r\n");
}

#[test]
fn serialize_stops_at_empty_name_sentinel() {
    let headers = [
        Header::new(b"A", b"1"),
        Header::new(b"", b""),
        Header::new(b"B", b"2"),
    ];
    let req = Request::new(Method::Put, b"/x", &headers, b"tail");
    assert_eq!(req.as_bytes(), b"PUT /x HTTP/1.1\r\nA: 1\r\n\r\ntail");
}

#[test]
fn request_round_trip() {
    let input = b"POST /p/q?a=1 HTTP/1.1\r\nHost: h\r\nX: y z\r\n\r\nbody bytes";
    let mut headers = empty_headers::<5>();
    let parsed = Request::parse(input, &mut headers).unwrap();
    let bytes = parsed.as_bytes();
    let mut headers2 = empty_headers::<5>();
    let reparsed = Request::parse(&bytes, &mut headers2).unwrap();
    assert_eq!(reparsed.method, Method::Post);
    assert_eq!(reparsed.path, b"/p/q?a=1");
    assert_eq!(reparsed.headers[0].name, b"Host");
    assert_eq!(reparsed.headers[0].val, b"h");
    assert_eq!(reparsed.headers[1].name, b"X");
    assert_eq!(reparsed.headers[1].val, b"y z");
    assert!(reparsed.headers[2].name.is_empty());
    assert_eq!(reparsed.body, b"body bytes");
}

#[test]
fn round_trip_of_http2_request_serializes_as_http11() {
    let input = b"GET /a HTTP/2.0\r\n\r\n";
    let mut headers = empty_headers::<2>();
    let parsed = Request::parse(input, &mut headers).unwrap();
    assert_eq!(parsed.as_bytes(), b"GET /a HTTP/1.1\r\n\r\n");
}
