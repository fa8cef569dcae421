use htpp::{Error, Header, Response};

fn empty_headers<const N: usize>() -> [Header<'static>; N] {
    [Header::new(b"", b""); N]
}

#[test]
fn response_with_reason() {
    let resp = b"HTTP/1.1 200 OK\r\n\r\n";
    let mut headers = empty_headers::<10>();
    let parsed = Response::parse(resp, &mut headers).unwrap();
    assert_eq!(parsed.status, 200);
    assert_eq!(parsed.reason, b"OK");
    assert!(parsed.body.is_empty());
}

#[test]
fn reason_absent_with_trailing_space() {
    let resp = b"HTTP/1.1 200 \r\n\r\n";
    let mut headers = empty_headers::<10>();
    let parsed = Response::parse(resp, &mut headers).unwrap();
    assert_eq!(parsed.status, 200);
    assert_eq!(parsed.reason, b"");
}

#[test]
fn reason_absent_without_space() {
    let resp = b"HTTP/1.1 200\r\n\r\n";
    let mut headers = empty_headers::<10>();
    let parsed = Response::parse(resp, &mut headers).unwrap();
    assert_eq!(parsed.status, 200);
    assert_eq!(parsed.reason, b"");
}

#[test]
fn reason_with_space_inside() {
    let resp = b"HTTP/1.1 404 Not Found\r\nServer: a\r\n\r\nbody";
    let mut headers = empty_headers::<4>();
    let parsed = Response::parse(resp, &mut headers).unwrap();
    assert_eq!(parsed.status, 404);
    assert_eq!(parsed.reason, b"Not Found");
    assert_eq!(parsed.headers[0].name, b"Server");
    assert_eq!(parsed.body, b"body");
}

#[test]
fn status_of_one_digit() {
    let resp = b"HTTP/1.1 7\r\n\r\n";
    let mut headers = empty_headers::<2>();
    let parsed = Response::parse(resp, &mut headers).unwrap();
    assert_eq!(parsed.status, 7);
}

#[test]
fn four_digit_status_is_malformed() {
    let resp = b"HTTP/1.1 2000\r\n\r\n";
    let mut headers = empty_headers::<2>();
    assert_eq!(Response::parse(resp, &mut headers).unwrap_err(), Error::Malformed);
}

#[test]
fn empty_status_is_malformed() {
    let mut headers = empty_headers::<2>();
    assert_eq!(
        Response::parse(b"HTTP/1.1  OK\r\n\r\n", &mut headers).unwrap_err(),
        Error::Malformed
    );
    assert_eq!(
        Response::parse(b"HTTP/1.1 \r\n\r\n", &mut headers).unwrap_err(),
        Error::Malformed
    );
}

#[test]
fn reason_must_open_with_letter() {
    let resp = b"HTTP/1.1 200 !\r\n\r\n";
    let mut headers = empty_headers::<2>();
    assert_eq!(Response::parse(resp, &mut headers).unwrap_err(), Error::Malformed);
}

#[test]
fn control_byte_in_reason_is_malformed() {
    let resp = b"HTTP/1.1 200 OK\x01\r\n\r\n";
    let mut headers = empty_headers::<2>();
    assert_eq!(Response::parse(resp, &mut headers).unwrap_err(), Error::Malformed);
}

#[test]
fn tab_after_reason_is_malformed() {
    let resp = b"HTTP/1.1 200 OK\tx\r\n\r\n";
    let mut headers = empty_headers::<2>();
    assert_eq!(Response::parse(resp, &mut headers).unwrap_err(), Error::Malformed);
}

#[test]
fn bare_lf_status_line_is_malformed() {
    let resp = b"HTTP/1.1 200\n\r\n";
    let mut headers = empty_headers::<2>();
    assert_eq!(Response::parse(resp, &mut headers).unwrap_err(), Error::Malformed);
}

#[test]
fn http2_status_line_is_accepted() {
    let resp = b"HTTP/2.0 204\r\n\r\n";
    let mut headers = empty_headers::<2>();
    let parsed = Response::parse(resp, &mut headers).unwrap();
    assert_eq!(parsed.status, 204);
}

#[test]
fn version_without_trailing_space_is_malformed() {
    let resp = b"HTTP/1.1\r\n\r\n";
    let mut headers = empty_headers::<2>();
    assert_eq!(Response::parse(resp, &mut headers).unwrap_err(), Error::Malformed);
}

#[test]
fn response_too_many_headers_is_distinct() {
    let resp = b"HTTP/1.1 200 OK\r\nA: 1\r\nB: 2\r\n\r\n";
    let mut headers = empty_headers::<1>();
    assert_eq!(Response::parse(resp, &mut headers).unwrap_err(), Error::TooManyHeaders);
}

#[test]
fn serialize_built_response() {
    let headers = [Header::new(b"Connection", b"keep-alive")];
    let resp = Response::new(200, b"OK", &headers, b"");
    assert_eq!(resp.as_bytes(), b"HTTP/1.1 200 OK\r\nConnection: keep-alive\r\n\r\n");
}

#[test]
fn serialize_without_reason_writes_no_space() {
    let resp = Response::new(204, b"", &[], b"xyz");
    assert_eq!(resp.as_bytes(), b"HTTP/1.1 204\r\n\r\nxyz");
}

#[test]
fn serialize_status_digits() {
    assert_eq!(Response::new(0, b"", &[], b"").as_bytes(), b"HTTP/1.1 0\r\n\r\n");
    assert_eq!(Response::new(65535, b"", &[], b"").as_bytes(), b"HTTP/1.1 65535\r\n\r\n");
}

#[test]
fn response_round_trip() {
    let input = b"HTTP/1.1 301 Moved\r\nLocation: /new\r\n\r\nsee other";
    let mut headers = empty_headers::<3>();
    let parsed = Response::parse(input, &mut headers).unwrap();
    let bytes = parsed.as_bytes();
    let mut headers2 = empty_headers::<3>();
    let reparsed = Response::parse(&bytes, &mut headers2).unwrap();
    assert_eq!(reparsed.status, 301);
    assert_eq!(reparsed.reason, b"Moved");
    assert_eq!(reparsed.headers[0].name, b"Location");
    assert_eq!(reparsed.headers[0].val, b"/new");
    assert_eq!(reparsed.body, b"see other");
}
