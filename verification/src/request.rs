//! The request parser: method, path, version, headers, body.

use vstd::prelude::*;

verus! {

use crate::chars::is_url_safe;
use crate::chars::url_safe;
use crate::chars::url_safe_p;
use crate::header::header_pair_wf;
use crate::header::headers_model;
use crate::header::lemma_headers_bounds;
use crate::header::lemma_headers_wf;
use crate::header::lemma_parse_rendered_headers;
use crate::header::live_header_count;
use crate::header::parse_headers;
use crate::header::push_bytes;
use crate::header::push_rendered_headers;
use crate::header::spec_parse_headers;
use crate::header::spec_render_headers;
use crate::header::Error;
use crate::header::Header;
use crate::header::HttpVer;
use crate::scan::lemma_scan_while;
use crate::scan::lemma_scan_while_at;
use crate::scan::lemma_scan_while_none;
use crate::scan::scan_while;
use crate::CR;
use crate::LF;
use crate::SPACE;
use vstd::slice::slice_subrange;

/// The HTTP method of a request. Only GET, POST and PUT are supported; any
/// other token, valid HTTP or not, is rejected by the parser.
#[derive(Debug, PartialEq, Eq, Clone, Copy, Hash)]
pub enum Method {
    /// The HTTP GET method.
    Get,
    /// The HTTP POST method.
    Post,
    /// The HTTP PUT method.
    Put,
}

/// The bytes of a method's token, without the space that follows it on the
/// request line: `GET`, `POST` or `PUT`.
pub open spec fn spec_method_token(m: Method) -> Seq<u8> {
    match m {
        Method::Get => seq![71u8, 69u8, 84u8],
        Method::Post => seq![80u8, 79u8, 83u8, 84u8],
        Method::Put => seq![80u8, 85u8, 84u8],
    }
}

/// The method: an exact match of `GET `, `POST ` or `PUT `, trailing space
/// included. The count consumed points at the first path byte.
pub open spec fn spec_parse_method(s: Seq<u8>) -> Result<(Method, int), Error> {
    if s.len() >= 4 && s[0] == 71 && s[1] == 69 && s[2] == 84 && s[3] == SPACE {
        Ok((Method::Get, 4))
    } else if s.len() >= 5 && s[0] == 80 && s[1] == 79 && s[2] == 83 && s[3] == 84 && s[4]
        == SPACE {
        Ok((Method::Post, 5))
    } else if s.len() >= 4 && s[0] == 80 && s[1] == 85 && s[2] == 84 && s[3] == SPACE {
        Ok((Method::Put, 4))
    } else {
        Err(Error::Malformed)
    }
}

/// The path: URL-safe bytes up to a space, at least one of them. The count
/// consumed includes the space.
pub open spec fn spec_parse_path(s: Seq<u8>) -> Result<(Seq<u8>, int), Error> {
    match scan_while(s, url_safe_p()) {
        None => Err(Error::Malformed),
        Some(i) => {
            if s[i] == SPACE && i >= 1 {
                Ok((s.subrange(0, i), i + 1))
            } else {
                Err(Error::Malformed)
            }
        },
    }
}

/// The version of a request line: an exact ten-byte match of `HTTP/1.1\r\n`
/// or `HTTP/2.0\r\n`. A bare-LF variant matches neither and is malformed.
pub open spec fn spec_parse_http_version(s: Seq<u8>) -> Result<HttpVer, Error> {
    if s.len() >= 10 && s[0] == 72 && s[1] == 84 && s[2] == 84 && s[3] == 80 && s[4] == 47 && s[5]
        == 49 && s[6] == 46 && s[7] == 49 && s[8] == CR && s[9] == LF {
        Ok(HttpVer::One)
    } else if s.len() >= 10 && s[0] == 72 && s[1] == 84 && s[2] == 84 && s[3] == 80 && s[4] == 47
        && s[5] == 50 && s[6] == 46 && s[7] == 48 && s[8] == CR && s[9] == LF {
        Ok(HttpVer::Two)
    } else {
        Err(Error::Malformed)
    }
}

/// The eight bytes of the literal `HTTP/1.1`, the version serialization
/// always writes.
pub open spec fn spec_http11() -> Seq<u8> {
    seq![72u8, 84u8, 84u8, 80u8, 47u8, 49u8, 46u8, 49u8]
}

/// The wire form of a request: `METHOD SP PATH SP HTTP/1.1 CRLF`, the
/// rendered headers, the blank line, then the body.
pub open spec fn spec_request_bytes(
    m: Method,
    path: Seq<u8>,
    hs: Seq<(Seq<u8>, Seq<u8>)>,
    body: Seq<u8>,
) -> Seq<u8> {
    spec_method_token(m) + seq![SPACE] + path + seq![SPACE] + spec_http11() + seq![CR, LF]
        + spec_render_headers(hs) + seq![CR, LF] + body
}

/// The mathematical content of a parsed request.
#[verifier::ext_equal]
pub struct SpecRequest {
    /// The method of the request line.
    pub method: Method,
    /// The path bytes of the request line.
    pub path: Seq<u8>,
    /// The header pairs, in encounter order.
    pub headers: Seq<(Seq<u8>, Seq<u8>)>,
    /// Everything after the header terminator.
    pub body: Seq<u8>,
}

/// A whole request: request line, then the header block with at most `cap`
/// headers, then the body. Inputs shorter than the smallest viable request
/// are rejected before anything is scanned.
pub open spec fn spec_parse_request(s: Seq<u8>, cap: nat) -> Result<SpecRequest, Error> {
    if s.len() < 14 {
        Err(Error::Malformed)
    } else {
        match spec_parse_method(s) {
            Err(e) => Err(e),
            Ok((method, n1)) => match spec_parse_path(s.skip(n1)) {
                Err(e) => Err(e),
                Ok((path, n2)) => match spec_parse_http_version(s.skip(n1 + n2)) {
                    Err(e) => Err(e),
                    Ok(_ver) => match spec_parse_headers(s.skip(n1 + n2 + 10), cap) {
                        Err(e) => Err(e),
                        Ok((headers, n3)) => Ok(
                            SpecRequest {
                                method,
                                path,
                                headers,
                                body: s.skip(n1 + n2 + 10 + n3),
                            },
                        ),
                    },
                },
            },
        }
    }
}

/// Whether a request model could have come out of the parser: the path is
/// non-empty and URL-safe throughout, and every header is well formed.
pub open spec fn spec_request_wf(m: SpecRequest) -> bool {
    &&& m.path.len() >= 1
    &&& (forall|j: int| 0 <= j < m.path.len() ==> url_safe(m.path[j]))
    &&& (forall|i: int| 0 <= i < m.headers.len() ==> header_pair_wf(#[trigger] m.headers[i]))
}

/// Everything the request parser accepts is well formed.
pub proof fn lemma_parse_request_wf(s: Seq<u8>, cap: nat)
    ensures
        spec_parse_request(s, cap) matches Ok(m) ==> spec_request_wf(m),
{
    if let Ok((method, n1)) = spec_parse_method(s) {
        lemma_scan_while(s.skip(n1), url_safe_p());
        if let Ok((path, n2)) = spec_parse_path(s.skip(n1)) {
            lemma_headers_wf(s.skip(n1 + n2 + 10), cap);
        }
    }
}

/// The serialization half of the round-trip law: the bytes of a well-formed
/// request model whose headers all carry a name parse back, with capacity
/// for them, to exactly that model.
pub proof fn lemma_serialized_request_parses(m: SpecRequest, cap: nat)
    requires
        spec_request_wf(m),
        cap >= m.headers.len(),
        forall|i: int| 0 <= i < m.headers.len() ==> (#[trigger] m.headers[i]).0.len() > 0,
    ensures
        spec_parse_request(spec_request_bytes(m.method, m.path, m.headers, m.body), cap) == Ok::<
            SpecRequest,
            Error,
        >(m),
{
    let tok = spec_method_token(m.method);
    let render = spec_render_headers(m.headers);
    let s = spec_request_bytes(m.method, m.path, m.headers, m.body);
    assert(s == tok + seq![SPACE] + m.path + seq![SPACE] + spec_http11() + seq![CR, LF] + render
        + seq![CR, LF] + m.body);
    assert(s.len() >= 14);
    let n1 = tok.len() as int + 1;
    match m.method {
        Method::Get => {
            assert(s[0] == 71 && s[1] == 69 && s[2] == 84 && s[3] == SPACE);
            assert(spec_parse_method(s) == Ok::<(Method, int), Error>((Method::Get, 4)));
        },
        Method::Post => {
            assert(s[0] == 80 && s[1] == 79 && s[2] == 83 && s[3] == 84 && s[4] == SPACE);
            assert(spec_parse_method(s) == Ok::<(Method, int), Error>((Method::Post, 5)));
        },
        Method::Put => {
            assert(s[0] == 80 && s[1] == 85 && s[2] == 84 && s[3] == SPACE);
            assert(spec_parse_method(s) == Ok::<(Method, int), Error>((Method::Put, 4)));
        },
    }
    assert(spec_parse_method(s) == Ok::<(Method, int), Error>((m.method, n1)));
    let s1 = s.skip(n1);
    assert(s1 =~= m.path + seq![SPACE] + spec_http11() + seq![CR, LF] + render + seq![CR, LF]
        + m.body);
    assert forall|j: int| 0 <= j < m.path.len() implies url_safe(s1[j]) by {
        assert(s1[j] == m.path[j]);
    }
    assert(s1[m.path.len() as int] == SPACE);
    lemma_scan_while_at(s1, url_safe_p(), m.path.len() as int);
    assert(s1.subrange(0, m.path.len() as int) =~= m.path);
    let n2 = m.path.len() as int + 1;
    assert(spec_parse_path(s1) == Ok::<(Seq<u8>, int), Error>((m.path, n2)));
    let s2 = s.skip(n1 + n2);
    assert(s2 =~= spec_http11() + seq![CR, LF] + render + seq![CR, LF] + m.body);
    assert(s2[0] == 72 && s2[1] == 84 && s2[2] == 84 && s2[3] == 80 && s2[4] == 47 && s2[5] == 49
        && s2[6] == 46 && s2[7] == 49 && s2[8] == CR && s2[9] == LF);
    assert(spec_parse_http_version(s2) == Ok::<HttpVer, Error>(HttpVer::One));
    let s3 = s.skip(n1 + n2 + 10);
    assert(s3 =~= render + seq![CR, LF] + m.body);
    lemma_parse_rendered_headers(m.headers, m.body, cap);
    assert(spec_parse_headers(s3, cap) == Ok::<(Seq<(Seq<u8>, Seq<u8>)>, int), Error>(
        (m.headers, render.len() as int + 2),
    ));
    let s4 = s.skip(n1 + n2 + 10 + render.len() as int + 2);
    assert(s4 =~= m.body);
    if let Ok(parsed) = spec_parse_request(s, cap) {
        assert(parsed =~= m);
    }
}

/// The round-trip law: any request the parser accepts, re-serialized with
/// the byte rendering that `as_bytes` performs and re-parsed with capacity
/// for its headers, yields the same method, path, header sequence and
/// body. Requests carrying a header with an empty name are excluded:
/// serialization takes such a header for the sentinel of a partially
/// filled buffer and stops there.
pub proof fn lemma_request_round_trip(s: Seq<u8>, cap: nat, cap2: nat)
    requires
        spec_parse_request(s, cap) matches Ok(m) && cap2 >= m.headers.len() && (forall|i: int|
            0 <= i < m.headers.len() ==> (#[trigger] m.headers[i]).0.len() > 0),
    ensures
        spec_parse_request(s, cap) matches Ok(m) ==> spec_parse_request(
            spec_request_bytes(m.method, m.path, m.headers, m.body),
            cap2,
        ) == Ok::<SpecRequest, Error>(m),
{
    lemma_parse_request_wf(s, cap);
    if let Ok(m) = spec_parse_request(s, cap) {
        lemma_serialized_request_parses(m, cap2);
    }
}

/// The terminator law of the request line: the version literal admits only
/// an exact CRLF pair in its last two bytes, so a request line ending in a
/// bare LF is rejected.
pub proof fn lemma_version_requires_crlf(s: Seq<u8>)
    ensures
        spec_parse_http_version(s) is Ok ==> s[8] == CR && s[9] == LF,
        s.len() >= 10 && !(s[8] == CR && s[9] == LF) ==> spec_parse_http_version(s) is Err,
{
}

/// The capacity law at the request level: a request whose header count
/// exceeds a buffer's capacity parses with that buffer to
/// `TooManyHeaders`, never to a truncated result.
pub proof fn lemma_request_header_capacity(s: Seq<u8>, cap: nat, cap2: nat)
    requires
        spec_parse_request(s, cap) matches Ok(m) && cap2 < m.headers.len(),
    ensures
        spec_parse_request(s, cap2) matches Err(e) && e == Error::TooManyHeaders,
{
    if let Ok((method, n1)) = spec_parse_method(s) {
        if let Ok((path, n2)) = spec_parse_path(s.skip(n1)) {
            crate::header::lemma_headers_capacity(s.skip(n1 + n2 + 10), cap, cap2);
        }
    }
}

/// A parsed HTTP request. The path and body borrow from the input buffer;
/// the headers are the caller's whole header buffer, parsed slots first.
#[derive(Debug, PartialEq, Eq, Clone, Hash)]
pub struct Request<'a, 'headers> {
    /// The HTTP request method.
    pub method: Method,
    /// The target URL of the request: URL-safe ASCII bytes.
    pub path: &'a [u8],
    /// The HTTP request headers.
    pub headers: &'headers [Header<'a>],
    /// The body of the request, or an empty slice if there is none.
    pub body: &'a [u8],
}

impl<'a, 'headers> Request<'a, 'headers> {
    /// Construct a new `Request` from its parts.
    pub fn new(
        method: Method,
        path: &'a [u8],
        headers: &'headers [Header<'a>],
        body: &'a [u8],
    ) -> (r: Self)
        ensures
            r.method == method,
            r.path@ == path@,
            r.headers@ == headers@,
            r.body@ == body@,
    {
        Self { method, path, headers, body }
    }

    /// The byte representation of the request, transmittable over the
    /// wire: the request line (always written as HTTP/1.1), every header up
    /// to but not including the first empty-name slot — the sentinel of a
    /// partially filled buffer — the blank line, then the body.
    pub fn as_bytes(&self) -> (r: Vec<u8>)
        ensures
            r@ == spec_request_bytes(
                self.method,
                self.path@,
                headers_model(self.headers@.take(live_header_count(self.headers@))),
                self.body@,
            ),
    {
        let mut bytes: Vec<u8> = Vec::new();
        match self.method {
            Method::Get => {
                bytes.push(71);
                bytes.push(69);
                bytes.push(84);
            },
            Method::Post => {
                bytes.push(80);
                bytes.push(79);
                bytes.push(83);
                bytes.push(84);
            },
            Method::Put => {
                bytes.push(80);
                bytes.push(85);
                bytes.push(84);
            },
        }
        assert(bytes@ =~= spec_method_token(self.method));
        bytes.push(SPACE);
        push_bytes(&mut bytes, self.path);
        bytes.push(SPACE);
        bytes.push(72);
        bytes.push(84);
        bytes.push(84);
        bytes.push(80);
        bytes.push(47);
        bytes.push(49);
        bytes.push(46);
        bytes.push(49);
        bytes.push(CR);
        bytes.push(LF);
        assert(bytes@ =~= spec_method_token(self.method) + seq![SPACE] + self.path@ + seq![SPACE]
            + spec_http11() + seq![CR, LF]);
        push_rendered_headers(&mut bytes, self.headers);
        bytes.push(CR);
        bytes.push(LF);
        push_bytes(&mut bytes, self.body);
        assert(bytes@ =~= spec_request_bytes(
            self.method,
            self.path@,
            headers_model(self.headers@.take(live_header_count(self.headers@))),
            self.body@,
        ));
        bytes
    }

    /// Parses the bytes of an HTTP request into a `Request`, scanning the
    /// headers into `headers_buf` in encounter order. A request with more
    /// headers than the buffer holds yields `Err(Error::TooManyHeaders)`;
    /// any grammar violation yields `Err(Error::Malformed)`; buffer slots
    /// beyond the parsed headers keep their previous contents.
    pub fn parse(slice: &'a [u8], headers_buf: &'headers mut [Header<'a>]) -> (r: Result<
        Request<'a, 'headers>,
        Error,
    >)
        ensures
            final(headers_buf)@.len() == old(headers_buf)@.len(),
            match r {
                Ok(req) => spec_parse_request(slice@, old(headers_buf)@.len() as nat) matches Ok(m)
                    && req.method == m.method && req.path@ == m.path && req.body@ == m.body
                    && req.headers@ == final(headers_buf)@ && m.headers.len() <= old(
                    headers_buf,
                )@.len() && (forall|i: int|
                    0 <= i < m.headers.len() ==> req.headers@[i]@ == m.headers[i]) && (forall|
                    i: int,
                |
                    m.headers.len() <= i < old(headers_buf)@.len() ==> req.headers@[i] == old(
                        headers_buf,
                    )@[i]),
                Err(e) => spec_parse_request(slice@, old(headers_buf)@.len() as nat) matches Err(
                    e2,
                ) && e2 == e,
            },
    {
        let ghost cap = headers_buf@.len() as nat;
        let len = slice.len();
        if len < 14 {
            return Err(Error::Malformed);
        }
        let (method, read1) = match parse_method(slice) {
            Ok(x) => x,
            Err(e) => {
                return Err(e);
            },
        };
        let rest1 = slice_subrange(slice, read1, len);
        assert(rest1@ =~= slice@.skip(read1 as int));
        let (path, read2) = match parse_path(rest1) {
            Ok(x) => x,
            Err(e) => {
                return Err(e);
            },
        };
        proof {
            lemma_scan_while(rest1@, url_safe_p());
        }
        let offset2 = read1 + read2;
        let rest2 = slice_subrange(slice, offset2, len);
        assert(rest2@ =~= slice@.skip(offset2 as int));
        match parse_http_version(rest2) {
            Ok(_v) => {},
            Err(e) => {
                return Err(e);
            },
        }
        let offset3 = offset2 + 10;
        let rest3 = slice_subrange(slice, offset3, len);
        assert(rest3@ =~= slice@.skip(offset3 as int));
        let read3 = match parse_headers(rest3, headers_buf) {
            Ok(n) => n,
            Err(e) => {
                return Err(e);
            },
        };
        proof {
            lemma_headers_bounds(rest3@, cap);
        }
        let body = slice_subrange(slice, offset3 + read3, len);
        assert(body@ =~= slice@.skip(offset3 as int + read3 as int));
        Ok(Request { method, path, headers: headers_buf, body })
    }
}

/// Matches the method token at the front of the request line.
fn parse_method(slice: &[u8]) -> (r: Result<(Method, usize), Error>)
    ensures
        match r {
            Ok((m, n)) => spec_parse_method(slice@) matches Ok((m2, n2)) && m2 == m && n2 == n,
            Err(e) => spec_parse_method(slice@) matches Err(e2) && e2 == e,
        },
{
    let len = slice.len();
    if len >= 4 && slice[0] == 71 && slice[1] == 69 && slice[2] == 84 && slice[3] == SPACE {
        Ok((Method::Get, 4))
    } else if len >= 5 && slice[0] == 80 && slice[1] == 79 && slice[2] == 83 && slice[3] == 84
        && slice[4] == SPACE {
        Ok((Method::Post, 5))
    } else if len >= 4 && slice[0] == 80 && slice[1] == 85 && slice[2] == 84 && slice[3] == SPACE {
        Ok((Method::Put, 4))
    } else {
        Err(Error::Malformed)
    }
}

/// Scans the path and the space after it, insisting on URL-safe bytes.
fn parse_path<'a>(slice: &'a [u8]) -> (r: Result<(&'a [u8], usize), Error>)
    ensures
        match r {
            Ok((p, n)) => spec_parse_path(slice@) matches Ok((p2, n2)) && p2 == p@ && n2 == n,
            Err(e) => spec_parse_path(slice@) matches Err(e2) && e2 == e,
        },
{
    let len = slice.len();
    let mut i: usize = 0;
    while i < len && is_url_safe(slice[i])
        invariant
            i <= len,
            len == slice@.len(),
            forall|j: int| 0 <= j < i ==> url_safe(slice@[j]),
        decreases len - i,
    {
        i = i + 1;
    }
    if i == len {
        proof {
            lemma_scan_while_none(slice@, url_safe_p());
        }
        return Err(Error::Malformed);
    }
    proof {
        lemma_scan_while_at(slice@, url_safe_p(), i as int);
    }
    if slice[i] == SPACE && i >= 1 {
        Ok((slice_subrange(slice, 0, i), i + 1))
    } else {
        Err(Error::Malformed)
    }
}

/// Matches the exact version-and-CRLF literal that ends the request line.
fn parse_http_version(slice: &[u8]) -> (r: Result<HttpVer, Error>)
    ensures
        match r {
            Ok(v) => spec_parse_http_version(slice@) matches Ok(v2) && v2 == v,
            Err(e) => spec_parse_http_version(slice@) matches Err(e2) && e2 == e,
        },
{
    let len = slice.len();
    if len >= 10 && slice[0] == 72 && slice[1] == 84 && slice[2] == 84 && slice[3] == 80
        && slice[4] == 47 && slice[5] == 49 && slice[6] == 46 && slice[7] == 49 && slice[8] == CR
        && slice[9] == LF {
        Ok(HttpVer::One)
    } else if len >= 10 && slice[0] == 72 && slice[1] == 84 && slice[2] == 84 && slice[3] == 80
        && slice[4] == 47 && slice[5] == 50 && slice[6] == 46 && slice[7] == 48 && slice[8] == CR
        && slice[9] == LF {
        Ok(HttpVer::Two)
    } else {
        Err(Error::Malformed)
    }
}

} // verus!
