//! The response parser: version, status code, optional reason, headers, body.

use vstd::prelude::*;

verus! {

use crate::chars::alpha;
use crate::chars::digit;
use crate::chars::digit_p;
use crate::chars::digit_val;
use crate::chars::is_alpha;
use crate::chars::is_digit;
use crate::chars::is_reason_safe;
use crate::chars::reason_safe;
use crate::chars::reason_safe_p;
use crate::header::header_pair_wf;
use crate::header::headers_model;
use crate::header::lemma_headers_bounds;
use crate::header::lemma_headers_wf;
use crate::header::lemma_parse_rendered_headers;
use crate::header::live_header_count;
use crate::header::parse_headers;
use crate::header::push_bytes;
use crate::header::push_rendered_headers;
use crate::header::spec_parse_headers;
use crate::header::spec_render_headers;
use crate::request::spec_http11;
use crate::header::Error;
use crate::header::Header;
use crate::header::HttpVer;
use crate::scan::lemma_scan_while;
use crate::scan::lemma_scan_while_at;
use crate::scan::lemma_scan_while_none;
use crate::scan::scan_while;
use crate::CR;
use crate::LF;
use crate::SPACE;
use vstd::slice::slice_subrange;

/// The decimal value of a run of digit bytes.
pub open spec fn digits_val(s: Seq<u8>) -> int
    decreases s.len(),
{
    if s.len() == 0 {
        0
    } else {
        digits_val(s.drop_last()) * 10 + digit_val(s.last())
    }
}

/// The version of a status line: an exact nine-byte match of `HTTP/1.1 ` or
/// `HTTP/2.0 `, trailing space included.
pub open spec fn spec_parse_http_version(s: Seq<u8>) -> Result<HttpVer, Error> {
    if s.len() >= 9 && s[0] == 72 && s[1] == 84 && s[2] == 84 && s[3] == 80 && s[4] == 47 && s[5]
        == 49 && s[6] == 46 && s[7] == 49 && s[8] == SPACE {
        Ok(HttpVer::One)
    } else if s.len() >= 9 && s[0] == 72 && s[1] == 84 && s[2] == 84 && s[3] == 80 && s[4] == 47
        && s[5] == 50 && s[6] == 46 && s[7] == 48 && s[8] == SPACE {
        Ok(HttpVer::Two)
    } else {
        Err(Error::Malformed)
    }
}

/// The reason phrase: reason-safe bytes up to a CR that a LF must follow.
/// The count consumed includes the CRLF.
pub open spec fn spec_parse_reason(s: Seq<u8>) -> Result<(Seq<u8>, int), Error> {
    match scan_while(s, reason_safe_p()) {
        None => Err(Error::Malformed),
        Some(i) => {
            if s[i] == CR && i + 1 < s.len() && s[i + 1] == LF {
                Ok((s.subrange(0, i), i + 2))
            } else {
                Err(Error::Malformed)
            }
        },
    }
}

/// The status code and what follows it: one to three digit bytes, then
/// either a space and a reason phrase opening with a letter, or a space and
/// CRLF, or CRLF directly; anything else is malformed. Yields the numeric
/// code, the reason bytes (empty when absent) and the count consumed through
/// the line's CRLF.
pub open spec fn spec_parse_status(s: Seq<u8>) -> Result<(u16, Seq<u8>, int), Error> {
    match scan_while(s, digit_p()) {
        None => Err(Error::Malformed),
        Some(i) => {
            if s[i] == SPACE {
                if i < 1 || i > 3 {
                    Err(Error::Malformed)
                } else if i + 1 < s.len() && alpha(s[i + 1]) {
                    match spec_parse_reason(s.skip(i + 1)) {
                        Err(e) => Err(e),
                        Ok((reason, n)) => Ok(
                            (digits_val(s.subrange(0, i)) as u16, reason, i + 1 + n),
                        ),
                    }
                } else if i + 1 < s.len() && s[i + 1] == CR {
                    if i + 2 < s.len() && s[i + 2] == LF {
                        Ok((digits_val(s.subrange(0, i)) as u16, seq![], i + 3))
                    } else {
                        Err(Error::Malformed)
                    }
                } else {
                    Err(Error::Malformed)
                }
            } else if s[i] == CR {
                if i < 1 || i > 3 {
                    Err(Error::Malformed)
                } else if i + 1 < s.len() && s[i + 1] == LF {
                    Ok((digits_val(s.subrange(0, i)) as u16, seq![], i + 2))
                } else {
                    Err(Error::Malformed)
                }
            } else {
                Err(Error::Malformed)
            }
        },
    }
}

/// The decimal digit bytes of a non-negative number, most significant
/// first, with no leading zero except for the number zero itself.
pub open spec fn spec_u16_dec(n: int) -> Seq<u8>
    decreases n,
    via spec_u16_dec_dec
{
    if n < 10 {
        seq![(48 + n) as u8]
    } else {
        spec_u16_dec(n / 10) + seq![(48 + (n % 10)) as u8]
    }
}

#[via_fn]
proof fn spec_u16_dec_dec(n: int) {
    if n >= 10 {
        vstd::arithmetic::div_mod::lemma_div_is_strictly_smaller(n, 10);
    }
}

/// The wire form of a response: `HTTP/1.1 STATUS [SP REASON] CRLF`, the
/// rendered headers, the blank line, then the body. The space before the
/// reason is written only when there is one.
pub open spec fn spec_response_bytes(
    status: u16,
    reason: Seq<u8>,
    hs: Seq<(Seq<u8>, Seq<u8>)>,
    body: Seq<u8>,
) -> Seq<u8> {
    spec_http11() + seq![SPACE] + spec_u16_dec(status as int) + (if reason.len() > 0 {
        seq![SPACE] + reason
    } else {
        Seq::<u8>::empty()
    }) + seq![CR, LF] + spec_render_headers(hs) + seq![CR, LF] + body
}

/// The mathematical content of a parsed response.
#[verifier::ext_equal]
pub struct SpecResponse {
    /// The numeric status code of the status line.
    pub status: u16,
    /// The reason bytes, empty when the line carries none.
    pub reason: Seq<u8>,
    /// The header pairs, in encounter order.
    pub headers: Seq<(Seq<u8>, Seq<u8>)>,
    /// Everything after the header terminator.
    pub body: Seq<u8>,
}

/// A whole response: status line, then the header block with at most `cap`
/// headers, then the body.
pub open spec fn spec_parse_response(s: Seq<u8>, cap: nat) -> Result<SpecResponse, Error> {
    match spec_parse_http_version(s) {
        Err(e) => Err(e),
        Ok(_ver) => match spec_parse_status(s.skip(9)) {
            Err(e) => Err(e),
            Ok((status, reason, n2)) => match spec_parse_headers(s.skip(9 + n2), cap) {
                Err(e) => Err(e),
                Ok((headers, n3)) => Ok(
                    SpecResponse { status, reason, headers, body: s.skip(9 + n2 + n3) },
                ),
            },
        },
    }
}

/// A successfully parsed status line part consumes at least its CRLF and no
/// more than the whole window, and its code is at most three digits.
pub proof fn lemma_status_bounds(s: Seq<u8>)
    ensures
        spec_parse_status(s) matches Ok((st, reason, n)) ==> 2 <= n <= s.len() && st <= 999,
{
    lemma_scan_while(s, digit_p());
    if let Some(i) = scan_while(s, digit_p()) {
        lemma_scan_while(s.skip(i + 1), reason_safe_p());
        if 1 <= i <= 3 {
            lemma_digits_val_bound(s.subrange(0, i));
        }
    }
}

/// The decimal value of a run of digit bytes, bounded by its length: one
/// digit stays under ten, two under a hundred, three under a thousand.
proof fn lemma_digits_val_bound(s: Seq<u8>)
    requires
        forall|j: int| 0 <= j < s.len() ==> digit(s[j]),
    ensures
        s.len() == 0 ==> digits_val(s) == 0,
        s.len() <= 1 ==> 0 <= digits_val(s) <= 9,
        s.len() <= 2 ==> 0 <= digits_val(s) <= 99,
        s.len() <= 3 ==> 0 <= digits_val(s) <= 999,
    decreases s.len(),
{
    if s.len() > 0 {
        lemma_digits_val_bound(s.drop_last());
    }
}

/// Rendering a number as decimal digits and reading them back is the
/// identity; the digits are all in the digit class, and numbers up to 999
/// take at most three of them.
proof fn lemma_u16_dec_val(n: int)
    requires
        0 <= n,
    ensures
        forall|j: int| 0 <= j < spec_u16_dec(n).len() ==> digit(spec_u16_dec(n)[j]),
        digits_val(spec_u16_dec(n)) == n,
        1 <= spec_u16_dec(n).len(),
        n <= 9 ==> spec_u16_dec(n).len() == 1,
        n <= 99 ==> spec_u16_dec(n).len() <= 2,
        n <= 999 ==> spec_u16_dec(n).len() <= 3,
    decreases n,
{
    if n < 10 {
        let whole = spec_u16_dec(n);
        assert(whole =~= seq![(48 + n) as u8]);
        assert(whole.drop_last() =~= Seq::<u8>::empty());
        assert(digits_val(whole.drop_last()) == 0);
        assert(whole.last() == (48 + n) as u8);
        assert(digit_val((48 + n) as u8) == n);
        assert(digits_val(whole) == n);
    } else {
        vstd::arithmetic::div_mod::lemma_div_is_strictly_smaller(n, 10);
        vstd::arithmetic::div_mod::lemma_fundamental_div_mod(n, 10);
        lemma_u16_dec_val(n / 10);
        let a = spec_u16_dec(n / 10);
        let d = (48 + (n % 10)) as u8;
        let whole = a + seq![d];
        assert(whole.drop_last() =~= a);
        assert(whole.last() == d);
        assert(digits_val(whole) == digits_val(a) * 10 + digit_val(d));
        if n <= 99 {
            vstd::arithmetic::div_mod::lemma_div_is_ordered(n, 99, 10);
        }
        if n <= 999 {
            vstd::arithmetic::div_mod::lemma_div_is_ordered(n, 999, 10);
        }
        assert forall|j: int| 0 <= j < whole.len() implies digit(whole[j]) by {
            if j < a.len() {
                assert(whole[j] == a[j]);
            }
        }
    }
}

/// The terminator law of the status line: an accepted status line's last
/// two consumed bytes are an exact CRLF pair; a bare LF in that position is
/// rejected.
pub proof fn lemma_status_crlf(s: Seq<u8>)
    ensures
        spec_parse_status(s) matches Ok((st, reason, n)) ==> 2 <= n <= s.len() && s[n - 2] == CR
            && s[n - 1] == LF,
{
    lemma_scan_while(s, digit_p());
    if let Some(i) = scan_while(s, digit_p()) {
        lemma_scan_while(s.skip(i + 1), reason_safe_p());
        if 0 <= i < s.len() && s[i] == SPACE && i + 1 < s.len() && alpha(s[i + 1]) {
            if let Ok((reason, n)) = spec_parse_reason(s.skip(i + 1)) {
                assert(s.skip(i + 1)[n - 2] == s[i + 1 + n - 2]);
                assert(s.skip(i + 1)[n - 1] == s[i + 1 + n - 1]);
            }
        }
    }
}

/// Whether a response model could have come out of the parser: the status
/// fits in three digits, the reason is reason-safe throughout and opens
/// with a letter when present, and every header is well formed.
pub open spec fn spec_response_wf(m: SpecResponse) -> bool {
    &&& m.status <= 999
    &&& (forall|j: int| 0 <= j < m.reason.len() ==> reason_safe(m.reason[j]))
    &&& (m.reason.len() > 0 ==> alpha(m.reason[0]))
    &&& (forall|i: int| 0 <= i < m.headers.len() ==> header_pair_wf(#[trigger] m.headers[i]))
}

/// Everything the response parser accepts is well formed.
pub proof fn lemma_parse_response_wf(s: Seq<u8>, cap: nat)
    ensures
        spec_parse_response(s, cap) matches Ok(m) ==> spec_response_wf(m),
{
    let s1 = s.skip(9);
    lemma_status_bounds(s1);
    lemma_scan_while(s1, digit_p());
    if let Some(i) = scan_while(s1, digit_p()) {
        lemma_scan_while(s1.skip(i + 1), reason_safe_p());
        if 0 <= i < s1.len() && s1[i] == SPACE && i + 1 < s1.len() && alpha(s1[i + 1]) {
            if let Ok((reason, n)) = spec_parse_reason(s1.skip(i + 1)) {
                assert(reason.len() > 0 ==> reason[0] == s1.skip(i + 1)[0]);
            }
        }
    }
    if let Ok((status, reason, n2)) = spec_parse_status(s1) {
        lemma_headers_wf(s.skip(9 + n2), cap);
    }
}

/// The serialization half of the round-trip law for responses: the bytes
/// of a well-formed response model whose headers all carry a name parse
/// back, with capacity for them, to exactly that model.
#[verifier::rlimit(60)]
pub proof fn lemma_serialized_response_parses(m: SpecResponse, cap: nat)
    requires
        spec_response_wf(m),
        cap >= m.headers.len(),
        forall|i: int| 0 <= i < m.headers.len() ==> (#[trigger] m.headers[i]).0.len() > 0,
    ensures
        spec_parse_response(spec_response_bytes(m.status, m.reason, m.headers, m.body), cap)
            == Ok::<SpecResponse, Error>(m),
{
    let dec = spec_u16_dec(m.status as int);
    let render = spec_render_headers(m.headers);
    let opt = if m.reason.len() > 0 {
        seq![SPACE] + m.reason
    } else {
        Seq::<u8>::empty()
    };
    let s = spec_response_bytes(m.status, m.reason, m.headers, m.body);
    assert(s == spec_http11() + seq![SPACE] + dec + opt + seq![CR, LF] + render + seq![CR, LF]
        + m.body);
    lemma_u16_dec_val(m.status as int);
    assert(s[0] == 72 && s[1] == 84 && s[2] == 84 && s[3] == 80 && s[4] == 47 && s[5] == 49 && s[6]
        == 46 && s[7] == 49 && s[8] == SPACE);
    assert(spec_parse_http_version(s) == Ok::<HttpVer, Error>(HttpVer::One));
    let s1 = s.skip(9);
    assert(s1 =~= dec + opt + seq![CR, LF] + render + seq![CR, LF] + m.body);
    let i = dec.len() as int;
    assert forall|j: int| 0 <= j < i implies digit(s1[j]) by {
        assert(s1[j] == dec[j]);
    }
    assert(s1.subrange(0, i) =~= dec);
    assert((digits_val(dec) as u16) == m.status);
    if m.reason.len() > 0 {
        assert(s1[i] == SPACE);
        lemma_scan_while_at(s1, digit_p(), i);
        assert(s1[i + 1] == m.reason[0]);
        let s2 = s1.skip(i + 1);
        assert(s2 =~= m.reason + seq![CR, LF] + render + seq![CR, LF] + m.body);
        assert forall|j: int| 0 <= j < m.reason.len() implies reason_safe(s2[j]) by {
            assert(s2[j] == m.reason[j]);
        }
        assert(s2[m.reason.len() as int] == CR);
        lemma_scan_while_at(s2, reason_safe_p(), m.reason.len() as int);
        assert(s2[m.reason.len() as int + 1] == LF);
        assert(s2.subrange(0, m.reason.len() as int) =~= m.reason);
        assert(spec_parse_reason(s2) == Ok::<(Seq<u8>, int), Error>(
            (m.reason, m.reason.len() as int + 2),
        ));
        assert(spec_parse_status(s1) == Ok::<(u16, Seq<u8>, int), Error>(
            (m.status, m.reason, i + 1 + m.reason.len() as int + 2),
        ));
    } else {
        assert(s1[i] == CR);
        lemma_scan_while_at(s1, digit_p(), i);
        assert(s1[i + 1] == LF);
        assert(m.reason =~= Seq::<u8>::empty());
        assert(spec_parse_status(s1) == Ok::<(u16, Seq<u8>, int), Error>(
            (m.status, m.reason, i + 2),
        ));
    }
    if let Ok((st, reason, n2)) = spec_parse_status(s1) {
        let s3 = s.skip(9 + n2);
        assert(s3 =~= render + seq![CR, LF] + m.body);
        lemma_parse_rendered_headers(m.headers, m.body, cap);
        assert(spec_parse_headers(s3, cap) == Ok::<(Seq<(Seq<u8>, Seq<u8>)>, int), Error>(
            (m.headers, render.len() as int + 2),
        ));
        let s4 = s.skip(9 + n2 + render.len() as int + 2);
        assert(s4 =~= m.body);
        if let Ok(parsed) = spec_parse_response(s, cap) {
            assert(parsed =~= m);
        }
    }
}

/// The round-trip law for responses: any response the parser accepts,
/// re-serialized with the byte rendering that `as_bytes` performs and
/// re-parsed with capacity for its headers, yields the same status, reason,
/// header sequence and body. Responses carrying a header with an empty
/// name are excluded: serialization takes such a header for the sentinel
/// of a partially filled buffer and stops there.
pub proof fn lemma_response_round_trip(s: Seq<u8>, cap: nat, cap2: nat)
    requires
        spec_parse_response(s, cap) matches Ok(m) && cap2 >= m.headers.len() && (forall|i: int|
            0 <= i < m.headers.len() ==> (#[trigger] m.headers[i]).0.len() > 0),
    ensures
        spec_parse_response(s, cap) matches Ok(m) ==> spec_parse_response(
            spec_response_bytes(m.status, m.reason, m.headers, m.body),
            cap2,
        ) == Ok::<SpecResponse, Error>(m),
{
    lemma_parse_response_wf(s, cap);
    if let Ok(m) = spec_parse_response(s, cap) {
        lemma_serialized_response_parses(m, cap2);
    }
}

/// The capacity law at the response level: a response whose header count
/// exceeds a buffer's capacity parses with that buffer to
/// `TooManyHeaders`, never to a truncated result.
pub proof fn lemma_response_header_capacity(s: Seq<u8>, cap: nat, cap2: nat)
    requires
        spec_parse_response(s, cap) matches Ok(m) && cap2 < m.headers.len(),
    ensures
        spec_parse_response(s, cap2) matches Err(e) && e == Error::TooManyHeaders,
{
    if let Ok((status, reason, n2)) = spec_parse_status(s.skip(9)) {
        crate::header::lemma_headers_capacity(s.skip(9 + n2), cap, cap2);
    }
}

/// A parsed HTTP response. The reason and body borrow from the input
/// buffer; the headers are the caller's whole header buffer, parsed slots
/// first.
#[derive(Debug, PartialEq, Eq, Clone, Hash)]
pub struct Response<'a, 'headers> {
    /// The status code of the response.
    pub status: u16,
    /// The reason phrase of the response, or an empty slice if it has none.
    pub reason: &'a [u8],
    /// The HTTP response headers.
    pub headers: &'headers [Header<'a>],
    /// The body of the response, or an empty slice if there is none.
    pub body: &'a [u8],
}

impl<'a, 'headers> Response<'a, 'headers> {
    /// Construct a new `Response` from its parts. An empty reason stands
    /// for a status line without a reason phrase.
    pub fn new(
        status: u16,
        reason: &'a [u8],
        headers: &'headers [Header<'a>],
        body: &'a [u8],
    ) -> (r: Self)
        ensures
            r.status == status,
            r.reason@ == reason@,
            r.headers@ == headers@,
            r.body@ == body@,
    {
        Self { status, reason, headers, body }
    }

    /// The byte representation of the response, transmittable over the
    /// wire: the status line (always written as HTTP/1.1, the space before
    /// the reason only when a reason is present), every header up to but
    /// not including the first empty-name slot — the sentinel of a
    /// partially filled buffer — the blank line, then the body.
    pub fn as_bytes(&self) -> (r: Vec<u8>)
        ensures
            r@ == spec_response_bytes(
                self.status,
                self.reason@,
                headers_model(self.headers@.take(live_header_count(self.headers@))),
                self.body@,
            ),
    {
        let mut bytes: Vec<u8> = Vec::new();
        bytes.push(72);
        bytes.push(84);
        bytes.push(84);
        bytes.push(80);
        bytes.push(47);
        bytes.push(49);
        bytes.push(46);
        bytes.push(49);
        bytes.push(SPACE);
        assert(bytes@ =~= spec_http11() + seq![SPACE]);
        push_u16_dec(&mut bytes, self.status);
        if self.reason.len() != 0 {
            bytes.push(SPACE);
            push_bytes(&mut bytes, self.reason);
        }
        assert(bytes@ =~= spec_http11() + seq![SPACE] + spec_u16_dec(self.status as int) + (
        if self.reason@.len() > 0 {
            seq![SPACE] + self.reason@
        } else {
            Seq::<u8>::empty()
        }));
        bytes.push(CR);
        bytes.push(LF);
        push_rendered_headers(&mut bytes, self.headers);
        bytes.push(CR);
        bytes.push(LF);
        push_bytes(&mut bytes, self.body);
        assert(bytes@ =~= spec_response_bytes(
            self.status,
            self.reason@,
            headers_model(self.headers@.take(live_header_count(self.headers@))),
            self.body@,
        ));
        bytes
    }

    /// Parses the bytes of an HTTP response into a `Response`, scanning the
    /// headers into `header_buf` in encounter order. A response with more
    /// headers than the buffer holds yields `Err(Error::TooManyHeaders)`;
    /// any grammar violation yields `Err(Error::Malformed)`; buffer slots
    /// beyond the parsed headers keep their previous contents.
    pub fn parse(slice: &'a [u8], header_buf: &'headers mut [Header<'a>]) -> (r: Result<
        Response<'a, 'headers>,
        Error,
    >)
        ensures
            final(header_buf)@.len() == old(header_buf)@.len(),
            match r {
                Ok(resp) => spec_parse_response(slice@, old(header_buf)@.len() as nat) matches Ok(
                    m,
                ) && resp.status == m.status && resp.reason@ == m.reason && resp.body@ == m.body
                    && resp.headers@ == final(header_buf)@ && m.headers.len() <= old(
                    header_buf,
                )@.len() && (forall|i: int|
                    0 <= i < m.headers.len() ==> resp.headers@[i]@ == m.headers[i]) && (forall|
                    i: int,
                |
                    m.headers.len() <= i < old(header_buf)@.len() ==> resp.headers@[i] == old(
                        header_buf,
                    )@[i]),
                Err(e) => spec_parse_response(slice@, old(header_buf)@.len() as nat) matches Err(
                    e2,
                ) && e2 == e,
            },
    {
        let ghost cap = header_buf@.len() as nat;
        let len = slice.len();
        match parse_http_version(slice) {
            Ok(_v) => {},
            Err(e) => {
                return Err(e);
            },
        }
        let rest1 = slice_subrange(slice, 9, len);
        assert(rest1@ =~= slice@.skip(9));
        let (status, reason, read2) = match parse_status(rest1) {
            Ok(x) => x,
            Err(e) => {
                return Err(e);
            },
        };
        proof {
            lemma_status_bounds(rest1@);
        }
        let offset2 = 9 + read2;
        let rest2 = slice_subrange(slice, offset2, len);
        assert(rest2@ =~= slice@.skip(offset2 as int));
        let read3 = match parse_headers(rest2, header_buf) {
            Ok(n) => n,
            Err(e) => {
                return Err(e);
            },
        };
        proof {
            lemma_headers_bounds(rest2@, cap);
        }
        let body = slice_subrange(slice, offset2 + read3, len);
        assert(body@ =~= slice@.skip(offset2 as int + read3 as int));
        Ok(Response { status, reason, headers: header_buf, body })
    }
}

/// Matches the exact version-and-space literal that opens the status line.
fn parse_http_version(slice: &[u8]) -> (r: Result<HttpVer, Error>)
    ensures
        match r {
            Ok(v) => spec_parse_http_version(slice@) matches Ok(v2) && v2 == v,
            Err(e) => spec_parse_http_version(slice@) matches Err(e2) && e2 == e,
        },
{
    let len = slice.len();
    if len >= 9 && slice[0] == 72 && slice[1] == 84 && slice[2] == 84 && slice[3] == 80 && slice[4]
        == 47 && slice[5] == 49 && slice[6] == 46 && slice[7] == 49 && slice[8] == SPACE {
        Ok(HttpVer::One)
    } else if len >= 9 && slice[0] == 72 && slice[1] == 84 && slice[2] == 84 && slice[3] == 80
        && slice[4] == 47 && slice[5] == 50 && slice[6] == 46 && slice[7] == 48 && slice[8]
        == SPACE {
        Ok(HttpVer::Two)
    } else {
        Err(Error::Malformed)
    }
}

/// Scans the status code and whatever closes the status line.
fn parse_status<'a>(slice: &'a [u8]) -> (r: Result<(u16, &'a [u8], usize), Error>)
    ensures
        match r {
            Ok((st, reason, n)) => spec_parse_status(slice@) matches Ok((st2, r2, n2)) && st2 == st
                && r2 == reason@ && n2 == n,
            Err(e) => spec_parse_status(slice@) matches Err(e2) && e2 == e,
        },
{
    let len = slice.len();
    let mut i: usize = 0;
    while i < len && is_digit(slice[i])
        invariant
            i <= len,
            len == slice@.len(),
            forall|j: int| 0 <= j < i ==> digit(slice@[j]),
        decreases len - i,
    {
        i = i + 1;
    }
    if i == len {
        proof {
            lemma_scan_while_none(slice@, digit_p());
        }
        return Err(Error::Malformed);
    }
    proof {
        lemma_scan_while_at(slice@, digit_p(), i as int);
    }
    if slice[i] == SPACE {
        if i < 1 || i > 3 {
            return Err(Error::Malformed);
        }
        let status = read_status_digits(slice, i);
        if i + 1 < len && is_alpha(slice[i + 1]) {
            let rest = slice_subrange(slice, i + 1, len);
            assert(rest@ =~= slice@.skip(i as int + 1));
            match parse_reason(rest) {
                Ok((reason, n)) => Ok((status, reason, i + 1 + n)),
                Err(e) => Err(e),
            }
        } else if i + 1 < len && slice[i + 1] == CR {
            if i + 2 < len && slice[i + 2] == LF {
                Ok((status, slice_subrange(slice, 0, 0), i + 3))
            } else {
                Err(Error::Malformed)
            }
        } else {
            Err(Error::Malformed)
        }
    } else if slice[i] == CR {
        if i < 1 || i > 3 {
            return Err(Error::Malformed);
        }
        let status = read_status_digits(slice, i);
        if i + 1 < len && slice[i + 1] == LF {
            Ok((status, slice_subrange(slice, 0, 0), i + 2))
        } else {
            Err(Error::Malformed)
        }
    } else {
        Err(Error::Malformed)
    }
}

/// Reads the numeric value of the status digits `slice[0..count]`.
fn read_status_digits(slice: &[u8], count: usize) -> (v: u16)
    requires
        1 <= count <= 3,
        count <= slice@.len(),
        forall|j: int| 0 <= j < count ==> digit(slice@[j]),
    ensures
        v == digits_val(slice@.subrange(0, count as int)),
        v <= 999,
{
    let mut v: u16 = 0;
    let mut k: usize = 0;
    while k < count
        invariant
            k <= count,
            count <= 3,
            count <= slice@.len(),
            forall|j: int| 0 <= j < count ==> digit(slice@[j]),
            v == digits_val(slice@.subrange(0, k as int)),
            k == 0 ==> v == 0,
            k <= 1 ==> v <= 9,
            k <= 2 ==> v <= 99,
            v <= 999,
        decreases count - k,
    {
        let d = slice[k] - 48;
        proof {
            let pre = slice@.subrange(0, k as int);
            let post = slice@.subrange(0, k as int + 1);
            assert(post.drop_last() =~= pre);
            assert(post.last() == slice@[k as int]);
        }
        v = v * 10 + (d as u16);
        k = k + 1;
    }
    proof {
        assert(slice@.subrange(0, count as int) == slice@.subrange(0, k as int));
    }
    v
}

/// Appends the decimal digits of `n` to the output being built.
fn push_u16_dec(out: &mut Vec<u8>, n: u16)
    ensures
        final(out)@ == old(out)@ + spec_u16_dec(n as int),
    decreases n,
{
    if n < 10 {
        out.push(48 + (n as u8));
        assert(old(out)@.push((48 + n as int) as u8) =~= old(out)@ + spec_u16_dec(n as int));
    } else {
        push_u16_dec(out, n / 10);
        out.push(48 + ((n % 10) as u8));
        assert((old(out)@ + spec_u16_dec((n / 10) as int)).push((48 + (n as int % 10)) as u8) =~=
        old(out)@ + spec_u16_dec(n as int));
    }
}

/// Scans the reason phrase and the CRLF that closes the status line.
fn parse_reason<'a>(slice: &'a [u8]) -> (r: Result<(&'a [u8], usize), Error>)
    ensures
        match r {
            Ok((reason, n)) => spec_parse_reason(slice@) matches Ok((r2, n2)) && r2 == reason@
                && n2 == n,
            Err(e) => spec_parse_reason(slice@) matches Err(e2) && e2 == e,
        },
{
    let len = slice.len();
    let mut i: usize = 0;
    while i < len && is_reason_safe(slice[i])
        invariant
            i <= len,
            len == slice@.len(),
            forall|j: int| 0 <= j < i ==> reason_safe(slice@[j]),
        decreases len - i,
    {
        i = i + 1;
    }
    if i == len {
        proof {
            lemma_scan_while_none(slice@, reason_safe_p());
        }
        return Err(Error::Malformed);
    }
    proof {
        lemma_scan_while_at(slice@, reason_safe_p(), i as int);
    }
    if slice[i] == CR && i + 1 < len && slice[i + 1] == LF {
        Ok((slice_subrange(slice, 0, i), i + 2))
    } else {
        Err(Error::Malformed)
    }
}

} // verus!
