//! Parse errors, HTTP versions, and the header-block scanner shared by the
//! request and response parsers.

use vstd::prelude::*;

verus! {

use crate::chars::header_name_safe;
use crate::chars::is_header_name_safe;
use crate::chars::name_safe_p;
use crate::chars::not_cr_p;
use crate::scan::lemma_scan_while;
use crate::scan::lemma_scan_while_at;
use crate::scan::lemma_scan_while_none;
use crate::scan::scan_while;
use vstd::slice::slice_subrange;
use crate::CR;
use crate::COLON;
use crate::HTAB;
use crate::LF;
use crate::SPACE;

/// All parsing errors possible.
#[derive(Debug, PartialEq, Eq, Clone, Copy)]
pub enum Error {
    /// The message violates the grammar somewhere; which rule tripped is
    /// deliberately not reported.
    Malformed,
    /// The message holds more headers than the buffer the caller passed.
    TooManyHeaders,
}

/// The HTTP versions whose literal tokens are recognized.
#[derive(Debug, PartialEq, Eq, Clone, Copy)]
pub enum HttpVer {
    /// HTTP/1.1
    One,
    /// HTTP/2.0
    Two,
}

/// One `Name: Value` pair, both halves borrowed from the parsed input.
#[derive(Debug, PartialEq, Eq, Clone, Copy, Hash)]
pub struct Header<'a> {
    /// The name of the header: header-name-safe bytes only when parsed.
    pub name: &'a [u8],
    /// The value of the header: anything up to the terminating CR.
    pub val: &'a [u8],
}

impl<'a> View for Header<'a> {
    type V = (Seq<u8>, Seq<u8>);

    open spec fn view(&self) -> (Seq<u8>, Seq<u8>) {
        (self.name@, self.val@)
    }
}

impl<'a> Header<'a> {
    /// Create a new HTTP header with the given name and value.
    pub fn new(name: &'a [u8], val: &'a [u8]) -> (r: Self)
        ensures
            r@ == (name@, val@),
    {
        Self { name, val }
    }
}

/// The `(name, value)` pairs a sequence of headers holds.
pub open spec fn headers_model<'a>(hs: Seq<Header<'a>>) -> Seq<(Seq<u8>, Seq<u8>)> {
    Seq::new(hs.len(), |i: int| hs[i]@)
}

/// One header name: the bytes before the first byte outside the name class,
/// which must be the colon; one space or horizontal tab directly after the
/// colon is consumed as well, and exactly one. The count consumed points at
/// the first byte of the value.
pub open spec fn spec_parse_header_name(s: Seq<u8>) -> Result<(Seq<u8>, int), Error> {
    match scan_while(s, name_safe_p()) {
        None => Err(Error::Malformed),
        Some(i) => {
            if s[i] != COLON {
                Err(Error::Malformed)
            } else if i + 1 >= s.len() {
                Err(Error::Malformed)
            } else if s[i + 1] == SPACE || s[i + 1] == HTAB {
                Ok((s.subrange(0, i), i + 2))
            } else {
                Ok((s.subrange(0, i), i + 1))
            }
        },
    }
}

/// One header value: the bytes before the first CR, which must be followed
/// directly by LF. A bare LF is an ordinary value byte, never a terminator.
/// The count consumed includes the CRLF.
pub open spec fn spec_parse_header_value(s: Seq<u8>) -> Result<(Seq<u8>, int), Error> {
    match scan_while(s, not_cr_p()) {
        None => Err(Error::Malformed),
        Some(i) => {
            if i + 1 < s.len() && s[i + 1] == LF {
                Ok((s.subrange(0, i), i + 2))
            } else {
                Err(Error::Malformed)
            }
        },
    }
}

/// A successfully scanned header name sits at the front of `s`: at least the
/// colon is consumed, and no more than the whole window.
pub proof fn lemma_header_name_bounds(s: Seq<u8>)
    ensures
        spec_parse_header_name(s) matches Ok((name, n)) ==> name.len() < n && 1 <= n <= s.len(),
{
    lemma_scan_while(s, name_safe_p());
}

/// A successfully scanned header value consumes its CRLF and no more than
/// the whole window.
pub proof fn lemma_header_value_bounds(s: Seq<u8>)
    ensures
        spec_parse_header_value(s) matches Ok((val, n)) ==> val.len() == n - 2 && 2 <= n
            <= s.len(),
{
    lemma_scan_while(s, not_cr_p());
}

/// A header block: `Name: Value` lines until the blank line, at most `cap`
/// of them. The count consumed includes the blank line's CRLF; the bytes
/// after it are the message body.
pub open spec fn spec_parse_headers(s: Seq<u8>, cap: nat) -> Result<
    (Seq<(Seq<u8>, Seq<u8>)>, int),
    Error,
>
    decreases s.len(),
    via spec_parse_headers_dec
{
    if s.len() < 2 {
        Err(Error::Malformed)
    } else if s[0] == CR && s[1] == LF {
        Ok((seq![], 2))
    } else if cap == 0 {
        Err(Error::TooManyHeaders)
    } else {
        match spec_parse_header_name(s) {
            Err(e) => Err(e),
            Ok((name, n1)) => match spec_parse_header_value(s.skip(n1)) {
                Err(e) => Err(e),
                Ok((val, n2)) => match spec_parse_headers(s.skip(n1 + n2), (cap - 1) as nat) {
                    Err(e) => Err(e),
                    Ok((rest, n3)) => Ok((seq![(name, val)] + rest, n1 + n2 + n3)),
                },
            },
        }
    }
}

/// A successfully parsed header block consumes at least its blank line, no
/// more than the whole window, and yields at most `cap` headers.
pub proof fn lemma_headers_bounds(s: Seq<u8>, cap: nat)
    ensures
        spec_parse_headers(s, cap) matches Ok((hs, n)) ==> 2 <= n <= s.len() && hs.len() <= cap,
    decreases s.len(),
{
    if s.len() >= 2 && !(s[0] == CR && s[1] == LF) && cap > 0 {
        lemma_header_name_bounds(s);
        if let Ok((name, n1)) = spec_parse_header_name(s) {
            lemma_header_value_bounds(s.skip(n1));
            if let Ok((val, n2)) = spec_parse_header_value(s.skip(n1)) {
                lemma_headers_bounds(s.skip(n1 + n2), (cap - 1) as nat);
            }
        }
    }
}

#[via_fn]
proof fn spec_parse_headers_dec(s: Seq<u8>, cap: nat) {
    lemma_header_name_bounds(s);
    if let Ok((name, n1)) = spec_parse_header_name(s) {
        lemma_header_value_bounds(s.skip(n1));
    }
}

/// The capacity law of the header block: a block whose headers outnumber a
/// buffer's capacity parses with that buffer to `TooManyHeaders` — never to
/// a truncated result.
pub proof fn lemma_headers_capacity(s: Seq<u8>, cap: nat, cap2: nat)
    requires
        spec_parse_headers(s, cap) matches Ok((hs, n)) && cap2 < hs.len(),
    ensures
        spec_parse_headers(s, cap2) matches Err(e) && e == Error::TooManyHeaders,
    decreases s.len(),
{
    lemma_header_name_bounds(s);
    if let Ok((name, n1)) = spec_parse_header_name(s) {
        lemma_header_value_bounds(s.skip(n1));
        if let Ok((val, n2)) = spec_parse_header_value(s.skip(n1)) {
            if cap2 > 0 {
                lemma_headers_capacity(s.skip(n1 + n2), (cap - 1) as nat, (cap2 - 1) as nat);
            }
        }
    }
}

/// The terminator law of a header line: the CR that closes an accepted
/// value is the first CR of the window, and the LF sits directly after it.
/// An LF anywhere earlier is an ordinary value byte, and a bare LF in the
/// terminator position is rejected.
pub proof fn lemma_header_value_crlf(s: Seq<u8>)
    ensures
        spec_parse_header_value(s) matches Ok((val, n)) ==> 2 <= n <= s.len() && s[n - 2] == CR
            && s[n - 1] == LF && (forall|j: int| 0 <= j < n - 2 ==> s[j] != CR),
{
    lemma_scan_while(s, not_cr_p());
}

/// The terminator law of the header block: an accepted block's last two
/// consumed bytes are the blank line's exact CRLF pair.
pub proof fn lemma_headers_crlf(s: Seq<u8>, cap: nat)
    ensures
        spec_parse_headers(s, cap) matches Ok((hs, n)) ==> 2 <= n <= s.len() && s[n - 2] == CR
            && s[n - 1] == LF,
    decreases s.len(),
{
    lemma_header_name_bounds(s);
    if s.len() >= 2 && !(s[0] == CR && s[1] == LF) && cap > 0 {
        if let Ok((name, n1)) = spec_parse_header_name(s) {
            lemma_header_value_bounds(s.skip(n1));
            if let Ok((val, n2)) = spec_parse_header_value(s.skip(n1)) {
                lemma_headers_crlf(s.skip(n1 + n2), (cap - 1) as nat);
                if let Ok((hs3, n3)) = spec_parse_headers(s.skip(n1 + n2), (cap - 1) as nat) {
                    assert(s.skip(n1 + n2)[n3 - 2] == s[n1 + n2 + n3 - 2]);
                    assert(s.skip(n1 + n2)[n3 - 1] == s[n1 + n2 + n3 - 1]);
                }
            }
        }
    }
}

/// Whether a header pair could have come out of the scanner: every name
/// byte is in the name class (the colon in particular is not), and the
/// value holds no CR.
pub open spec fn header_pair_wf(p: (Seq<u8>, Seq<u8>)) -> bool {
    &&& forall|j: int| 0 <= j < p.0.len() ==> header_name_safe(p.0[j])
    &&& forall|j: int| 0 <= j < p.1.len() ==> p.1[j] != CR
}

/// Every header an accepted block yields is well formed.
pub proof fn lemma_headers_wf(s: Seq<u8>, cap: nat)
    ensures
        spec_parse_headers(s, cap) matches Ok((hs, n)) ==> forall|i: int|
            0 <= i < hs.len() ==> header_pair_wf(#[trigger] hs[i]),
    decreases s.len(),
{
    lemma_scan_while(s, name_safe_p());
    lemma_header_name_bounds(s);
    if s.len() >= 2 && !(s[0] == CR && s[1] == LF) && cap > 0 {
        if let Ok((name, n1)) = spec_parse_header_name(s) {
            lemma_scan_while(s.skip(n1), not_cr_p());
            lemma_header_value_bounds(s.skip(n1));
            if let Ok((val, n2)) = spec_parse_header_value(s.skip(n1)) {
                lemma_headers_wf(s.skip(n1 + n2), (cap - 1) as nat);
                if let Ok((hs3, n3)) = spec_parse_headers(s.skip(n1 + n2), (cap - 1) as nat) {
                    let hs = seq![(name, val)] + hs3;
                    assert forall|i: int| 0 <= i < hs.len() implies header_pair_wf(
                        #[trigger] hs[i],
                    ) by {
                        if i == 0 {
                            assert(hs[0] == (name, val));
                        } else {
                            assert(hs[i] == hs3[i - 1]);
                        }
                    }
                }
            }
        }
    }
}

/// The wire form of a sequence of header pairs: a `Name: Value` line,
/// closed by CRLF, for each pair in order.
pub open spec fn spec_render_headers(hs: Seq<(Seq<u8>, Seq<u8>)>) -> Seq<u8>
    decreases hs.len(),
{
    if hs.len() == 0 {
        seq![]
    } else {
        hs[0].0 + seq![COLON, SPACE] + hs[0].1 + seq![CR, LF] + spec_render_headers(hs.skip(1))
    }
}

/// Appending a pair to a header sequence appends its line to the rendering.
pub proof fn lemma_render_headers_push(hs: Seq<(Seq<u8>, Seq<u8>)>, pair: (Seq<u8>, Seq<u8>))
    ensures
        spec_render_headers(hs.push(pair)) == spec_render_headers(hs) + pair.0 + seq![
            COLON,
            SPACE,
        ] + pair.1 + seq![CR, LF],
    decreases hs.len(),
{
    let whole = hs.push(pair);
    if hs.len() == 0 {
        assert(whole[0] == pair);
        assert(whole.skip(1) =~= Seq::<(Seq<u8>, Seq<u8>)>::empty());
        assert(spec_render_headers(whole.skip(1)) == Seq::<u8>::empty());
        assert(spec_render_headers(whole) == pair.0 + seq![COLON, SPACE] + pair.1 + seq![CR, LF]
            + Seq::<u8>::empty());
        assert(spec_render_headers(hs) == Seq::<u8>::empty());
        assert(spec_render_headers(whole) =~= spec_render_headers(hs) + pair.0 + seq![
            COLON,
            SPACE,
        ] + pair.1 + seq![CR, LF]);
    } else {
        assert(whole[0] == hs[0]);
        assert(whole.skip(1) =~= hs.skip(1).push(pair));
        lemma_render_headers_push(hs.skip(1), pair);
        assert(spec_render_headers(whole) == hs[0].0 + seq![COLON, SPACE] + hs[0].1 + seq![
            CR,
            LF,
        ] + (spec_render_headers(hs.skip(1)) + pair.0 + seq![COLON, SPACE] + pair.1 + seq![
            CR,
            LF,
        ]));
        assert(spec_render_headers(hs) == hs[0].0 + seq![COLON, SPACE] + hs[0].1 + seq![CR, LF]
            + spec_render_headers(hs.skip(1)));
        assert(spec_render_headers(whole) =~= spec_render_headers(hs) + pair.0 + seq![
            COLON,
            SPACE,
        ] + pair.1 + seq![CR, LF]);
    }
}

/// The round-trip law of the header block: what a well-formed, fully named
/// header sequence renders to — its lines, the blank line, anything after —
/// parses back to exactly that sequence, given capacity for it.
pub proof fn lemma_parse_rendered_headers(hs: Seq<(Seq<u8>, Seq<u8>)>, tail: Seq<u8>, cap: nat)
    requires
        cap >= hs.len(),
        forall|i: int|
            0 <= i < hs.len() ==> header_pair_wf(#[trigger] hs[i]) && hs[i].0.len() > 0,
    ensures
        spec_parse_headers(spec_render_headers(hs) + seq![CR, LF] + tail, cap) == Ok::<
            (Seq<(Seq<u8>, Seq<u8>)>, int),
            Error,
        >((hs, spec_render_headers(hs).len() as int + 2)),
    decreases hs.len(),
{
    let s = spec_render_headers(hs) + seq![CR, LF] + tail;
    if hs.len() == 0 {
        assert(spec_render_headers(hs) == Seq::<u8>::empty());
        assert(s[0] == CR && s[1] == LF);
        assert(hs =~= Seq::<(Seq<u8>, Seq<u8>)>::empty());
        assert(spec_parse_headers(s, cap) == Ok::<(Seq<(Seq<u8>, Seq<u8>)>, int), Error>((hs, 2)));
    } else {
        let name = hs[0].0;
        let val = hs[0].1;
        let rest_render = spec_render_headers(hs.skip(1));
        assert(spec_render_headers(hs) == name + seq![COLON, SPACE] + val + seq![CR, LF]
            + rest_render);
        assert(header_pair_wf(hs[0]) && hs[0].0.len() > 0);
        assert forall|j: int| 0 <= j < name.len() implies header_name_safe(s[j]) by {
            assert(s[j] == name[j]);
        }
        assert(s[name.len() as int] == COLON);
        lemma_scan_while_at(s, name_safe_p(), name.len() as int);
        assert(s[name.len() as int + 1] == SPACE);
        assert(s.subrange(0, name.len() as int) =~= name);
        let n1 = name.len() as int + 2;
        assert(spec_parse_header_name(s) == Ok::<(Seq<u8>, int), Error>((name, n1)));
        let s2 = s.skip(n1);
        assert(s2 =~= val + seq![CR, LF] + rest_render + seq![CR, LF] + tail);
        assert forall|j: int| 0 <= j < val.len() implies s2[j] != CR by {
            assert(s2[j] == val[j]);
        }
        assert(s2[val.len() as int] == CR);
        lemma_scan_while_at(s2, not_cr_p(), val.len() as int);
        assert(s2[val.len() as int + 1] == LF);
        assert(s2.subrange(0, val.len() as int) =~= val);
        let n2 = val.len() as int + 2;
        assert(spec_parse_header_value(s2) == Ok::<(Seq<u8>, int), Error>((val, n2)));
        assert(s.len() >= 2);
        assert(s[0] == name[0]);
        assert(s[0] != CR);
        let s3 = s.skip(n1 + n2);
        assert(s3 =~= rest_render + seq![CR, LF] + tail);
        assert forall|i: int|
            0 <= i < hs.skip(1).len() implies header_pair_wf(#[trigger] hs.skip(1)[i]) && hs.skip(
            1,
        )[i].0.len() > 0 by {
            assert(hs.skip(1)[i] == hs[i + 1]);
        }
        lemma_parse_rendered_headers(hs.skip(1), tail, (cap - 1) as nat);
        assert(spec_parse_headers(s3, (cap - 1) as nat) == Ok::<(Seq<(Seq<u8>, Seq<u8>)>, int), Error>(
            (hs.skip(1), rest_render.len() as int + 2),
        ));
        assert(seq![(name, val)] + hs.skip(1) =~= hs);
        assert(spec_parse_headers(s, cap) == Ok::<(Seq<(Seq<u8>, Seq<u8>)>, int), Error>(
            (hs, spec_render_headers(hs).len() as int + 2),
        ));
    }
}

/// The count of headers before the first empty-name slot, which serialization
/// treats as the sentinel of a partially filled buffer.
pub open spec fn live_header_count<'a>(hs: Seq<Header<'a>>) -> int
    decreases hs.len(),
{
    if hs.len() == 0 {
        0
    } else if hs[0].name@.len() == 0 {
        0
    } else {
        1 + live_header_count(hs.skip(1))
    }
}

/// The buffer half of the round-trip law: after a parse that filled the
/// front of a buffer whose remaining slots are empty-named, the live prefix
/// that serialization walks is exactly the parsed header sequence.
pub proof fn lemma_live_prefix_is_parsed<'a>(buf: Seq<Header<'a>>, hs: Seq<(Seq<u8>, Seq<u8>)>)
    requires
        hs.len() <= buf.len(),
        forall|i: int| 0 <= i < hs.len() ==> (#[trigger] buf[i])@ == hs[i],
        forall|i: int| 0 <= i < hs.len() ==> (#[trigger] hs[i]).0.len() > 0,
        forall|i: int| hs.len() <= i < buf.len() ==> (#[trigger] buf[i]).name@.len() == 0,
    ensures
        live_header_count(buf) == hs.len(),
        headers_model(buf.take(live_header_count(buf))) == hs,
{
    assert forall|j: int| 0 <= j < hs.len() implies buf[j].name@.len() > 0 by {
        assert(buf[j]@ == hs[j]);
    }
    lemma_live_header_count_at(buf, hs.len() as int);
    assert(headers_model(buf.take(hs.len() as int)) =~= hs);
}

/// The converse: a prefix of named headers stopped by the end of the buffer
/// or by an empty name is exactly the live count.
pub proof fn lemma_live_header_count_at<'a>(hs: Seq<Header<'a>>, i: int)
    requires
        0 <= i <= hs.len(),
        forall|j: int| 0 <= j < i ==> hs[j].name@.len() > 0,
        i < hs.len() ==> hs[i].name@.len() == 0,
    ensures
        live_header_count(hs) == i,
    decreases i,
{
    if i == 0 {
    } else {
        assert forall|j: int| 0 <= j < i - 1 implies hs.skip(1)[j].name@.len() > 0 by {
            assert(hs.skip(1)[j] == hs[j + 1]);
        }
        if i - 1 < hs.skip(1).len() {
            assert(hs.skip(1)[i - 1] == hs[i]);
        }
        lemma_live_header_count_at(hs.skip(1), i - 1);
    }
}

/// Appends a borrowed byte run to the output being built.
pub(crate) fn push_bytes(out: &mut Vec<u8>, bytes: &[u8])
    ensures
        final(out)@ == old(out)@ + bytes@,
{
    let len = bytes.len();
    let mut i: usize = 0;
    while i < len
        invariant
            i <= len,
            len == bytes@.len(),
            out@ == old(out)@ + bytes@.take(i as int),
        decreases len - i,
    {
        out.push(bytes[i]);
        proof {
            assert(old(out)@ + bytes@.take(i as int) + seq![bytes@[i as int]] =~= old(out)@
                + bytes@.take(i as int + 1));
        }
        i = i + 1;
    }
    proof {
        assert(bytes@.take(len as int) =~= bytes@);
    }
}

/// Emits the live prefix of `headers` — the slots before the first
/// empty-name sentinel — as `Name: Value` lines.
pub(crate) fn push_rendered_headers<'a>(out: &mut Vec<u8>, headers: &[Header<'a>])
    ensures
        final(out)@ == old(out)@ + spec_render_headers(
            headers_model(headers@.take(live_header_count(headers@))),
        ),
{
    let len = headers.len();
    let mut idx: usize = 0;
    proof {
        assert(headers_model(headers@.take(0)) =~= Seq::<(Seq<u8>, Seq<u8>)>::empty());
        assert(old(out)@ + Seq::<u8>::empty() =~= old(out)@);
    }
    while idx < len && headers[idx].name.len() != 0
        invariant
            idx <= len,
            len == headers@.len(),
            forall|j: int| 0 <= j < idx ==> headers@[j].name@.len() > 0,
            out@ == old(out)@ + spec_render_headers(headers_model(headers@.take(idx as int))),
        decreases len - idx,
    {
        let ghost before = out@;
        let ghost prefix = headers_model(headers@.take(idx as int));
        let h = &headers[idx];
        push_bytes(out, h.name);
        out.push(COLON);
        out.push(SPACE);
        push_bytes(out, h.val);
        out.push(CR);
        out.push(LF);
        proof {
            let pair = headers@[idx as int]@;
            lemma_render_headers_push(prefix, pair);
            assert(headers_model(headers@.take(idx as int + 1)) =~= prefix.push(pair));
            assert(before + pair.0 + seq![COLON, SPACE] + pair.1 + seq![CR, LF] =~= old(out)@
                + spec_render_headers(headers_model(headers@.take(idx as int + 1))));
            assert(out@ =~= before + pair.0 + seq![COLON, SPACE] + pair.1 + seq![CR, LF]);
        }
        idx = idx + 1;
    }
    proof {
        lemma_live_header_count_at(headers@, idx as int);
    }
}

/// Scans one header name out of the front of `slice`.
fn parse_header_name<'a>(slice: &'a [u8]) -> (r: Result<(&'a [u8], usize), Error>)
    ensures
        match r {
            Ok((name, n)) => spec_parse_header_name(slice@) matches Ok((sn, sm)) && sn == name@
                && sm == n,
            Err(e) => spec_parse_header_name(slice@) matches Err(e2) && e2 == e,
        },
{
    let len = slice.len();
    let mut i: usize = 0;
    while i < len && is_header_name_safe(slice[i])
        invariant
            i <= len,
            len == slice@.len(),
            forall|j: int| 0 <= j < i ==> header_name_safe(slice@[j]),
        decreases len - i,
    {
        i = i + 1;
    }
    if i == len {
        proof {
            lemma_scan_while_none(slice@, name_safe_p());
        }
        return Err(Error::Malformed);
    }
    proof {
        lemma_scan_while_at(slice@, name_safe_p(), i as int);
    }
    if slice[i] != COLON {
        return Err(Error::Malformed);
    }
    if i + 1 >= len {
        return Err(Error::Malformed);
    }
    let consumed: usize = if slice[i + 1] == SPACE || slice[i + 1] == HTAB {
        i + 2
    } else {
        i + 1
    };
    Ok((slice_subrange(slice, 0, i), consumed))
}

/// Parses the header block at the front of `slice` into `headers_buf`,
/// filling slots in encounter order and leaving the rest untouched. Returns
/// the count of bytes consumed through the blank-line terminator; a header
/// beyond the buffer's capacity is `TooManyHeaders`, reported before
/// anything would be written past the end.
pub(crate) fn parse_headers<'a>(slice: &'a [u8], headers_buf: &mut [Header<'a>]) -> (r: Result<
    usize,
    Error,
>)
    ensures
        final(headers_buf)@.len() == old(headers_buf)@.len(),
        match r {
            Ok(n) => spec_parse_headers(slice@, old(headers_buf)@.len() as nat) matches Ok(
                (hs, m),
            ) && n == m && hs.len() <= old(headers_buf)@.len() && (forall|i: int|
                0 <= i < hs.len() ==> final(headers_buf)@[i]@ == hs[i]) && (forall|i: int|
                hs.len() <= i < old(headers_buf)@.len() ==> final(headers_buf)@[i] == old(
                    headers_buf,
                )@[i]),
            Err(e) => spec_parse_headers(slice@, old(headers_buf)@.len() as nat) matches Err(e2)
                && e2 == e,
        },
{
    let ghost buf0 = headers_buf@;
    let ghost cap = headers_buf@.len() as nat;
    let len = slice.len();
    let mut offset: usize = 0;
    let mut iteration: usize = 0;
    proof {
        assert(slice@.skip(0) =~= slice@);
        if let Ok((hs, m)) = spec_parse_headers(slice@, cap) {
            assert(headers_model(headers_buf@.take(0)) + hs =~= hs);
        }
    }
    loop
        invariant
            buf0 == old(headers_buf)@,
            len == slice@.len(),
            offset <= len,
            iteration <= cap,
            cap == buf0.len(),
            headers_buf@.len() == buf0.len(),
            forall|k: int| iteration <= k < cap ==> headers_buf@[k] == buf0[k],
            match spec_parse_headers(slice@.skip(offset as int), (cap - iteration) as nat) {
                Ok((hs, m)) => spec_parse_headers(slice@, cap) matches Ok((hs2, m2)) && hs2
                    == headers_model(headers_buf@.take(iteration as int)) + hs && m2 == offset + m,
                Err(e) => spec_parse_headers(slice@, cap) matches Err(e2) && e2 == e,
            },
        decreases len - offset,
    {
        let ghost rem = slice@.skip(offset as int);
        let ghost c = (cap - iteration) as nat;
        if len - offset < 2 {
            assert(spec_parse_headers(rem, c) matches Err(e) && e == Error::Malformed);
            return Err(Error::Malformed);
        }
        assert(rem[0] == slice@[offset as int] && rem[1] == slice@[offset as int + 1]);
        if slice[offset] == CR && slice[offset + 1] == LF {
            assert(spec_parse_headers(rem, c) matches Ok((hs, m)) && hs == Seq::<
                (Seq<u8>, Seq<u8>),
            >::empty() && m == 2);
            proof {
                let hs2 = headers_model(headers_buf@.take(iteration as int));
                assert(hs2 + Seq::<(Seq<u8>, Seq<u8>)>::empty() =~= hs2);
            }
            return Ok(offset + 2);
        }
        if iteration >= headers_buf.len() {
            assert(spec_parse_headers(rem, c) matches Err(e) && e == Error::TooManyHeaders);
            return Err(Error::TooManyHeaders);
        }
        let rest = slice_subrange(slice, offset, len);
        assert(rest@ =~= rem);
        let (name_bytes, n1) = match parse_header_name(rest) {
            Ok(x) => x,
            Err(e) => {
                assert(spec_parse_headers(rem, c) matches Err(e2) && e2 == e);
                return Err(e);
            },
        };
        proof {
            lemma_header_name_bounds(rem);
        }
        let rest2 = slice_subrange(slice, offset + n1, len);
        assert(rest2@ =~= rem.skip(n1 as int));
        let (val_bytes, n2) = match parse_header_value(rest2) {
            Ok(x) => x,
            Err(e) => {
                assert(spec_parse_headers(rem, c) matches Err(e2) && e2 == e);
                return Err(e);
            },
        };
        proof {
            lemma_header_value_bounds(rem.skip(n1 as int));
        }
        headers_buf[iteration] = Header::new(name_bytes, val_bytes);
        proof {
            let rem2 = slice@.skip(offset as int + n1 + n2);
            assert(rem.skip(n1 as int + n2 as int) =~= rem2);
            let pair = (name_bytes@, val_bytes@);
            assert(spec_parse_headers(rem, c) == (match spec_parse_headers(
                rem2,
                (c - 1) as nat,
            ) {
                Ok((rest_hs, n3)) => Ok::<(Seq<(Seq<u8>, Seq<u8>)>, int), Error>(
                    (seq![pair] + rest_hs, n1 + n2 + n3),
                ),
                Err(e) => Err(e),
            }));
            let nb = headers_buf@;
            let a = headers_model(nb.take(iteration as int));
            let b = headers_model(nb.take(iteration as int + 1));
            assert(b =~= a.push(pair));
            if let Ok((hs3, m3)) = spec_parse_headers(rem2, (c - 1) as nat) {
                assert(a + (seq![pair] + hs3) =~= b + hs3);
            }
        }
        offset = offset + n1 + n2;
        iteration = iteration + 1;
    }
}

/// Scans one header value out of the front of `slice`.
fn parse_header_value<'a>(slice: &'a [u8]) -> (r: Result<(&'a [u8], usize), Error>)
    ensures
        match r {
            Ok((val, n)) => spec_parse_header_value(slice@) matches Ok((sv, sm)) && sv == val@
                && sm == n,
            Err(e) => spec_parse_header_value(slice@) matches Err(e2) && e2 == e,
        },
{
    let len = slice.len();
    let mut i: usize = 0;
    while i < len && slice[i] != CR
        invariant
            i <= len,
            len == slice@.len(),
            forall|j: int| 0 <= j < i ==> slice@[j] != CR,
        decreases len - i,
    {
        i = i + 1;
    }
    if i == len {
        proof {
            lemma_scan_while_none(slice@, not_cr_p());
        }
        return Err(Error::Malformed);
    }
    proof {
        lemma_scan_while_at(slice@, not_cr_p(), i as int);
    }
    if i + 1 < len && slice[i + 1] == LF {
        Ok((slice_subrange(slice, 0, i), i + 2))
    } else {
        Err(Error::Malformed)
    }
}

} // verus!
