//! The URL parser: an origin-form path and an optional query-parameter
//! list, parsed from an already-extracted path+query byte window.

use vstd::prelude::*;

verus! {

use crate::chars::header_name_safe;
use crate::chars::is_header_name_safe;
use crate::chars::name_safe_p;
use crate::chars::not_amp_p;
use crate::chars::not_qmark_p;
use crate::scan::lemma_scan_while;
use crate::scan::lemma_scan_while_at;
use crate::scan::lemma_scan_while_none;
use crate::scan::scan_while;
use vstd::slice::slice_subrange;

/// The ASCII slash byte, which every parsed path must open with.
pub const SLASH: u8 = 47;

/// The ASCII question-mark byte, which separates path from query.
pub const QMARK: u8 = 63;

/// The ASCII equals-sign byte, which separates a parameter name from its
/// value.
pub const EQUALS: u8 = 61;

/// The ASCII ampersand byte, which separates one query parameter from the
/// next.
pub const AMP: u8 = 38;

/// All errors that could result from parsing a URL.
#[derive(Debug, PartialEq, Eq, Clone, Copy)]
pub enum UrlError {
    /// An error while parsing the path part of the URL.
    Path,
    /// An error while parsing the query-parameter part of the URL.
    Query,
    /// The URL has more query parameters than the buffer the caller passed.
    TooManyQueryParams,
}

/// A URL query parameter, both halves borrowed from the parsed input.
#[derive(Debug, PartialEq, Eq, Clone, Copy, Hash)]
pub struct QueryParam<'a> {
    /// The name of the query parameter.
    pub name: &'a [u8],
    /// The value of the query parameter.
    pub val: &'a [u8],
}

impl<'a> View for QueryParam<'a> {
    type V = (Seq<u8>, Seq<u8>);

    open spec fn view(&self) -> (Seq<u8>, Seq<u8>) {
        (self.name@, self.val@)
    }
}

impl<'a> QueryParam<'a> {
    /// Create a new query parameter with the given name and value.
    pub fn new(name: &'a [u8], val: &'a [u8]) -> (r: Self)
        ensures
            r@ == (name@, val@),
    {
        Self { name, val }
    }
}

/// The `(name, value)` pairs a sequence of query parameters holds.
pub open spec fn query_model<'a>(qs: Seq<QueryParam<'a>>) -> Seq<(Seq<u8>, Seq<u8>)> {
    Seq::new(qs.len(), |i: int| qs[i]@)
}

/// The path half: it must open with a slash and runs to the first question
/// mark, which the count consumed includes, or to the end of the window.
/// No character table applies here; the window is taken to be a path a
/// stricter scan already validated.
pub open spec fn spec_parse_url_path(s: Seq<u8>) -> Result<(Seq<u8>, int), UrlError> {
    if s.len() == 0 || s[0] != SLASH {
        Err(UrlError::Path)
    } else {
        match scan_while(s, not_qmark_p()) {
            None => Ok((s, s.len() as int)),
            Some(i) => Ok((s.subrange(0, i), i + 1)),
        }
    }
}

/// One parameter name: name-safe bytes up to an equals sign, at least one
/// of them. The count consumed includes the equals sign.
pub open spec fn spec_parse_query_name(s: Seq<u8>) -> Result<(Seq<u8>, int), UrlError> {
    match scan_while(s, name_safe_p()) {
        None => Err(UrlError::Query),
        Some(i) => {
            if s[i] == EQUALS && i >= 1 {
                Ok((s.subrange(0, i), i + 1))
            } else {
                Err(UrlError::Query)
            }
        },
    }
}

/// One parameter value: anything up to the next ampersand, whose consumed
/// count includes it, or to the end of the window. A value may be empty and
/// no character table applies to it.
pub open spec fn spec_parse_query_value(s: Seq<u8>) -> (Seq<u8>, int) {
    match scan_while(s, not_amp_p()) {
        None => (s, s.len() as int),
        Some(i) => (s.subrange(0, i), i + 1),
    }
}

/// A parsed parameter name sits at the front of `s`: its equals sign is
/// consumed, and no more than the whole window.
pub proof fn lemma_query_name_bounds(s: Seq<u8>)
    ensures
        spec_parse_query_name(s) matches Ok((name, n)) ==> name.len() == n - 1 && 2 <= n
            <= s.len(),
{
    lemma_scan_while(s, name_safe_p());
}

/// A parsed parameter value consumes no more than the whole window.
pub proof fn lemma_query_value_bounds(s: Seq<u8>)
    ensures
        0 <= spec_parse_query_value(s).1 <= s.len(),
        spec_parse_query_value(s).0.len() <= spec_parse_query_value(s).1,
{
    lemma_scan_while(s, not_amp_p());
}

/// The query half: `name=value` pairs separated by ampersands until the
/// window is exhausted, at most `cap` of them, in encounter order;
/// duplicate names are kept as separate pairs.
pub open spec fn spec_parse_query_params(s: Seq<u8>, cap: nat) -> Result<
    Seq<(Seq<u8>, Seq<u8>)>,
    UrlError,
>
    decreases s.len(),
    via spec_parse_query_params_dec
{
    if s.len() == 0 {
        Ok(seq![])
    } else if cap == 0 {
        Err(UrlError::TooManyQueryParams)
    } else {
        match spec_parse_query_name(s) {
            Err(e) => Err(e),
            Ok((name, n1)) => {
                let (val, n2) = spec_parse_query_value(s.skip(n1));
                match spec_parse_query_params(s.skip(n1 + n2), (cap - 1) as nat) {
                    Err(e) => Err(e),
                    Ok(rest) => Ok(seq![(name, val)] + rest),
                }
            },
        }
    }
}

#[via_fn]
proof fn spec_parse_query_params_dec(s: Seq<u8>, cap: nat) {
    lemma_query_name_bounds(s);
    if let Ok((name, n1)) = spec_parse_query_name(s) {
        lemma_query_value_bounds(s.skip(n1));
    }
}

/// The mathematical content of a parsed URL.
#[verifier::ext_equal]
pub struct SpecUrl {
    /// The path bytes, without the question mark that may close them.
    pub path: Seq<u8>,
    /// The query pairs in encounter order, or `None` when the path runs to
    /// the end of the window or the caller opted out with an empty buffer.
    pub query_params: Option<Seq<(Seq<u8>, Seq<u8>)>>,
}

/// A whole URL window: the path, then — only when a question mark stopped
/// the path scan and the caller's buffer has room at all — the query block.
/// A zero-capacity buffer is a caller opt-out: the query half is skipped
/// and reported as `None`, question mark or not.
pub open spec fn spec_parse_url(s: Seq<u8>, cap: nat) -> Result<SpecUrl, UrlError> {
    match spec_parse_url_path(s) {
        Err(e) => Err(e),
        Ok((path, n)) => {
            if n == s.len() || cap == 0 {
                Ok(SpecUrl { path, query_params: None })
            } else {
                match spec_parse_query_params(s.skip(n), cap) {
                    Err(e) => Err(e),
                    Ok(qs) => Ok(SpecUrl { path, query_params: Some(qs) }),
                }
            }
        },
    }
}

/// The opt-out law of the query buffer: with a zero-capacity buffer a
/// successful URL parse reports no query parameters, whether or not a
/// question mark closed the path.
pub proof fn lemma_zero_capacity_no_query(s: Seq<u8>)
    ensures
        spec_parse_url(s, 0) matches Ok(m) ==> m.query_params is None,
{
}

/// The capacity law of the query block: a block whose parameters outnumber
/// a buffer's capacity parses with that (non-empty) buffer to
/// `TooManyQueryParams`, never to a truncated result.
pub proof fn lemma_query_capacity(s: Seq<u8>, cap: nat, cap2: nat)
    requires
        spec_parse_query_params(s, cap) matches Ok(qs) && cap2 < qs.len(),
    ensures
        spec_parse_query_params(s, cap2) matches Err(e) && e == UrlError::TooManyQueryParams,
    decreases s.len(),
{
    lemma_query_name_bounds(s);
    if let Ok((name, n1)) = spec_parse_query_name(s) {
        lemma_query_value_bounds(s.skip(n1));
        let (val, n2) = spec_parse_query_value(s.skip(n1));
        if cap2 > 0 {
            lemma_query_capacity(s.skip(n1 + n2), (cap - 1) as nat, (cap2 - 1) as nat);
        }
    }
}

/// The path and query-parameter part of an HTTP URL. The path borrows from
/// the parsed input; the query parameters, when present, are the caller's
/// whole query buffer, parsed slots first.
#[derive(Debug, PartialEq, Eq, Clone)]
pub struct Url<'a, 'queries> {
    /// The path part of the URL.
    pub path: &'a [u8],
    /// The query-parameter part of the URL.
    pub query_params: Option<&'queries [QueryParam<'a>]>,
}

impl<'a, 'queries> Url<'a, 'queries> {
    /// Construct a new `Url` from its parts; an empty path is normalized to
    /// the root path `/`. (The parsing entry point performs no such
    /// normalization: there a missing leading slash is a hard failure.)
    pub fn new(path: &'a [u8], query_params: Option<&'queries [QueryParam<'a>]>) -> (r: Url<
        'a,
        'queries,
    >)
        ensures
            path@.len() == 0 ==> r.path@ == seq![SLASH],
            path@.len() > 0 ==> r.path@ == path@,
            match (r.query_params, query_params) {
                (None, None) => true,
                (Some(a), Some(b)) => a@ == b@,
                _ => false,
            },
    {
        if path.len() == 0 {
            let root: &'static [u8] = &[SLASH];
            assert(root@ =~= seq![SLASH]);
            return Url { path: root, query_params };
        }
        Url { path, query_params }
    }

    /// Parses the bytes of an HTTP URL into a `Url`. The window must be
    /// stripped of any scheme and authority, or `Err(UrlError::Path)` is
    /// returned. An empty `queries_buf` opts out of query parsing entirely;
    /// more parameters than the buffer holds yield
    /// `Err(UrlError::TooManyQueryParams)`; buffer slots beyond the parsed
    /// parameters keep their previous contents.
    pub fn parse(slice: &'a [u8], queries_buf: &'queries mut [QueryParam<'a>]) -> (r: Result<
        Url<'a, 'queries>,
        UrlError,
    >)
        ensures
            final(queries_buf)@.len() == old(queries_buf)@.len(),
            match r {
                Ok(url) => spec_parse_url(slice@, old(queries_buf)@.len() as nat) matches Ok(m)
                    && url.path@ == m.path && (match (url.query_params, m.query_params) {
                    (None, None) => final(queries_buf)@ == old(queries_buf)@,
                    (Some(qp), Some(qs)) => qp@ == final(queries_buf)@ && qs.len() <= old(
                        queries_buf,
                    )@.len() && (forall|i: int| 0 <= i < qs.len() ==> qp@[i]@ == qs[i]) && (forall|
                        i: int,
                    |
                        qs.len() <= i < old(queries_buf)@.len() ==> qp@[i] == old(
                            queries_buf,
                        )@[i]),
                    _ => false,
                }),
                Err(e) => spec_parse_url(slice@, old(queries_buf)@.len() as nat) matches Err(e2)
                    && e2 == e,
            },
    {
        let len = slice.len();
        let (path, read1) = match parse_url_path(slice) {
            Ok(x) => x,
            Err(e) => {
                return Err(e);
            },
        };
        proof {
            lemma_url_path_bounds(slice@);
        }
        if read1 == len || queries_buf.len() == 0 {
            return Ok(Url { path, query_params: None });
        }
        let rest = slice_subrange(slice, read1, len);
        assert(rest@ =~= slice@.skip(read1 as int));
        match parse_query_params(rest, queries_buf) {
            Ok(_) => Ok(Url { path, query_params: Some(queries_buf) }),
            Err(e) => Err(e),
        }
    }
}

/// A parsed path consumes at least its slash and no more than the window.
pub proof fn lemma_url_path_bounds(s: Seq<u8>)
    ensures
        spec_parse_url_path(s) matches Ok((p, n)) ==> 1 <= n <= s.len() && p.len() <= s.len(),
{
    lemma_scan_while(s, not_qmark_p());
}

/// Scans the path and the question mark that may close it.
fn parse_url_path<'a>(slice: &'a [u8]) -> (r: Result<(&'a [u8], usize), UrlError>)
    ensures
        match r {
            Ok((p, n)) => spec_parse_url_path(slice@) matches Ok((p2, n2)) && p2 == p@ && n2 == n,
            Err(e) => spec_parse_url_path(slice@) matches Err(e2) && e2 == e,
        },
{
    let len = slice.len();
    if len == 0 || slice[0] != SLASH {
        return Err(UrlError::Path);
    }
    let mut i: usize = 0;
    while i < len && slice[i] != QMARK
        invariant
            i <= len,
            len == slice@.len(),
            forall|j: int| 0 <= j < i ==> slice@[j] != QMARK,
        decreases len - i,
    {
        i = i + 1;
    }
    if i == len {
        proof {
            lemma_scan_while_none(slice@, not_qmark_p());
        }
        Ok((slice, len))
    } else {
        proof {
            lemma_scan_while_at(slice@, not_qmark_p(), i as int);
        }
        Ok((slice_subrange(slice, 0, i), i + 1))
    }
}

/// Parses the query block at the front of `slice` into `queries_buf`,
/// filling slots in encounter order and leaving the rest untouched.
fn parse_query_params<'a>(slice: &'a [u8], queries_buf: &mut [QueryParam<'a>]) -> (r: Result<
    (),
    UrlError,
>)
    ensures
        final(queries_buf)@.len() == old(queries_buf)@.len(),
        match r {
            Ok(_) => spec_parse_query_params(slice@, old(queries_buf)@.len() as nat) matches Ok(qs)
                && qs.len() <= old(queries_buf)@.len() && (forall|i: int|
                0 <= i < qs.len() ==> final(queries_buf)@[i]@ == qs[i]) && (forall|i: int|
                qs.len() <= i < old(queries_buf)@.len() ==> final(queries_buf)@[i] == old(
                    queries_buf,
                )@[i]),
            Err(e) => spec_parse_query_params(slice@, old(queries_buf)@.len() as nat) matches Err(
                e2,
            ) && e2 == e,
        },
{
    let ghost buf0 = queries_buf@;
    let ghost cap = queries_buf@.len() as nat;
    let len = slice.len();
    let mut offset: usize = 0;
    let mut iteration: usize = 0;
    proof {
        assert(slice@.skip(0) =~= slice@);
        if let Ok(qs) = spec_parse_query_params(slice@, cap) {
            assert(query_model(queries_buf@.take(0)) + qs =~= qs);
        }
    }
    loop
        invariant
            buf0 == old(queries_buf)@,
            len == slice@.len(),
            offset <= len,
            iteration <= cap,
            cap == buf0.len(),
            queries_buf@.len() == buf0.len(),
            forall|k: int| iteration <= k < cap ==> queries_buf@[k] == buf0[k],
            match spec_parse_query_params(slice@.skip(offset as int), (cap - iteration) as nat) {
                Ok(qs) => spec_parse_query_params(slice@, cap) matches Ok(qs2) && qs2
                    == query_model(queries_buf@.take(iteration as int)) + qs,
                Err(e) => spec_parse_query_params(slice@, cap) matches Err(e2) && e2 == e,
            },
        decreases len - offset,
    {
        let ghost rem = slice@.skip(offset as int);
        let ghost c = (cap - iteration) as nat;
        if offset == len {
            proof {
                let qs2 = query_model(queries_buf@.take(iteration as int));
                assert(qs2 + Seq::<(Seq<u8>, Seq<u8>)>::empty() =~= qs2);
            }
            return Ok(());
        }
        if iteration >= queries_buf.len() {
            assert(spec_parse_query_params(rem, c) matches Err(e) && e
                == UrlError::TooManyQueryParams);
            return Err(UrlError::TooManyQueryParams);
        }
        let rest = slice_subrange(slice, offset, len);
        assert(rest@ =~= rem);
        let (name_bytes, n1) = match parse_query_name(rest) {
            Ok(x) => x,
            Err(e) => {
                assert(spec_parse_query_params(rem, c) matches Err(e2) && e2 == e);
                return Err(e);
            },
        };
        proof {
            lemma_query_name_bounds(rem);
        }
        let rest2 = slice_subrange(slice, offset + n1, len);
        assert(rest2@ =~= rem.skip(n1 as int));
        let (val_bytes, n2) = parse_query_value(rest2);
        proof {
            lemma_query_value_bounds(rem.skip(n1 as int));
        }
        queries_buf[iteration] = QueryParam::new(name_bytes, val_bytes);
        proof {
            let rem2 = slice@.skip(offset as int + n1 + n2);
            assert(rem.skip(n1 as int + n2 as int) =~= rem2);
            let pair = (name_bytes@, val_bytes@);
            assert(spec_parse_query_params(rem, c) == (match spec_parse_query_params(
                rem2,
                (c - 1) as nat,
            ) {
                Ok(rest_qs) => Ok::<Seq<(Seq<u8>, Seq<u8>)>, UrlError>(seq![pair] + rest_qs),
                Err(e) => Err(e),
            }));
            let nb = queries_buf@;
            let a = query_model(nb.take(iteration as int));
            let b = query_model(nb.take(iteration as int + 1));
            assert(b =~= a.push(pair));
            if let Ok(qs3) = spec_parse_query_params(rem2, (c - 1) as nat) {
                assert(a + (seq![pair] + qs3) =~= b + qs3);
            }
        }
        offset = offset + n1 + n2;
        iteration = iteration + 1;
    }
}

/// Scans one parameter name and its equals sign.
fn parse_query_name<'a>(slice: &'a [u8]) -> (r: Result<(&'a [u8], usize), UrlError>)
    ensures
        match r {
            Ok((name, n)) => spec_parse_query_name(slice@) matches Ok((n2, m2)) && n2 == name@
                && m2 == n,
            Err(e) => spec_parse_query_name(slice@) matches Err(e2) && e2 == e,
        },
{
    let len = slice.len();
    let mut i: usize = 0;
    while i < len && is_header_name_safe(slice[i])
        invariant
            i <= len,
            len == slice@.len(),
            forall|j: int| 0 <= j < i ==> header_name_safe(slice@[j]),
        decreases len - i,
    {
        i = i + 1;
    }
    if i == len {
        proof {
            lemma_scan_while_none(slice@, name_safe_p());
        }
        return Err(UrlError::Query);
    }
    proof {
        lemma_scan_while_at(slice@, name_safe_p(), i as int);
    }
    if slice[i] == EQUALS && i >= 1 {
        Ok((slice_subrange(slice, 0, i), i + 1))
    } else {
        Err(UrlError::Query)
    }
}

/// Scans one parameter value and the ampersand that may close it.
fn parse_query_value<'a>(slice: &'a [u8]) -> (r: (&'a [u8], usize))
    ensures
        spec_parse_query_value(slice@) == (r.0@, r.1 as int),
{
    let len = slice.len();
    let mut i: usize = 0;
    while i < len && slice[i] != AMP
        invariant
            i <= len,
            len == slice@.len(),
            forall|j: int| 0 <= j < i ==> slice@[j] != AMP,
        decreases len - i,
    {
        i = i + 1;
    }
    if i == len {
        proof {
            lemma_scan_while_none(slice@, not_amp_p());
            assert(slice@.subrange(0, len as int) =~= slice@);
        }
        (slice, len)
    } else {
        proof {
            lemma_scan_while_at(slice@, not_amp_p(), i as int);
        }
        (slice_subrange(slice, 0, i), i + 1)
    }
}

} // verus!
