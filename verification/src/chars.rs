//! Character-class membership predicates for every grammar position.
//!
//! Each class admits single-byte ASCII only: no byte of value 128 or above is
//! a member of any class. That invariant is what lets the parsers treat a run
//! of class-checked bytes as text without any further decoding.

use vstd::prelude::*;

verus! {

use crate::CR;
use crate::SPACE;

/// A byte that may appear in a request path: the printable ASCII range,
/// excluding the double quote, the angle brackets and the backslash.
pub open spec fn url_safe(b: u8) -> bool {
    &&& 33 <= b <= 126
    &&& b != 34
    &&& b != 60
    &&& b != 62
    &&& b != 92
}

/// A byte that may appear in a header name or a query-parameter name:
/// letters, digits, `-` and `_`.
pub open spec fn header_name_safe(b: u8) -> bool {
    ||| 48 <= b <= 57
    ||| 65 <= b <= 90
    ||| 97 <= b <= 122
    ||| b == 45
    ||| b == 95
}

/// An ASCII letter. A reason phrase must begin with one.
pub open spec fn alpha(b: u8) -> bool {
    ||| 65 <= b <= 90
    ||| 97 <= b <= 122
}

/// A byte that may appear in a reason phrase: letters and the space.
pub open spec fn reason_safe(b: u8) -> bool {
    alpha(b) || b == SPACE
}

/// An ASCII decimal digit, the only bytes of a status code.
pub open spec fn digit(b: u8) -> bool {
    48 <= b <= 57
}

/// The decimal value of a digit byte.
pub open spec fn digit_val(b: u8) -> int {
    b - 48
}

/// `url_safe` as a first-class predicate, for the scanning framework.
pub open spec fn url_safe_p() -> spec_fn(u8) -> bool {
    |b: u8| url_safe(b)
}

/// `header_name_safe` as a first-class predicate.
pub open spec fn name_safe_p() -> spec_fn(u8) -> bool {
    |b: u8| header_name_safe(b)
}

/// `reason_safe` as a first-class predicate.
pub open spec fn reason_safe_p() -> spec_fn(u8) -> bool {
    |b: u8| reason_safe(b)
}

/// `digit` as a first-class predicate.
pub open spec fn digit_p() -> spec_fn(u8) -> bool {
    |b: u8| digit(b)
}

/// "Not a carriage return", the class of header-value bytes.
pub open spec fn not_cr_p() -> spec_fn(u8) -> bool {
    |b: u8| b != CR
}

/// "Not a question mark", the class of URL path bytes; the path scan of the
/// URL parser deliberately applies no character table.
pub open spec fn not_qmark_p() -> spec_fn(u8) -> bool {
    |b: u8| b != 63
}

/// "Not an ampersand", the class of query-parameter value bytes, which are
/// not validated against any character table either.
pub open spec fn not_amp_p() -> spec_fn(u8) -> bool {
    |b: u8| b != 38
}

/// Decides membership in the URL-safe class.
pub fn is_url_safe(b: u8) -> (r: bool)
    ensures
        r == url_safe(b),
{
    33 <= b && b <= 126 && b != 34 && b != 60 && b != 62 && b != 92
}

/// Decides membership in the header-name class.
pub fn is_header_name_safe(b: u8) -> (r: bool)
    ensures
        r == header_name_safe(b),
{
    (48 <= b && b <= 57) || (65 <= b && b <= 90) || (97 <= b && b <= 122) || b == 45 || b == 95
}

/// Decides whether a byte is an ASCII letter.
pub fn is_alpha(b: u8) -> (r: bool)
    ensures
        r == alpha(b),
{
    (65 <= b && b <= 90) || (97 <= b && b <= 122)
}

/// Decides membership in the reason-phrase class.
pub fn is_reason_safe(b: u8) -> (r: bool)
    ensures
        r == reason_safe(b),
{
    is_alpha(b) || b == SPACE
}

/// Decides whether a byte is an ASCII decimal digit.
pub fn is_digit(b: u8) -> (r: bool)
    ensures
        r == digit(b),
{
    48 <= b && b <= 57
}

/// No class admits a byte of value 128 or above, nor any control byte: every
/// classified byte is printable single-byte ASCII (the horizontal tab and the
/// space are the only exceptions, and only where a class names them).
pub proof fn lemma_classes_ascii_only(b: u8)
    ensures
        url_safe(b) ==> 33 <= b <= 126,
        header_name_safe(b) ==> 45 <= b <= 122,
        reason_safe(b) ==> b == SPACE || (65 <= b <= 122),
        digit(b) ==> 48 <= b <= 57,
{
}

} // verus!
