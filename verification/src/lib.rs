//! A strict, zero-copy parser for the textual HTTP/1.x message grammar:
//! request lines, status lines, header blocks, and the path/query portion of
//! an origin-form URL.
//!
//! Every output structure borrows from the caller's input buffer; headers and
//! query parameters are written into fixed-capacity buffers that the caller
//! supplies, so parsing never allocates. Any deviation from the narrow
//! grammar — a bare `\n` where `\r\n` is required, a byte outside the
//! permitted character classes, an over-long status code — is rejected.

use vstd::prelude::*;

pub mod chars;
pub mod header;
pub mod request;
pub mod response;
pub mod scan;
pub mod uri;

pub use header::Error;
pub use header::Header;
pub use header::HttpVer;
pub use request::Method;
pub use request::Request;
pub use response::Response;
pub use uri::QueryParam;
pub use uri::Url;
pub use uri::UrlError;

verus! {

/// The ASCII space byte, the token separator of request and status lines.
pub const SPACE: u8 = 32;

/// The ASCII carriage-return byte; every line terminator is CR followed by LF.
pub const CR: u8 = 13;

/// The ASCII line-feed byte; only ever accepted directly after a CR.
pub const LF: u8 = 10;

/// The ASCII colon byte, which closes a header name.
pub const COLON: u8 = 58;

/// The ASCII horizontal-tab byte, permitted once after a header colon.
pub const HTAB: u8 = 9;

} // verus!
