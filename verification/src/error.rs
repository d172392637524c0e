//! Errors of the HTTP wire-protocol parser.

use vstd::prelude::*;

verus! {

/// A protocol violation found while parsing a request. Every variant is
/// connection-fatal: the caller drops the connection instead of answering.
#[derive(Debug, Clone, Copy, PartialEq, Eq, Structural)]
pub enum HttpError {
    /// The request line's method token is absent.
    MissingMethod,
    /// The request line's path token is absent.
    MissingPath,
    /// The request line's version token is absent.
    MissingVersion,
    /// A header line has an empty name before the `": "` separator.
    MissingHeaderKey,
    /// A header line has no `": "` separator at all.
    MissingHeaderValue,
    /// The `Content-Length` value is not a decimal number that fits in
    /// `usize`, or the body length does not equal it.
    InvalidContentLength,
    /// The input holds no line to read a request line from.
    MissingRequestLine,
    /// A read from the peer produced no request at all.
    EmptyRequestLine,
    /// The request line's version token is not `HTTP/1.1`.
    UnsupportedVersion,
}

} // verus!
