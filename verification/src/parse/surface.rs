use std::collections::HashMap;
use vstd::prelude::*;

verus! {

/// The bytes of a request.
pub struct Request<'buf> {
    buffer: &'buf [u8],
}

/// Header names with their values, by their bytes.
pub struct HeaderMap<'buf> {
    headers: HashMap<&'buf [u8], &'buf [u8]>,
}

/// The bytes of a header name.
pub struct HeaderName<'buf> {
    name: &'buf [u8],
}

/// The bytes of a header value.
pub struct HeaderValue<'buf> {
    value: &'buf [u8],
}

/// A request method; any method other than the standard ones is kept by its bytes.
pub enum Method<'buf> {
    GET,
    POST,
    PUT,
    DELETE,
    HEAD,
    OPTIONS,
    PATCH,
    CONNECT,
    TRACE,
    EXTENSION(&'buf [u8]),
}

/// The forms of a request target (RFC 9112, section 3.2).
pub enum RequestTarget<'buf> {
    Origin { path: &'buf [u8], query: Option<&'buf [u8]> },
    Absolute(&'buf [u8]),
    Authority(&'buf [u8]),
    Asterisk(Option<&'buf [u8]>),
}

/// How the length of a message body is given.
pub enum BodyKind {
    Empty,
    ContentLength(u64),
    Chunked,
}

/// The bytes of a chunked body.
pub struct Chunked<'buf> {
    buffer: &'buf [u8],
}

/// The core rules of the HTTP grammar (RFC 5234, appendix B.1).
pub(crate) enum CoreRule {
    ALPHA,
    DIGIT,
    HEXDIG,
    SP,
    HTAB,
    WSP,
    VCHAR,
    CTL,
    CRLF,
    CR,
    LF,
    DQUOTE,
}

} // verus!
