use vstd::prelude::*;

verus! {

/// The ways in which the bytes of an HTTP head can be malformed.
#[derive(Copy, Clone, Eq, PartialEq, Debug)]
pub enum ParseError {
    HeaderName,
    HeaderValue,
    NewLine,
    StatusCode,
    Token,
    TooManyHeaders,
    Version,
    Reason,
    ReasonInvalidCode,
}

impl ParseError {
    /// The human-readable message of each error.
    pub open spec fn message(self) -> Seq<char> {
        match self {
            ParseError::HeaderName => "invalid header name"@,
            ParseError::HeaderValue => "invalid header value"@,
            ParseError::NewLine => "invalid new line"@,
            ParseError::StatusCode => "invalid response status"@,
            ParseError::Token => "invalid token"@,
            ParseError::TooManyHeaders => "too many headers"@,
            ParseError::Version => "invalid HTTP version"@,
            ParseError::Reason => "invalid reason"@,
            ParseError::ReasonInvalidCode => "invalid reason code"@,
        }
    }

    /// The message that describes this error.
    pub fn description_str(&self) -> (r: &'static str)
        ensures
            r@ == self.message(),
    {
        match *self {
            ParseError::HeaderName => "invalid header name",
            ParseError::HeaderValue => "invalid header value",
            ParseError::NewLine => "invalid new line",
            ParseError::StatusCode => "invalid response status",
            ParseError::Token => "invalid token",
            ParseError::TooManyHeaders => "too many headers",
            ParseError::Version => "invalid HTTP version",
            ParseError::Reason => "invalid reason",
            ParseError::ReasonInvalidCode => "invalid reason code",
        }
    }
}

} // verus!
