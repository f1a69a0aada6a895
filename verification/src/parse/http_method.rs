use vstd::prelude::*;

verus! {

/// A request method; any method other than the standard ones is kept by its bytes.
#[derive(Debug, PartialEq, Eq)]
pub enum Method<'buf> {
    GET,
    POST,
    PUT,
    DELETE,
    HEAD,
    OPTIONS,
    PATCH,
    CONNECT,
    TRACE,
    EXTENSION(&'buf [u8]),
}

} // verus!
