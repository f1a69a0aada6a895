use vstd::prelude::*;

verus! {

/// Carriage return.
pub const CR: u8 = 0x0d;
/// Line feed.
pub const LF: u8 = 0x0a;
/// Space.
pub const SP: u8 = 0x20;
/// Horizontal tab.
pub const HTAB: u8 = 0x09;
/// `:`, which ends a header name.
pub const COLON: u8 = 0x3a;
/// `?`, which starts the query of a request target.
pub const QUESTION: u8 = 0x3f;
/// `&`, which separates the pairs of a query.
pub const AMPERSAND: u8 = 0x26;
/// `=`, which separates the key of a query pair from its value.
pub const EQUALS: u8 = 0x3d;

/// A letter: the bytes a request method is made of.
pub open spec fn method_byte(b: u8) -> bool {
    (0x41 <= b && b <= 0x5a) || (0x61 <= b && b <= 0x7a)
}

/// A `tchar` of RFC 9110: the bytes a header name is made of.
pub open spec fn header_name_byte(b: u8) -> bool {
    ||| 0x41 <= b && b <= 0x5a
    ||| 0x61 <= b && b <= 0x7a
    ||| 0x30 <= b && b <= 0x39
    ||| b == 0x21 || b == 0x23 || b == 0x24 || b == 0x25 || b == 0x26 || b == 0x27
    ||| b == 0x2a || b == 0x2b || b == 0x2d || b == 0x2e || b == 0x5e || b == 0x5f
    ||| b == 0x60 || b == 0x7c || b == 0x7e
}

/// A byte that may stand in a request target: visible ASCII or any byte from 0x80 up.
pub open spec fn url_byte(b: u8) -> bool {
    (0x21 <= b && b <= 0x7e) || 0x80 <= b
}

/// A byte that may stand in a header value: tab, space, visible ASCII, or any byte from 0x80 up.
pub open spec fn header_value_byte(b: u8) -> bool {
    b == 0x09 || (0x20 <= b && b <= 0x7e) || 0x80 <= b
}

/// An ASCII digit.
pub open spec fn digit_byte(b: u8) -> bool {
    0x30 <= b && b <= 0x39
}

/// Whether `b` may stand in a request method.
pub fn is_method_token(b: u8) -> (r: bool)
    ensures
        r == method_byte(b),
{
    (0x41 <= b && b <= 0x5a) || (0x61 <= b && b <= 0x7a)
}

/// Whether `b` may stand in a header name.
pub fn is_header_name(b: u8) -> (r: bool)
    ensures
        r == header_name_byte(b),
{
    (0x41 <= b && b <= 0x5a) || (0x61 <= b && b <= 0x7a) || (0x30 <= b && b <= 0x39) || b == 0x21
        || b == 0x23 || b == 0x24 || b == 0x25 || b == 0x26 || b == 0x27 || b == 0x2a || b == 0x2b
        || b == 0x2d || b == 0x2e || b == 0x5e || b == 0x5f || b == 0x60 || b == 0x7c || b == 0x7e
}

/// Whether `b` may stand in a request target.
pub fn is_url_token(b: u8) -> (r: bool)
    ensures
        r == url_byte(b),
{
    (0x21 <= b && b <= 0x7e) || 0x80 <= b
}

/// Whether `b` may stand in a header value.
pub fn is_header_value(b: u8) -> (r: bool)
    ensures
        r == header_value_byte(b),
{
    b == 0x09 || (0x20 <= b && b <= 0x7e) || 0x80 <= b
}

/// The table of header-name bytes: entry `i` tells whether byte `i` may stand in a header name.
pub fn token_map() -> (m: [bool; 256])
    ensures
        forall|i: int| 0 <= i < 256 ==> m@[i] == header_name_byte(i as u8),
{
    let mut m = [false; 256];
    let mut i: usize = 0;
    while i < 256
        invariant
            i <= 256,
            forall|j: int| 0 <= j < i ==> m@[j] == header_name_byte(j as u8),
        decreases 256 - i,
    {
        m[i] = is_header_name(i as u8);
        i += 1;
    }
    m
}

} // verus!
