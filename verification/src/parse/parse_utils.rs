use crate::parse::error::ParseError;
use crate::parse::iter::{bytes_eq, ParseBuffer};
use crate::parse::parser::Status;
pub use crate::parse::uri::Uri;
use crate::parse::tchar::{
    digit_byte, header_name_byte, header_value_byte, is_header_name, is_header_value, is_method_token,
    is_url_token, method_byte, url_byte, COLON, CR, HTAB, LF, QUESTION, SP,
};
use vstd::prelude::*;
use vstd::string::StringSliceAdditionalSpecFns;
use vstd::utf8::valid_utf8;

verus! {

/// The number of bytes the parser examines at once.
pub const BLOCK_SIZE: usize = 8;

/// What a parsing step leaves behind: its result, where the buffer's `start` and cursor end up,
/// and whether the step would stop the program on these bytes (`fault`).
pub ghost struct Scan<T> {
    pub res: Result<Status<T>, ParseError>,
    pub start: int,
    pub cursor: int,
    pub fault: bool,
}

/// A step that ends with `res`, `start` and `cursor`, and does not stop the program.
pub open spec fn scan<T>(res: Result<Status<T>, ParseError>, start: int, cursor: int) -> Scan<T> {
    Scan { res, start, cursor, fault: false }
}

/// The buffer `b1` is where a step described by `s` leaves `b0`.
pub open spec fn follows<T>(b0: ParseBuffer, b1: ParseBuffer, s: Scan<T>) -> bool {
    &&& b1.buf == b0.buf
    &&& b1.start == s.start
    &&& b1.cursor == s.cursor
}

/// A string result taken by its bytes.
pub open spec fn str_status(r: Result<Status<&str>, ParseError>) -> Result<Status<Seq<u8>>, ParseError> {
    match r {
        Ok(Status::Complete(s)) => Ok(Status::Complete(s.spec_bytes())),
        Ok(Status::Partial) => Ok(Status::Partial),
        Err(e) => Err(e),
    }
}

/// The first index from `c` on at which `buf` holds a byte that is not `p`, or the length of
/// `buf` when there is none.
pub open spec fn scan_while(buf: Seq<u8>, c: int, p: spec_fn(u8) -> bool) -> int
    decreases buf.len() - c,
{
    if c >= buf.len() {
        c
    } else if !p(buf[c]) {
        c
    } else {
        scan_while(buf, c + 1, p)
    }
}

/// Skipping bytes that are `p` from within the buffer ends within it, after bytes that are all
/// `p`, at a byte that is not.
pub proof fn lemma_scan_while(buf: Seq<u8>, c: int, p: spec_fn(u8) -> bool)
    requires
        0 <= c <= buf.len(),
    ensures
        c <= scan_while(buf, c, p) <= buf.len(),
        forall|i: int| c <= i < scan_while(buf, c, p) ==> p(#[trigger] buf[i]),
        scan_while(buf, c, p) < buf.len() ==> !p(buf[scan_while(buf, c, p)]),
    decreases buf.len() - c,
{
    if c < buf.len() && p(buf[c]) {
        lemma_scan_while(buf, c + 1, p);
    }
}

/// Skipping never moves backwards.
pub proof fn lemma_scan_while_ge(buf: Seq<u8>, c: int, p: spec_fn(u8) -> bool)
    ensures
        c <= scan_while(buf, c, p),
    decreases buf.len() - c,
{
    if c < buf.len() && p(buf[c]) {
        lemma_scan_while_ge(buf, c + 1, p);
    }
}

/// Skipping from within the buffer stays within it.
pub proof fn lemma_scan_while_le(buf: Seq<u8>, c: int, p: spec_fn(u8) -> bool)
    requires
        c <= buf.len(),
    ensures
        scan_while(buf, c, p) <= buf.len(),
    decreases buf.len() - c,
{
    if c < buf.len() && p(buf[c]) {
        lemma_scan_while_le(buf, c + 1, p);
    }
}

/// Skipping bytes that are `p` from `c` ends where it would end from any point before that end.
pub proof fn lemma_scan_while_mid(buf: Seq<u8>, c: int, d: int, p: spec_fn(u8) -> bool)
    requires
        0 <= c <= d <= buf.len(),
        forall|i: int| c <= i < d ==> p(#[trigger] buf[i]),
    ensures
        scan_while(buf, c, p) == scan_while(buf, d, p),
    decreases d - c,
{
    if c < d {
        lemma_scan_while_mid(buf, c + 1, d, p);
    }
}

/// A byte that may stand in a reason phrase.
pub open spec fn reason_byte(b: u8) -> bool {
    b == 0x09 || b == 0x20 || (0x21 <= b && b <= 0x7e) || b >= 0x80
}


/// Skipping the empty lines (`\r\n` or `\n`) that may come before a start line; the next slice
/// starts at the first other byte.
pub open spec fn skip_empty_line_spec(buf: Seq<u8>, s: int, c: int) -> Scan<()>
    decreases buf.len() - c,
{
    if c >= buf.len() {
        scan(Ok(Status::Partial), s, c)
    } else if buf[c] == CR {
        if c + 1 >= buf.len() {
            scan(Ok(Status::Partial), s, c + 1)
        } else if buf[c + 1] != LF {
            scan(Err(ParseError::NewLine), s, c + 2)
        } else {
            skip_empty_line_spec(buf, s, c + 2)
        }
    } else if buf[c] == LF {
        skip_empty_line_spec(buf, s, c + 1)
    } else {
        scan(Ok(Status::Complete(())), c, c)
    }
}

/// Skipping spaces; the next slice starts at the first other byte.
pub open spec fn skip_space_line_spec(buf: Seq<u8>, s: int, c: int) -> Scan<()>
    decreases buf.len() - c,
{
    if c >= buf.len() {
        scan(Ok(Status::Partial), s, c)
    } else if buf[c] == SP {
        skip_space_line_spec(buf, s, c + 1)
    } else {
        scan(Ok(Status::Complete(())), c, c)
    }
}

/// The value of three ASCII digits.
pub open spec fn three_digits(b0: u8, b1: u8, b2: u8) -> u16 {
    ((b0 - 0x30) * 100 + (b1 - 0x30) * 10 + (b2 - 0x30)) as u16
}

/// Reading a three-digit status code.
pub open spec fn parse_status_code_spec(buf: Seq<u8>, s: int, c: int) -> Scan<u16> {
    if c >= buf.len() {
        scan(Ok(Status::Partial), s, c)
    } else if !digit_byte(buf[c]) {
        scan(Err(ParseError::StatusCode), s, c + 1)
    } else if c + 1 >= buf.len() {
        scan(Ok(Status::Partial), s, c + 1)
    } else if !digit_byte(buf[c + 1]) {
        scan(Err(ParseError::StatusCode), s, c + 2)
    } else if c + 2 >= buf.len() {
        scan(Ok(Status::Partial), s, c + 2)
    } else if !digit_byte(buf[c + 2]) {
        scan(Err(ParseError::StatusCode), s, c + 3)
    } else {
        scan(Ok(Status::Complete(three_digits(buf[c], buf[c + 1], buf[c + 2]))), s, c + 3)
    }
}

/// Skips the empty lines that may come before a start line, and starts the next slice at the
/// first other byte.
pub fn skip_empty_line(bytes: &mut ParseBuffer) -> (r: Result<Status<()>, ParseError>)
    requires
        old(bytes).wf(),
    ensures
        final(bytes).wf(),
        follows(
            *old(bytes),
            *final(bytes),
            skip_empty_line_spec(old(bytes).buf@, old(bytes).start as int, old(bytes).cursor as int),
        ),
        r == skip_empty_line_spec(
            old(bytes).buf@,
            old(bytes).start as int,
            old(bytes).cursor as int,
        ).res,
{
    let ghost spec = skip_empty_line_spec(
        old(bytes).buf@,
        old(bytes).start as int,
        old(bytes).cursor as int,
    );
    let mut result: Result<Status<()>, ParseError> = Ok(Status::Partial);
    loop
        invariant_except_break
            bytes.wf(),
            bytes.buf == old(bytes).buf,
            bytes.start == old(bytes).start,
            skip_empty_line_spec(bytes.buf@, bytes.start as int, bytes.cursor as int) == spec,
        ensures
            bytes.wf(),
            follows(*old(bytes), *bytes, spec),
            result == spec.res,
        decreases bytes.buf@.len() - bytes.cursor,
    {
        let b = bytes.peek();
        match b {
            Some(b) => {
                if b == CR {
                    let _ = bytes.advance(1);
                    match bytes.next_byte() {
                        Some(n) => {
                            if n != LF {
                                result = Err(ParseError::NewLine);
                                break;
                            }
                        },
                        None => {
                            result = Ok(Status::Partial);
                            break;
                        },
                    }
                } else if b == LF {
                    let _ = bytes.advance(1);
                } else {
                    let _ = bytes.slice();
                    result = Ok(Status::Complete(()));
                    break;
                }
            },
            None => {
                result = Ok(Status::Partial);
                break;
            },
        }
    }
    result
}

/// Skips spaces, and starts the next slice at the first other byte.
pub fn skip_space_line(bytes: &mut ParseBuffer) -> (r: Result<Status<()>, ParseError>)
    requires
        old(bytes).wf(),
    ensures
        final(bytes).wf(),
        follows(
            *old(bytes),
            *final(bytes),
            skip_space_line_spec(old(bytes).buf@, old(bytes).start as int, old(bytes).cursor as int),
        ),
        r == skip_space_line_spec(
            old(bytes).buf@,
            old(bytes).start as int,
            old(bytes).cursor as int,
        ).res,
{
    let ghost spec = skip_space_line_spec(
        old(bytes).buf@,
        old(bytes).start as int,
        old(bytes).cursor as int,
    );
    let mut result: Result<Status<()>, ParseError> = Ok(Status::Partial);
    loop
        invariant_except_break
            bytes.wf(),
            bytes.buf == old(bytes).buf,
            bytes.start == old(bytes).start,
            skip_space_line_spec(bytes.buf@, bytes.start as int, bytes.cursor as int) == spec,
        ensures
            bytes.wf(),
            follows(*old(bytes), *bytes, spec),
            result == spec.res,
        decreases bytes.buf@.len() - bytes.cursor,
    {
        let b = bytes.peek();
        match b {
            Some(b) => {
                if b == SP {
                    let _ = bytes.advance(1);
                } else {
                    let _ = bytes.slice();
                    result = Ok(Status::Complete(()));
                    break;
                }
            },
            None => {
                result = Ok(Status::Partial);
                break;
            },
        }
    }
    result
}

/// Reads a three-digit status code.
pub fn parse_status_code(bytes: &mut ParseBuffer) -> (r: Result<Status<u16>, ParseError>)
    requires
        old(bytes).wf(),
    ensures
        final(bytes).wf(),
        follows(
            *old(bytes),
            *final(bytes),
            parse_status_code_spec(
                old(bytes).buf@,
                old(bytes).start as int,
                old(bytes).cursor as int,
            ),
        ),
        r == parse_status_code_spec(
            old(bytes).buf@,
            old(bytes).start as int,
            old(bytes).cursor as int,
        ).res,
{
    let hundreds = match bytes.next_byte() {
        Some(b) => b,
        None => return Ok(Status::Partial),
    };
    if !(0x30 <= hundreds && hundreds <= 0x39) {
        return Err(ParseError::StatusCode);
    }
    let ten = match bytes.next_byte() {
        Some(b) => b,
        None => return Ok(Status::Partial),
    };
    if !(0x30 <= ten && ten <= 0x39) {
        return Err(ParseError::StatusCode);
    }
    let one = match bytes.next_byte() {
        Some(b) => b,
        None => return Ok(Status::Partial),
    };
    if !(0x30 <= one && one <= 0x39) {
        return Err(ParseError::StatusCode);
    }
    Ok(
        Status::Complete(
            (hundreds - 0x30) as u16 * 100 + (ten - 0x30) as u16 * 10 + (one - 0x30) as u16,
        ),
    )
}


/// The set of bytes of a request target.
pub open spec fn url_set() -> spec_fn(u8) -> bool {
    |b: u8| url_byte(b)
}

/// The set of bytes of a header value.
pub open spec fn value_set() -> spec_fn(u8) -> bool {
    |b: u8| header_value_byte(b)
}

/// The set of bytes of a header name.
pub open spec fn name_set() -> spec_fn(u8) -> bool {
    |b: u8| header_name_byte(b)
}

/// The set of bytes of a request method.
pub open spec fn method_set() -> spec_fn(u8) -> bool {
    |b: u8| method_byte(b)
}

/// The set of bytes of a reason phrase.
pub open spec fn reason_set() -> spec_fn(u8) -> bool {
    |b: u8| reason_byte(b)
}

/// The index of the first byte of `b` that is not a request-target byte, or the block size.
pub fn match_uri_char(b: [u8; BLOCK_SIZE]) -> (r: usize)
    ensures
        r <= BLOCK_SIZE,
        forall|j: int| 0 <= j < r ==> url_byte(#[trigger] b@[j]),
        r < BLOCK_SIZE ==> !url_byte(b@[r as int]),
{
    let mut i: usize = 0;
    while i < BLOCK_SIZE
        invariant
            i <= BLOCK_SIZE,
            forall|j: int| 0 <= j < i ==> url_byte(#[trigger] b@[j]),
        decreases BLOCK_SIZE - i,
    {
        let x = b[i];
        if x < 33 || x == 127 {
            return i;
        }
        i += 1;
    }
    BLOCK_SIZE
}

/// The index of the first byte of `b` below 0x20 or equal to 0x7f, or the block size.
pub fn match_header_value_char(b: [u8; BLOCK_SIZE]) -> (r: usize)
    ensures
        r <= BLOCK_SIZE,
        forall|j: int|
            0 <= j < r ==> header_value_byte(#[trigger] b@[j]) && b@[j] != HTAB,
        r < BLOCK_SIZE ==> (b@[r as int] < 32 || b@[r as int] == 127),
{
    let mut i: usize = 0;
    while i < BLOCK_SIZE
        invariant
            i <= BLOCK_SIZE,
            forall|j: int| 0 <= j < i ==> header_value_byte(#[trigger] b@[j]) && b@[j] != HTAB,
        decreases BLOCK_SIZE - i,
    {
        let x = b[i];
        if x < 32 || x == 127 {
            return i;
        }
        i += 1;
    }
    BLOCK_SIZE
}

/// The index of the first byte of the block for which `f` is false, or the block size.
pub fn match_full_block_size(f: impl Fn(u8) -> bool, b: [u8; BLOCK_SIZE]) -> (r: usize)
    requires
        forall|x: u8| f.requires((x,)),
    ensures
        r <= BLOCK_SIZE,
        forall|j: int| 0 <= j < r ==> f.ensures((#[trigger] b@[j],), true),
        r < BLOCK_SIZE ==> f.ensures((b@[r as int],), false),
{
    let mut i: usize = 0;
    while i < BLOCK_SIZE
        invariant
            i <= BLOCK_SIZE,
            forall|x: u8| f.requires((x,)),
            forall|j: int| 0 <= j < i ==> f.ensures((#[trigger] b@[j],), true),
        decreases BLOCK_SIZE - i,
    {
        if !f(b[i]) {
            return i;
        }
        i += 1;
    }
    BLOCK_SIZE
}

/// The index of the first byte of `block` for which `f` is false, or its length.
pub fn match_block_size(f: impl Fn(u8) -> bool, block: &[u8]) -> (r: usize)
    requires
        forall|x: u8| f.requires((x,)),
    ensures
        r <= block@.len(),
        forall|j: int| 0 <= j < r ==> f.ensures((#[trigger] block@[j],), true),
        r < block@.len() ==> f.ensures((block@[r as int],), false),
{
    let mut i: usize = 0;
    while i < block.len()
        invariant
            i <= block@.len(),
            forall|x: u8| f.requires((x,)),
            forall|j: int| 0 <= j < i ==> f.ensures((#[trigger] block@[j],), true),
        decreases block@.len() - i,
    {
        if !f(block[i]) {
            return i;
        }
        i += 1;
    }
    block.len()
}

/// Moves the cursor past the request-target bytes under it.
pub fn match_uri_token(b: &mut ParseBuffer)
    requires
        old(b).wf(),
    ensures
        final(b).wf(),
        final(b).buf == old(b).buf,
        final(b).start == old(b).start,
        final(b).cursor == scan_while(old(b).buf@, old(b).cursor as int, url_set()),
{
    let ghost target = scan_while(b.buf@, b.cursor as int, url_set());
    proof {
        lemma_scan_while(b.buf@, b.cursor as int, url_set());
    }
    loop
        invariant_except_break
            b.wf(),
            b.buf == old(b).buf,
            b.start == old(b).start,
            old(b).cursor <= b.cursor <= target,
            target == scan_while(b.buf@, b.cursor as int, url_set()),
        ensures
            b.wf(),
            b.buf == old(b).buf,
            b.start == old(b).start,
            b.cursor == target,
        decreases b.buf@.len() - b.cursor,
    {
        let ghost c = b.cursor as int;
        proof {
            lemma_scan_while(b.buf@, c, url_set());
        }
        if let Some(b8) = b.peek_after_cursor::<BLOCK_SIZE>() {
            let n = match_uri_char(b8);
            let _ = b.advance(n);
            proof {
                assert forall|i: int| c <= i < c + n implies url_set()(#[trigger] b.buf@[i]) by {
                    assert(b.buf@[i] == b8@[i - c]);
                }
                lemma_scan_while_mid(b.buf@, c, c + n, url_set());
            }
            if n == BLOCK_SIZE {
                continue;
            }
        }
        match b.peek() {
            Some(byte) => {
                if is_url_token(byte) {
                    let _ = b.advance(1);
                    proof {
                        lemma_scan_while_mid(b.buf@, b.cursor - 1, b.cursor as int, url_set());
                    }
                    continue;
                }
            },
            None => {},
        }
        break;
    }
}

/// Moves the cursor past the header-value bytes under it.
pub fn match_header_value(bytes: &mut ParseBuffer)
    requires
        old(bytes).wf(),
    ensures
        final(bytes).wf(),
        final(bytes).buf == old(bytes).buf,
        final(bytes).start == old(bytes).start,
        final(bytes).cursor == scan_while(old(bytes).buf@, old(bytes).cursor as int, value_set()),
{
    let ghost target = scan_while(bytes.buf@, bytes.cursor as int, value_set());
    proof {
        lemma_scan_while(bytes.buf@, bytes.cursor as int, value_set());
    }
    loop
        invariant_except_break
            bytes.wf(),
            bytes.buf == old(bytes).buf,
            bytes.start == old(bytes).start,
            old(bytes).cursor <= bytes.cursor <= target,
            target == scan_while(bytes.buf@, bytes.cursor as int, value_set()),
        ensures
            bytes.wf(),
            bytes.buf == old(bytes).buf,
            bytes.start == old(bytes).start,
            bytes.cursor == target,
        decreases bytes.buf@.len() - bytes.cursor,
    {
        let ghost c = bytes.cursor as int;
        proof {
            lemma_scan_while(bytes.buf@, c, value_set());
        }
        if let Some(b8) = bytes.peek_after_cursor::<BLOCK_SIZE>() {
            let n = match_header_value_char(b8);
            let _ = bytes.advance(n);
            proof {
                assert forall|i: int| c <= i < c + n implies value_set()(#[trigger] bytes.buf@[i]) by {
                    assert(bytes.buf@[i] == b8@[i - c]);
                }
                lemma_scan_while_mid(bytes.buf@, c, c + n, value_set());
            }
            if n == BLOCK_SIZE {
                continue;
            }
        }
        match bytes.peek() {
            Some(byte) => {
                if is_header_value(byte) {
                    let _ = bytes.advance(1);
                    proof {
                        lemma_scan_while_mid(
                            bytes.buf@,
                            bytes.cursor - 1,
                            bytes.cursor as int,
                            value_set(),
                        );
                    }
                    continue;
                }
            },
            None => {},
        }
        break;
    }
}

/// Moves the cursor past the header-name bytes under it, a block at a time while whole blocks
/// remain, then byte by byte.
pub fn match_header_name_vector(bytes: &mut ParseBuffer)
    requires
        old(bytes).wf(),
    ensures
        final(bytes).wf(),
        final(bytes).buf == old(bytes).buf,
        final(bytes).start == old(bytes).start,
        final(bytes).cursor == scan_while(old(bytes).buf@, old(bytes).cursor as int, name_set()),
{
    let ghost target = scan_while(bytes.buf@, bytes.cursor as int, name_set());
    loop
        invariant_except_break
            bytes.wf(),
            bytes.buf == old(bytes).buf,
            bytes.start == old(bytes).start,
            target == scan_while(bytes.buf@, bytes.cursor as int, name_set()),
        ensures
            bytes.wf(),
            bytes.buf == old(bytes).buf,
            bytes.start == old(bytes).start,
            bytes.cursor == target,
        decreases bytes.buf@.len() - bytes.cursor,
    {
        let ghost c = bytes.cursor as int;
        proof {
            lemma_scan_while(bytes.buf@, c, name_set());
        }
        match bytes.peek_after_cursor::<BLOCK_SIZE>() {
            Some(b) => {
                let n = match_full_block_size(is_header_name, b);
                let _ = bytes.advance(n);
                proof {
                    assert forall|i: int| c <= i < c + n implies name_set()(#[trigger] bytes.buf@[i]) by {
                        assert(bytes.buf@[i] == b@[i - c]);
                    }
                    lemma_scan_while_mid(bytes.buf@, c, c + n, name_set());
                    if n < BLOCK_SIZE {
                        assert(bytes.buf@[c + n] == b@[n as int]);
                    }
                }
                if n != BLOCK_SIZE {
                    break;
                }
            },
            None => {
                let rest = &bytes.buf[bytes.cursor..bytes.buf.len()];
                let k = match_block_size(is_header_name, rest);
                proof {
                    assert forall|i: int| c <= i < c + k implies name_set()(#[trigger] bytes.buf@[i]) by {
                        assert(bytes.buf@[i] == rest@[i - c]);
                    }
                    lemma_scan_while_mid(bytes.buf@, c, c + k, name_set());
                    if k < rest@.len() {
                        assert(bytes.buf@[c + k] == rest@[k as int]);
                    }
                }
                let _ = bytes.advance(k);
                break;
            },
        }
    }
}


/// `std::str::from_utf8`: the bytes, read as text, when they are well-formed UTF-8, and nothing
/// otherwise.  The text holds exactly those bytes.
#[verifier::external_body]
pub(crate) fn str_from_utf8<'a>(v: &'a [u8]) -> (r: Option<&'a str>)
    ensures
        r is Some <==> valid_utf8(v@),
        r matches Some(s) ==> s.spec_bytes() == v@,
{
    std::str::from_utf8(v).ok()
}

/// A step that ends with the text `r` read from the bytes, and stops the program when those
/// bytes are not UTF-8.
pub open spec fn text_scan(r: Seq<u8>, start: int, cursor: int) -> Scan<Seq<u8>> {
    Scan { res: Ok(Status::Complete(r)), start, cursor, fault: !valid_utf8(r) }
}

/// Reading a reason phrase up to the end of its line; the slice taken starts at `start`.
pub open spec fn parse_reason_spec(buf: Seq<u8>, s: int, c: int) -> Scan<Seq<u8>> {
    let e = scan_while(buf, c, reason_set());
    if e >= buf.len() {
        scan(Ok(Status::Partial), s, e)
    } else if buf[e] == CR {
        if e + 1 >= buf.len() {
            scan(Ok(Status::Partial), s, e + 1)
        } else if buf[e + 1] != LF {
            scan(Err(ParseError::NewLine), s, e + 2)
        } else {
            text_scan(buf.subrange(s, e), e + 2, e + 2)
        }
    } else if buf[e] == LF {
        text_scan(buf.subrange(s, e), e + 1, e + 1)
    } else {
        scan(Err(ParseError::ReasonInvalidCode), s, e + 1)
    }
}

/// `GET ` as bytes.
pub open spec fn method_get() -> Seq<u8> {
    seq![0x47u8, 0x45, 0x54, 0x20]
}

/// `POST` as bytes.
pub open spec fn method_post() -> Seq<u8> {
    seq![0x50u8, 0x4f, 0x53, 0x54]
}

/// Reading a method made of letters, up to the space after it.
pub open spec fn parse_token_spec(buf: Seq<u8>, s: int, c: int) -> Scan<Seq<u8>> {
    if c >= buf.len() {
        scan(Ok(Status::Partial), s, c)
    } else if !method_byte(buf[c]) {
        scan(Err(ParseError::Token), s, c + 1)
    } else {
        let e = scan_while(buf, c + 1, method_set());
        if e >= buf.len() {
            scan(Ok(Status::Partial), s, e)
        } else if buf[e] == SP {
            text_scan(buf.subrange(s, e), e + 1, e + 1)
        } else {
            scan(Err(ParseError::Token), s, e + 1)
        }
    }
}

/// Reading a method: `GET ` and `POST` are recognised at once (after `POST` the next byte is
/// passed over whatever it is, when there is one); any other method goes through
/// `parse_token_spec`.  When `POST` ends the buffer the slice cannot be taken and the step
/// stops the program.
pub open spec fn parse_method_spec(buf: Seq<u8>, s: int, c: int) -> Scan<Seq<u8>> {
    if c + 4 <= buf.len() && buf.subrange(c, c + 4) == method_get() {
        text_scan(buf.subrange(s, c + 3), c + 4, c + 4)
    } else if c + 4 <= buf.len() && buf.subrange(c, c + 4) == method_post() {
        let c2 = if c + 5 <= buf.len() {
            c + 5
        } else {
            c
        };
        if c2 < s + 1 {
            Scan { res: Ok(Status::Partial), start: s, cursor: c2, fault: true }
        } else {
            text_scan(buf.subrange(s, c2 - 1), c2, c2)
        }
    } else {
        parse_token_spec(buf, s, c)
    }
}

/// Reads a reason phrase up to the end of its line.
pub fn parse_reason<'a>(bytes: &mut ParseBuffer<'a>) -> (r: Result<Status<&'a str>, ParseError>)
    requires
        old(bytes).wf(),
        !parse_reason_spec(old(bytes).buf@, old(bytes).start as int, old(bytes).cursor as int).fault,
    ensures
        final(bytes).wf(),
        follows(
            *old(bytes),
            *final(bytes),
            parse_reason_spec(old(bytes).buf@, old(bytes).start as int, old(bytes).cursor as int),
        ),
        str_status(r) == parse_reason_spec(
            old(bytes).buf@,
            old(bytes).start as int,
            old(bytes).cursor as int,
        ).res,
{
    let ghost spec = parse_reason_spec(
        old(bytes).buf@,
        old(bytes).start as int,
        old(bytes).cursor as int,
    );
    let ghost target = scan_while(old(bytes).buf@, old(bytes).cursor as int, reason_set());
    proof {
        lemma_scan_while(old(bytes).buf@, old(bytes).cursor as int, reason_set());
    }
    let mut result: Result<Status<&'a str>, ParseError> = Ok(Status::Partial);
    loop
        invariant_except_break
            bytes.wf(),
            bytes.buf == old(bytes).buf,
            bytes.start == old(bytes).start,
            old(bytes).cursor <= bytes.cursor <= target,
            target == scan_while(bytes.buf@, bytes.cursor as int, reason_set()),
            target == scan_while(old(bytes).buf@, old(bytes).cursor as int, reason_set()),
            spec == parse_reason_spec(old(bytes).buf@, old(bytes).start as int, old(bytes).cursor as int),
            !spec.fault,
        ensures
            bytes.wf(),
            follows(*old(bytes), *bytes, spec),
            str_status(result) == spec.res,
        decreases bytes.buf@.len() - bytes.cursor,
    {
        proof {
            lemma_scan_while(bytes.buf@, bytes.cursor as int, reason_set());
        }
        let b = match bytes.next_byte() {
            Some(b) => b,
            None => {
                result = Ok(Status::Partial);
                break;
            },
        };
        if b == CR {
            match bytes.next_byte() {
                Some(n) => {
                    if n != LF {
                        result = Err(ParseError::NewLine);
                        break;
                    }
                },
                None => {
                    result = Ok(Status::Partial);
                    break;
                },
            }
            let s = match bytes.sub_slice(2) {
                Some(s) => s,
                None => {
                    proof {
                        assert(false);
                    }
                    break;
                },
            };
            result = match str_from_utf8(s) {
                Some(t) => Ok(Status::Complete(t)),
                None => Err(ParseError::Reason),
            };
            break;
        } else if b == LF {
            let s = match bytes.sub_slice(1) {
                Some(s) => s,
                None => {
                    proof {
                        assert(false);
                    }
                    break;
                },
            };
            result = match str_from_utf8(s) {
                Some(t) => Ok(Status::Complete(t)),
                None => Err(ParseError::Reason),
            };
            break;
        } else if !(b == 0x09 || b == SP || (0x21 <= b && b <= 0x7e) || b >= 0x80) {
            result = Err(ParseError::ReasonInvalidCode);
            break;
        }
        proof {
            lemma_scan_while_mid(bytes.buf@, bytes.cursor - 1, bytes.cursor as int, reason_set());
        }
    }
    result
}

/// Reads a method made of letters, up to the space after it.
pub fn parse_token<'a>(bytes: &mut ParseBuffer<'a>) -> (r: Result<Status<&'a str>, ParseError>)
    requires
        old(bytes).wf(),
        !parse_token_spec(old(bytes).buf@, old(bytes).start as int, old(bytes).cursor as int).fault,
    ensures
        final(bytes).wf(),
        follows(
            *old(bytes),
            *final(bytes),
            parse_token_spec(old(bytes).buf@, old(bytes).start as int, old(bytes).cursor as int),
        ),
        str_status(r) == parse_token_spec(
            old(bytes).buf@,
            old(bytes).start as int,
            old(bytes).cursor as int,
        ).res,
{
    let ghost spec = parse_token_spec(
        old(bytes).buf@,
        old(bytes).start as int,
        old(bytes).cursor as int,
    );
    let b = match bytes.next_byte() {
        Some(b) => b,
        None => return Ok(Status::Partial),
    };
    if !is_method_token(b) {
        return Err(ParseError::Token);
    }
    let ghost target = scan_while(bytes.buf@, bytes.cursor as int, method_set());
    proof {
        lemma_scan_while(bytes.buf@, bytes.cursor as int, method_set());
    }
    let mut result: Result<Status<&'a str>, ParseError> = Ok(Status::Partial);
    loop
        invariant_except_break
            bytes.wf(),
            bytes.buf == old(bytes).buf,
            bytes.start == old(bytes).start,
            old(bytes).cursor < bytes.cursor <= target,
            target == scan_while(bytes.buf@, bytes.cursor as int, method_set()),
            target == scan_while(bytes.buf@, old(bytes).cursor + 1, method_set()),
            old(bytes).cursor < old(bytes).buf@.len(),
            method_byte(old(bytes).buf@[old(bytes).cursor as int]),
            spec == parse_token_spec(old(bytes).buf@, old(bytes).start as int, old(bytes).cursor as int),
            !spec.fault,
        ensures
            bytes.wf(),
            follows(*old(bytes), *bytes, spec),
            str_status(result) == spec.res,
        decreases bytes.buf@.len() - bytes.cursor,
    {
        proof {
            lemma_scan_while(bytes.buf@, bytes.cursor as int, method_set());
        }
        let b = match bytes.next_byte() {
            Some(b) => b,
            None => {
                result = Ok(Status::Partial);
                break;
            },
        };
        if b == SP {
            let s = match bytes.sub_slice(1) {
                Some(s) => s,
                None => {
                    proof {
                        assert(false);
                    }
                    break;
                },
            };
            result = match str_from_utf8(s) {
                Some(t) => Ok(Status::Complete(t)),
                None => Err(ParseError::Token),
            };
            break;
        } else if !is_method_token(b) {
            result = Err(ParseError::Token);
            break;
        }
        proof {
            lemma_scan_while_mid(bytes.buf@, bytes.cursor - 1, bytes.cursor as int, method_set());
        }
    }
    result
}

/// Reads the method that opens a request line.
pub fn parse_method<'a>(bytes: &mut ParseBuffer<'a>) -> (r: Result<Status<&'a str>, ParseError>)
    requires
        old(bytes).wf(),
        !parse_method_spec(old(bytes).buf@, old(bytes).start as int, old(bytes).cursor as int).fault,
    ensures
        final(bytes).wf(),
        follows(
            *old(bytes),
            *final(bytes),
            parse_method_spec(old(bytes).buf@, old(bytes).start as int, old(bytes).cursor as int),
        ),
        str_status(r) == parse_method_spec(
            old(bytes).buf@,
            old(bytes).start as int,
            old(bytes).cursor as int,
        ).res,
{
    let get: [u8; 4] = [0x47, 0x45, 0x54, 0x20];
    let post: [u8; 4] = [0x50, 0x4f, 0x53, 0x54];
    match bytes.peek_after_cursor::<4>() {
        Some(four) => {
            if bytes_eq(&four, &get) {
                assert(get@ =~= method_get());
                let _ = bytes.advance(4);
                let s = match bytes.sub_slice(1) {
                    Some(s) => s,
                    None => return vstd::pervasive::unreached(),
                };
                return match str_from_utf8(s) {
                    Some(t) => Ok(Status::Complete(t)),
                    None => vstd::pervasive::unreached(),
                };
            } else if bytes_eq(&four, &post) {
                assert(get@ =~= method_get());
                assert(post@ =~= method_post());
                let _ = bytes.advance(5);
                let s = match bytes.sub_slice(1) {
                    Some(s) => s,
                    None => return vstd::pervasive::unreached(),
                };
                return match str_from_utf8(s) {
                    Some(t) => Ok(Status::Complete(t)),
                    None => vstd::pervasive::unreached(),
                };
            } else {
                assert(get@ =~= method_get());
                assert(post@ =~= method_post());
            }
        },
        None => {},
    }
    parse_token(bytes)
}


/// `HTTP/1.0` as bytes.
pub open spec fn http10() -> Seq<u8> {
    seq![0x48u8, 0x54, 0x54, 0x50, 0x2f, 0x31, 0x2e, 0x30]
}

/// `HTTP/1.1` as bytes.
pub open spec fn http11() -> Seq<u8> {
    seq![0x48u8, 0x54, 0x54, 0x50, 0x2f, 0x31, 0x2e, 0x31]
}

/// `HTTP/1.` as bytes: what a version must start with.
pub open spec fn http1_prefix() -> Seq<u8> {
    seq![0x48u8, 0x54, 0x54, 0x50, 0x2f, 0x31, 0x2e]
}

/// Checking, byte by byte from the `k`-th, that fewer than eight remaining bytes begin as
/// `HTTP/1.` does: an error at the first byte that differs, else more bytes are needed.
pub open spec fn version_prefix_spec(buf: Seq<u8>, s: int, c: int, k: int) -> Scan<u8>
    decreases 7 - k,
{
    if k >= 7 || c + k >= buf.len() {
        scan(Ok(Status::Partial), s, c + k)
    } else if buf[c + k] != http1_prefix()[k] {
        scan(Err(ParseError::Version), s, c + k + 1)
    } else {
        version_prefix_spec(buf, s, c, k + 1)
    }
}

/// Reading `HTTP/1.0` (version 0) or `HTTP/1.1` (version 1).
pub open spec fn parse_version_spec(buf: Seq<u8>, s: int, c: int) -> Scan<u8> {
    if c + 8 <= buf.len() {
        let w = buf.subrange(c, c + 8);
        scan(
            if w == http10() {
                Ok(Status::Complete(0u8))
            } else if w == http11() {
                Ok(Status::Complete(1u8))
            } else {
                Err(ParseError::Version)
            },
            s,
            c + 8,
        )
    } else {
        version_prefix_spec(buf, s, c, 0)
    }
}

/// Reading a request target up to the space after it.
pub open spec fn parse_uri_spec(buf: Seq<u8>, s: int, c: int) -> Scan<Seq<u8>> {
    let e = scan_while(buf, c, url_set());
    if e == c {
        scan(Err(ParseError::Token), s, c)
    } else if e >= buf.len() {
        scan(Ok(Status::Partial), s, e)
    } else if buf[e] != SP {
        scan(Err(ParseError::Token), s, e + 1)
    } else if valid_utf8(buf.subrange(s, e)) {
        scan(Ok(Status::Complete(buf.subrange(s, e))), e + 1, e + 1)
    } else {
        scan(Err(ParseError::Token), e + 1, e + 1)
    }
}

/// Reads the protocol version: 0 for `HTTP/1.0`, 1 for `HTTP/1.1`.
pub fn parse_version(bytes: &mut ParseBuffer) -> (r: Result<Status<u8>, ParseError>)
    requires
        old(bytes).wf(),
    ensures
        final(bytes).wf(),
        follows(
            *old(bytes),
            *final(bytes),
            parse_version_spec(old(bytes).buf@, old(bytes).start as int, old(bytes).cursor as int),
        ),
        r == parse_version_spec(
            old(bytes).buf@,
            old(bytes).start as int,
            old(bytes).cursor as int,
        ).res,
{
    let h10: [u8; 8] = [0x48, 0x54, 0x54, 0x50, 0x2f, 0x31, 0x2e, 0x30];
    let h11: [u8; 8] = [0x48, 0x54, 0x54, 0x50, 0x2f, 0x31, 0x2e, 0x31];
    proof {
        assert(h10@ =~= http10());
        assert(h11@ =~= http11());
    }
    if let Some(eight) = bytes.peek_after_cursor::<8>() {
        let _ = bytes.advance(8);
        return if bytes_eq(&eight, &h10) {
            Ok(Status::Complete(0))
        } else if bytes_eq(&eight, &h11) {
            Ok(Status::Complete(1))
        } else {
            Err(ParseError::Version)
        };
    }
    let prefix: [u8; 7] = [0x48, 0x54, 0x54, 0x50, 0x2f, 0x31, 0x2e];
    proof {
        assert(prefix@ =~= http1_prefix());
    }
    let ghost spec = parse_version_spec(
        old(bytes).buf@,
        old(bytes).start as int,
        old(bytes).cursor as int,
    );
    let mut result: Result<Status<u8>, ParseError> = Ok(Status::Partial);
    let mut k: usize = 0;
    while k < 7
        invariant_except_break
            k <= 7,
            bytes.wf(),
            bytes.buf == old(bytes).buf,
            bytes.start == old(bytes).start,
            bytes.cursor == old(bytes).cursor + k,
            old(bytes).cursor + 8 > old(bytes).buf@.len(),
            prefix@ == http1_prefix(),
            result == Ok::<Status<u8>, ParseError>(Status::Partial),
            spec == parse_version_spec(old(bytes).buf@, old(bytes).start as int, old(bytes).cursor as int),
            spec == version_prefix_spec(old(bytes).buf@, old(bytes).start as int, old(bytes).cursor as int, k as int),
        ensures
            bytes.wf(),
            follows(*old(bytes), *bytes, spec),
            result == spec.res,
        decreases 7 - k,
    {
        match bytes.next_byte() {
            Some(b) => {
                if b != prefix[k] {
                    result = Err(ParseError::Version);
                    break;
                }
            },
            None => {
                result = Ok(Status::Partial);
                break;
            },
        }
        k += 1;
    }
    result
}

/// Reads a request target up to the space after it.
pub fn parse_uri<'a>(bytes: &mut ParseBuffer<'a>) -> (r: Result<Status<&'a str>, ParseError>)
    requires
        old(bytes).wf(),
    ensures
        final(bytes).wf(),
        follows(
            *old(bytes),
            *final(bytes),
            parse_uri_spec(old(bytes).buf@, old(bytes).start as int, old(bytes).cursor as int),
        ),
        str_status(r) == parse_uri_spec(
            old(bytes).buf@,
            old(bytes).start as int,
            old(bytes).cursor as int,
        ).res,
{
    let start = bytes.cursor;
    match_uri_token(bytes);
    let end = bytes.cursor;
    if end == start {
        return Err(ParseError::Token);
    }
    let b = match bytes.next_byte() {
        Some(b) => b,
        None => return Ok(Status::Partial),
    };
    if b == SP {
        let slice = match bytes.sub_slice(1) {
            Some(slice) => slice,
            _ => return Err(ParseError::Token),
        };
        match str_from_utf8(slice) {
            Some(uri) => Ok(Status::Complete(uri)),
            None => Err(ParseError::Token),
        }
    } else {
        Err(ParseError::Token)
    }
}


/// The byte `b` in every byte of a 64-bit word.
pub open spec fn uniform_word(b: u8) -> u64 {
    (b as u64 * 0x0101_0101_0101_0101u64) as u64
}

/// The eight bytes of a block read as a little-endian word.
pub open spec fn le_word(b0: u8, b1: u8, b2: u8, b3: u8, b4: u8, b5: u8, b6: u8, b7: u8) -> u64 {
    (b0 as u64) | ((b1 as u64) << 8u64) | ((b2 as u64) << 16u64) | ((b3 as u64) << 24u64) | ((
    b4 as u64) << 32u64) | ((b5 as u64) << 40u64) | ((b6 as u64) << 48u64) | ((b7 as u64)
        << 56u64)
}

/// The index of the first byte of a block equal to `v`, or the block size when none is.
pub open spec fn first_index_of(b: Seq<u8>, v: u8, i: int) -> int
    decreases 8 - i,
{
    if i >= 8 {
        8
    } else if b[i] == v {
        i
    } else {
        first_index_of(b, v, i + 1)
    }
}

/// What the first index of `v` in a block says of the bytes before it and at it.
pub proof fn lemma_first_index_of(b: Seq<u8>, v: u8, i: int)
    requires
        0 <= i <= 8,
        b.len() == 8,
    ensures
        i <= first_index_of(b, v, i) <= 8,
        forall|k: int| i <= k < first_index_of(b, v, i) ==> b[k] != v,
        first_index_of(b, v, i) < 8 ==> b[first_index_of(b, v, i)] == v,
    decreases 8 - i,
{
    if i < 8 && b[i] != v {
        lemma_first_index_of(b, v, i + 1);
    }
}

/// Byte `k` of a word is zero.
pub open spec fn zero_byte(x: u64, k: u64) -> bool {
    (x >> (8 * k)) & 0xffu64 == 0
}

/// The `x ^ v…v` of a little-endian block has a zero byte exactly where the block holds `v`.
proof fn lemma_xor_bytes(b0: u8, b1: u8, b2: u8, b3: u8, b4: u8, b5: u8, b6: u8, b7: u8, v: u8)
    by (bit_vector)
    ensures
        ({
            let x = le_word(b0, b1, b2, b3, b4, b5, b6, b7) ^ ((v as u64 * 0x0101_0101_0101_0101u64) as u64);
            &&& ((x >> 0u64) & 0xffu64 == 0) == (b0 == v)
            &&& ((x >> 8u64) & 0xffu64 == 0) == (b1 == v)
            &&& ((x >> 16u64) & 0xffu64 == 0) == (b2 == v)
            &&& ((x >> 24u64) & 0xffu64 == 0) == (b3 == v)
            &&& ((x >> 32u64) & 0xffu64 == 0) == (b4 == v)
            &&& ((x >> 40u64) & 0xffu64 == 0) == (b5 == v)
            &&& ((x >> 48u64) & 0xffu64 == 0) == (b6 == v)
            &&& ((x >> 56u64) & 0xffu64 == 0) == (b7 == v)
        }),
{
}

/// The zero-byte test `(x - 0x01…01) & !x & 0x80…80`: it is zero exactly when no byte of `x`
/// is zero, and when byte `z` is the first zero byte its lowest set bit is bit `8z + 7`.
proof fn lemma_swar(x: u64, w: u64)
    by (bit_vector)
    requires
        w == (if x < 0x0101_0101_0101_0101u64 {
            (x - 0x0101_0101_0101_0101u64 + 0x1_0000_0000_0000_0000int) as u64
        } else {
            (x - 0x0101_0101_0101_0101u64) as u64
        }),
    ensures
        ({
            let e = w & !x & 0x8080_8080_8080_8080u64;
            let z0 = (x >> 0u64) & 0xffu64 == 0;
            let z1 = (x >> 8u64) & 0xffu64 == 0;
            let z2 = (x >> 16u64) & 0xffu64 == 0;
            let z3 = (x >> 24u64) & 0xffu64 == 0;
            let z4 = (x >> 32u64) & 0xffu64 == 0;
            let z5 = (x >> 40u64) & 0xffu64 == 0;
            let z6 = (x >> 48u64) & 0xffu64 == 0;
            let z7 = (x >> 56u64) & 0xffu64 == 0;
            &&& (e == 0) == (!z0 && !z1 && !z2 && !z3 && !z4 && !z5 && !z6 && !z7)
            &&& z0 ==> (e >> 7u64) & 1 == 1 && e & 0x7fu64 == 0
            &&& !z0 && z1 ==> (e >> 15u64) & 1 == 1 && e & 0x7fffu64 == 0
            &&& !z0 && !z1 && z2 ==> (e >> 23u64) & 1 == 1 && e & 0x7f_ffffu64 == 0
            &&& !z0 && !z1 && !z2 && z3 ==> (e >> 31u64) & 1 == 1 && e & 0x7fff_ffffu64 == 0
            &&& !z0 && !z1 && !z2 && !z3 && z4 ==> (e >> 39u64) & 1 == 1 && e & 0x7f_ffff_ffffu64
                == 0
            &&& !z0 && !z1 && !z2 && !z3 && !z4 && z5 ==> (e >> 47u64) & 1 == 1 && e
                & 0x7fff_ffff_ffffu64 == 0
            &&& !z0 && !z1 && !z2 && !z3 && !z4 && !z5 && z6 ==> (e >> 55u64) & 1 == 1 && e
                & 0x7f_ffff_ffff_ffffu64 == 0
            &&& !z0 && !z1 && !z2 && !z3 && !z4 && !z5 && !z6 && z7 ==> (e >> 63u64) & 1 == 1 && e
                & 0x7fff_ffff_ffff_ffffu64 == 0
        }),
{
}

/// A word whose low `m` bits are zero has each of those bits zero.
proof fn lemma_low_bits(e: u64, m: u64, j: u64)
    by (bit_vector)
    requires
        m < 64,
        j < m,
        e & ((1u64 << m) - 1u64) as u64 == 0,
    ensures
        (e >> j) & 1 == 0,
{
}


/// Where the zero-byte test of `x = block ^ v…v` points: nowhere exactly when the block does not
/// hold `v`, and otherwise, through its trailing zeros, at the first byte that holds `v`.
proof fn lemma_swar_position(b: [u8; BLOCK_SIZE], v: u8, x: u64)
    requires
        x == le_word(b@[0], b@[1], b@[2], b@[3], b@[4], b@[5], b@[6], b@[7]) ^ uniform_word(v),
    ensures
        ({
            let e = x.wrapping_sub(0x0101_0101_0101_0101u64) & !x & 0x8080_8080_8080_8080u64;
            &&& (e == 0) == (first_index_of(b@, v, 0) == 8)
            &&& e != 0 ==> (e.trailing_zeros() >> 3u32) as int == first_index_of(b@, v, 0)
        }),
{
    let w = x.wrapping_sub(0x0101_0101_0101_0101u64);
    lemma_swar(x, w);
    lemma_xor_bytes(b@[0], b@[1], b@[2], b@[3], b@[4], b@[5], b@[6], b@[7], v);
    let e = w & !x & 0x8080_8080_8080_8080u64;
    reveal_with_fuel(first_index_of, 9);
    let z = first_index_of(b@, v, 0);
    if e != 0 {
        let t = e.trailing_zeros();
        vstd::std_specs::bits::axiom_u64_trailing_zeros(e);
        let m = (8 * z + 7) as u64;
        assert(0 <= z < 8);
        assert((e >> m) & 1 == 1 && e & ((1u64 << m) - 1u64) as u64 == 0) by {
            if z == 0 {
                assert(((1u64 << 7u64) - 1u64) as u64 == 0x7fu64) by (bit_vector);
            } else if z == 1 {
                assert(((1u64 << 15u64) - 1u64) as u64 == 0x7fffu64) by (bit_vector);
            } else if z == 2 {
                assert(((1u64 << 23u64) - 1u64) as u64 == 0x7f_ffffu64) by (bit_vector);
            } else if z == 3 {
                assert(((1u64 << 31u64) - 1u64) as u64 == 0x7fff_ffffu64) by (bit_vector);
            } else if z == 4 {
                assert(((1u64 << 39u64) - 1u64) as u64 == 0x7f_ffff_ffffu64) by (bit_vector);
            } else if z == 5 {
                assert(((1u64 << 47u64) - 1u64) as u64 == 0x7fff_ffff_ffffu64) by (bit_vector);
            } else if z == 6 {
                assert(((1u64 << 55u64) - 1u64) as u64 == 0x7f_ffff_ffff_ffffu64) by (bit_vector);
            } else {
                assert(((1u64 << 63u64) - 1u64) as u64 == 0x7fff_ffff_ffff_ffffu64)
                    by (bit_vector);
            }
        }
        if (t as u64) < m {
            lemma_low_bits(e, m, t as u64);
        }
        if (t as u64) > m {
            assert((e >> m) & 1u64 == 0u64);
        }
        assert(t as u64 == m);
        assert(t >> 3u32 == t / 8) by (bit_vector);
    }
}

/// The byte `b` repeated in every byte of a word.
pub fn uniform_block(b: u8) -> (r: u64)
    ensures
        r == uniform_word(b),
{
    (b as u64) * 0x0101_0101_0101_0101u64
}


/// The index of the first `?` in the block, or the block size when there is none.
pub fn get_question_mark_pos_swar(bytes: [u8; BLOCK_SIZE]) -> (r: usize)
    ensures
        r == first_index_of(bytes@, QUESTION, 0),
{
    let question_mark = uniform_block(0x3F);
    let low_bits = uniform_block(0x01);
    let high_bits = uniform_block(0x80);
    let b = (bytes[0] as u64) | ((bytes[1] as u64) << 8u64) | ((bytes[2] as u64) << 16u64) | ((
    bytes[3] as u64) << 24u64) | ((bytes[4] as u64) << 32u64) | ((bytes[5] as u64) << 40u64) | ((
    bytes[6] as u64) << 48u64) | ((bytes[7] as u64) << 56u64);
    let b_xor = b ^ question_mark;
    let eq_question = b_xor.wrapping_sub(low_bits) & !b_xor & high_bits;
    proof {
        lemma_swar_position(bytes, QUESTION, b_xor);
    }
    if eq_question == 0 {
        return BLOCK_SIZE;
    }
    (eq_question.trailing_zeros() >> 3) as usize
}

/// The index of the first `:` in the block, or the block size when there is none.
pub fn get_colon_pos(bytes: [u8; BLOCK_SIZE]) -> (r: usize)
    ensures
        r == first_index_of(bytes@, COLON, 0),
{
    let colon = uniform_block(0x3A);
    let low_bits = uniform_block(0x01);
    let high_bits = uniform_block(0x80);
    let b = (bytes[0] as u64) | ((bytes[1] as u64) << 8u64) | ((bytes[2] as u64) << 16u64) | ((
    bytes[3] as u64) << 24u64) | ((bytes[4] as u64) << 32u64) | ((bytes[5] as u64) << 40u64) | ((
    bytes[6] as u64) << 48u64) | ((bytes[7] as u64) << 56u64);
    let b_xor = b ^ colon;
    let eq_colon = b_xor.wrapping_sub(low_bits) & !b_xor & high_bits;
    proof {
        lemma_swar_position(bytes, COLON, b_xor);
    }
    if eq_colon == 0 {
        return BLOCK_SIZE;
    }
    (eq_colon.trailing_zeros() >> 3) as usize
}

} // verus!
