use crate::parse::parse_utils::{
    lemma_scan_while, lemma_scan_while_ge, lemma_scan_while_mid, method_get, method_post,
    method_set, name_set, http10, http11, http1_prefix, value_set, version_prefix_spec,
    parse_method_spec, parse_token_spec, parse_uri_spec,
    parse_version_spec, scan, scan_while, skip_empty_line_spec, text_scan, url_set,
};
use crate::parse::parser::{
    done, headers_spec, law_complete_request, lemma_headers_within, lemma_name_progress,
    lemma_version_prefix_never_done, lemma_skip_empty_done, lemma_value_progress,
    name_spec, newline_spec, request_spec, trim_value, value_spec,
};
use crate::parse::round_trip::lemma_ascii_utf8;
use crate::parse::error::ParseError;
use crate::parse::parser::Status;
use crate::parse::tchar::{header_name_byte, header_value_byte, method_byte, COLON, CR, HTAB, LF, SP};
use vstd::prelude::*;
use vstd::utf8::valid_utf8;

verus! {

/// The `POST` shortcut of the method reader is taken at `c` and reads otherwise than the token
/// path: `POST` ends the buffer, or is followed by a byte that is not a space.
pub open spec fn post_shortcut_differs(buf: Seq<u8>, c: int) -> bool {
    &&& c + 4 <= buf.len()
    &&& buf.subrange(c, c + 4) == method_post()
    &&& (c + 4 == buf.len() || buf[c + 4] != SP)
}

/// The `GET ` and `POST ` shortcuts of the method reader are only shortcuts: but where the
/// `POST` shortcut passes over a byte that is not a space, or `POST` ends the buffer, reading a
/// method gives what reading it as a token gives.
pub proof fn law_method_is_token(buf: Seq<u8>, c: int)
    requires
        0 <= c,
        !post_shortcut_differs(buf, c),
    ensures
        parse_method_spec(buf, c, c) == parse_token_spec(buf, c, c),
{
    if c + 4 <= buf.len() {
        let w = buf.subrange(c, c + 4);
        assert(buf[c] == w[0] && buf[c + 1] == w[1] && buf[c + 2] == w[2] && buf[c + 3] == w[3]);
        if w == seq![0x47u8, 0x45, 0x54, 0x20] {
            assert(method_set()(buf[c + 1]) && method_set()(buf[c + 2]));
            lemma_scan_while_mid(buf, c + 1, c + 3, method_set());
            assert(scan_while(buf, c + 3, method_set()) == c + 3);
        } else if w == method_post() {
            assert(buf[c + 4] == SP);
            assert(method_set()(buf[c + 1]) && method_set()(buf[c + 2]) && method_set()(buf[c + 3]));
            lemma_scan_while_mid(buf, c + 1, c + 4, method_set());
            assert(scan_while(buf, c + 4, method_set()) == c + 4);
        }
    }
}

/// The request line starts with `POST` and the buffer ends right after it: the one case where
/// reading a request head stops the program.
pub open spec fn bare_post(buf: Seq<u8>) -> bool {
    let s1 = skip_empty_line_spec(buf, 0, 0);
    &&& done(s1.res)
    &&& s1.cursor + 4 == buf.len()
    &&& buf.subrange(s1.cursor, s1.cursor + 4) == method_post()
}

/// A name read from where its header-name bytes start never stops the program: it is made of
/// header-name bytes, which are ASCII.
pub proof fn lemma_name_no_fault(buf: Seq<u8>, s: int, c: int)
    requires
        0 <= s <= c,
        forall|i: int| s <= i < c ==> header_name_byte(#[trigger] buf[i]),
    ensures
        !name_spec(buf, s, c).fault,
    decreases buf.len() - c,
{
    lemma_scan_while_ge(buf, c, name_set());
    let c1 = scan_while(buf, c, name_set());
    if c1 < buf.len() {
        lemma_scan_while(buf, c, name_set());
        let name = buf.subrange(s, c1);
        assert forall|i: int| 0 <= i < name.len() implies name[i] < 0x80 by {
            if s + i < c {
                assert(header_name_byte(buf[s + i]));
            } else {
                assert(name_set()(buf[s + i]));
            }
        }
        lemma_ascii_utf8(name);
        if buf[c1] != COLON {
            lemma_name_no_fault(buf, c1 + 1, c1 + 1);
        }
    }
}

/// A value that is read to its end leaves the next slice starting at the cursor.
pub proof fn lemma_value_done_start(buf: Seq<u8>, s: int, c: int)
    ensures
        done(value_spec(buf, s, c).res) ==> value_spec(buf, s, c).start == value_spec(buf, s, c).cursor,
    decreases buf.len() - c,
{
    if c < buf.len() && (buf[c] == SP || buf[c] == HTAB) {
        lemma_value_done_start(buf, c + 1, c + 1);
    }
}

/// Reading header lines from the start of a line never stops the program.
pub proof fn lemma_headers_no_fault(buf: Seq<u8>, s0: int, c: int, m: Map<Seq<u8>, Seq<u8>>)
    requires
        0 <= c,
    ensures
        !headers_spec(buf, s0, c, c, m).fault,
    decreases buf.len() - c,
{
    if c < buf.len() && buf[c] != CR && buf[c] != LF && header_name_byte(buf[c]) {
        lemma_name_no_fault(buf, c, c + 1);
        let ns = name_spec(buf, c, c + 1);
        lemma_name_progress(buf, c, c + 1);
        if ns.name is Some {
            let vs = value_spec(buf, ns.start, ns.cursor);
            lemma_value_progress(buf, ns.start, ns.cursor);
            lemma_value_done_start(buf, ns.start, ns.cursor);
            if done(vs.res) {
                lemma_headers_no_fault(buf, s0, vs.cursor, m.insert(ns.name->0, trim_value(vs.res->Ok_0->Complete_0)));
            }
        }
    }
}

/// Reading a method from where it starts stops the program only when the buffer ends right
/// after `POST`.
pub proof fn lemma_method_fault(buf: Seq<u8>, c: int)
    requires
        0 <= c,
    ensures
        parse_method_spec(buf, c, c).fault <==> (c + 4 == buf.len() && buf.subrange(c, c + 4)
            == method_post()),
{
    if c + 4 <= buf.len() {
        let w = buf.subrange(c, c + 4);
        assert(buf[c] == w[0] && buf[c + 1] == w[1] && buf[c + 2] == w[2] && buf[c + 3] == w[3]);
        if w == method_get() {
            lemma_ascii_utf8(buf.subrange(c, c + 3));
        } else if w == method_post() {
            if c + 5 <= buf.len() {
                lemma_ascii_utf8(buf.subrange(c, c + 4));
            }
        }
    }
    if c < buf.len() && method_byte(buf[c]) {
        lemma_scan_while(buf, c + 1, method_set());
        let e = scan_while(buf, c + 1, method_set());
        if e < buf.len() {
            let t = buf.subrange(c, e);
            assert forall|i: int| 0 <= i < t.len() implies t[i] < 0x80 by {
                if i > 0 {
                    assert(method_set()(buf[c + i]));
                }
            }
            lemma_ascii_utf8(t);
        }
    }
}

/// Reading a request head stops the program exactly when its request line starts with `POST`
/// and the buffer ends right after it (where the slice before the separator cannot be taken);
/// on every other input it runs to a result.
pub proof fn law_request_fault(
    buf: Seq<u8>,
    m0: Option<Seq<u8>>,
    u0: Option<Seq<u8>>,
    v0: Option<u8>,
    h0: Map<Seq<u8>, Seq<u8>>,
)
    ensures
        request_spec(buf, m0, u0, v0, h0).fault == bare_post(buf),
{
    lemma_skip_empty_done(buf, 0, 0);
    let s1 = skip_empty_line_spec(buf, 0, 0);
    if done(s1.res) {
        assert(s1.start == s1.cursor);
        lemma_method_fault(buf, s1.cursor);
        let s2 = parse_method_spec(buf, s1.start, s1.cursor);
        if done(s2.res) {
            assert(!s2.fault);
            lemma_scan_while_ge(buf, s1.cursor + 1, method_set());
            assert(s2.cursor >= 0);
            let s3 = parse_uri_spec(buf, s2.start, s2.cursor);
            lemma_scan_while_ge(buf, s2.cursor, url_set());
            if done(s3.res) {
                let s4 = parse_version_spec(buf, s3.start, s3.cursor);
                lemma_version_prefix_never_done(buf, s3.start, s3.cursor, 0);
                if done(s4.res) {
                    let s5 = newline_spec(buf, s4.start, s4.cursor);
                    if done(s5.res) {
                        assert(s5.start == s5.cursor);
                        lemma_headers_no_fault(buf, s5.start, s5.cursor, h0);
                    }
                }
            }
        }
    }
}

/// Skipping bytes in the first `j` bytes of a buffer: where the skip in the whole buffer stops
/// before `j` it stops there too, and otherwise it runs to `j`.
pub proof fn lemma_scan_while_prefix(buf: Seq<u8>, j: int, c: int, f: spec_fn(u8) -> bool)
    requires
        0 <= c <= j <= buf.len(),
    ensures
        scan_while(buf, c, f) < j ==> scan_while(buf.subrange(0, j), c, f) == scan_while(buf, c, f),
        scan_while(buf, c, f) >= j ==> scan_while(buf.subrange(0, j), c, f) == j,
    decreases j - c,
{
    let p = buf.subrange(0, j);
    lemma_scan_while_ge(buf, c, f);
    if c < j {
        assert(p[c] == buf[c]);
        if f(buf[c]) {
            lemma_scan_while_prefix(buf, j, c + 1, f);
        }
    }
}

/// Skipping empty lines in a prefix: the same step where the whole buffer's skip stops before
/// the end of the prefix, and more bytes needed otherwise.
pub proof fn lemma_skip_empty_prefix(buf: Seq<u8>, j: int, s: int, c: int)
    requires
        0 <= c <= j <= buf.len(),
        done(skip_empty_line_spec(buf, s, c).res),
    ensures
        skip_empty_line_spec(buf, s, c).cursor < j ==> skip_empty_line_spec(buf.subrange(0, j), s, c)
            == skip_empty_line_spec(buf, s, c),
        skip_empty_line_spec(buf, s, c).cursor >= j ==> skip_empty_line_spec(
            buf.subrange(0, j),
            s,
            c,
        ).res == Ok::<Status<()>, ParseError>(Status::Partial),
    decreases buf.len() - c,
{
    let p = buf.subrange(0, j);
    if c < j {
        assert(p[c] == buf[c]);
        if c + 1 < j {
            assert(p[c + 1] == buf[c + 1]);
        }
        if buf[c] == CR {
            if c + 2 <= j {
                lemma_skip_empty_prefix(buf, j, s, c + 2);
            } else {
                lemma_skip_empty_done(buf, s, c + 2);
            }
        } else if buf[c] == LF {
            lemma_skip_empty_prefix(buf, j, s, c + 1);
        }
    } else {
        lemma_skip_empty_done(buf, s, c);
    }
}

/// Reading a method in a prefix: the same step where the whole buffer's method ends within the
/// prefix, and otherwise more bytes needed (the read stops the program when the prefix ends
/// right after `POST`).
pub proof fn lemma_method_prefix(buf: Seq<u8>, j: int, c: int)
    requires
        0 <= c <= j <= buf.len(),
        done(parse_method_spec(buf, c, c).res),
    ensures
        parse_method_spec(buf, c, c).cursor <= j ==> parse_method_spec(buf.subrange(0, j), c, c)
            == parse_method_spec(buf, c, c),
        parse_method_spec(buf, c, c).cursor > j ==> parse_method_spec(buf.subrange(0, j), c, c).res
            == Ok::<Status<Seq<u8>>, ParseError>(Status::Partial),
{
    let p = buf.subrange(0, j);
    let d = parse_method_spec(buf, c, c).cursor;
    assert forall|i: int| 0 <= i < j implies p[i] == buf[i] by {}
    assert(method_get()[0] != method_post()[0]);
    if c + 4 <= j {
        assert(p.subrange(c, c + 4) =~= buf.subrange(c, c + 4));
    }
    if c + 5 <= j {
        assert(p.subrange(c, c + 4) =~= buf.subrange(c, c + 4));
    }
    lemma_scan_while_ge(buf, c + 1, method_set());
    if c + 4 <= buf.len() && buf.subrange(c, c + 4) == method_get() {
        let w = buf.subrange(c, c + 4);
        assert(buf[c] == w[0] && buf[c + 1] == w[1] && buf[c + 2] == w[2] && buf[c + 3] == w[3]);
        if d <= j {
            assert(p.subrange(c, c + 3) =~= buf.subrange(c, c + 3));
        } else {
            // The token path reads the letters of `GET` up to the end of the prefix.
            assert(method_set()(buf[c + 1]) && method_set()(buf[c + 2]));
            lemma_scan_while_mid(buf, c + 1, c + 3, method_set());
            if c + 1 <= j {
                lemma_scan_while_prefix(buf, j, c + 1, method_set());
            }
            assert(parse_method_spec(p, c, c).res == Ok::<Status<Seq<u8>>, ParseError>(Status::Partial));
        }
    } else if c + 4 <= buf.len() && buf.subrange(c, c + 4) == method_post() {
        let w = buf.subrange(c, c + 4);
        assert(buf[c] == w[0] && buf[c + 1] == w[1] && buf[c + 2] == w[2] && buf[c + 3] == w[3]);
        if d <= j {
            assert(p.subrange(c, c + 4) =~= buf.subrange(c, c + 4));
        } else if j < c + 4 {
            assert(method_set()(buf[c + 1]) && method_set()(buf[c + 2]) && method_set()(buf[c + 3]));
            lemma_scan_while_mid(buf, c + 1, c + 4, method_set());
            lemma_scan_while_ge(buf, c + 4, method_set());
            if c + 1 <= j {
                lemma_scan_while_prefix(buf, j, c + 1, method_set());
            }
            assert(parse_method_spec(p, c, c).res == Ok::<Status<Seq<u8>>, ParseError>(Status::Partial));
        } else {
            assert(parse_method_spec(p, c, c).res == Ok::<Status<Seq<u8>>, ParseError>(Status::Partial));
        }
    } else {
        if c < j {
            assert(p[c] == buf[c]);
            lemma_scan_while_prefix(buf, j, c + 1, method_set());
            let e = scan_while(buf, c + 1, method_set());
            if e < j {
                assert(p.subrange(c, e) =~= buf.subrange(c, e));
            }
        }
    }
}

/// Reading a request target in a prefix: the same step where the target and the space after it
/// lie within the prefix; when the prefix ends at the target's first byte there is no target
/// (an error); otherwise more bytes are needed.
pub proof fn lemma_uri_prefix(buf: Seq<u8>, j: int, s: int, c: int)
    requires
        0 <= s <= c <= j <= buf.len(),
        done(parse_uri_spec(buf, s, c).res),
    ensures
        parse_uri_spec(buf, s, c).cursor <= j ==> parse_uri_spec(buf.subrange(0, j), s, c)
            == parse_uri_spec(buf, s, c),
        parse_uri_spec(buf, s, c).cursor > j && c < j ==> parse_uri_spec(buf.subrange(0, j), s, c).res
            == Ok::<Status<Seq<u8>>, ParseError>(Status::Partial),
        c == j ==> parse_uri_spec(buf.subrange(0, j), s, c).res == Err::<Status<Seq<u8>>, ParseError>(
            ParseError::Token,
        ),
{
    let p = buf.subrange(0, j);
    lemma_scan_while_prefix(buf, j, c, url_set());
    lemma_scan_while_ge(buf, c, url_set());
    let e = scan_while(buf, c, url_set());
    if e < j {
        assert(p[e] == buf[e]);
        assert(p.subrange(s, e) =~= buf.subrange(s, e));
    }
}

/// The first bytes of a version, up to the end of a prefix, ask for more bytes.
pub proof fn lemma_version_prefix_partial(p: Seq<u8>, s: int, c: int, k: int)
    requires
        0 <= k,
        0 <= c,
        forall|i: int| k <= i < 7 && c + i < p.len() ==> p[c + i] == #[trigger] http1_prefix()[i],
    ensures
        version_prefix_spec(p, s, c, k).res == Ok::<Status<u8>, ParseError>(Status::Partial),
    decreases 7 - k,
{
    if !(k >= 7 || c + k >= p.len()) {
        assert(p[c + k] == http1_prefix()[k]);
        lemma_version_prefix_partial(p, s, c, k + 1);
    }
}

/// Reading a version in a prefix: the same step where the version lies within the prefix, and
/// more bytes needed otherwise.
pub proof fn lemma_version_prefix(buf: Seq<u8>, j: int, s: int, c: int)
    requires
        0 <= c <= j <= buf.len(),
        done(parse_version_spec(buf, s, c).res),
    ensures
        c + 8 <= j ==> parse_version_spec(buf.subrange(0, j), s, c) == parse_version_spec(buf, s, c),
        c + 8 > j ==> parse_version_spec(buf.subrange(0, j), s, c).res == Ok::<Status<u8>, ParseError>(
            Status::Partial,
        ),
{
    let p = buf.subrange(0, j);
    lemma_version_prefix_never_done(buf, s, c, 0);
    assert(c + 8 <= buf.len());
    let w = buf.subrange(c, c + 8);
    if c + 8 <= j {
        assert(p.subrange(c, c + 8) =~= w);
    } else {
        assert forall|i: int| 0 <= i < 7 && c + i < p.len() implies p[c + i]
            == #[trigger] http1_prefix()[i] by {
            assert(p[c + i] == w[i]);
            if w == http10() {
                assert(http10()[i] == http1_prefix()[i]);
            } else {
                assert(http11()[i] == http1_prefix()[i]);
            }
        }
        lemma_version_prefix_partial(p, s, c, 0);
    }
}

/// Reading the end of a line in a prefix: the same step where the line end lies within the
/// prefix, and more bytes needed otherwise.
pub proof fn lemma_newline_prefix(buf: Seq<u8>, j: int, s: int, c: int)
    requires
        0 <= c <= j <= buf.len(),
        done(newline_spec(buf, s, c).res),
    ensures
        newline_spec(buf, s, c).cursor <= j ==> newline_spec(buf.subrange(0, j), s, c)
            == newline_spec(buf, s, c),
        newline_spec(buf, s, c).cursor > j ==> newline_spec(buf.subrange(0, j), s, c).res
            == Ok::<Status<()>, ParseError>(Status::Partial),
{
    let p = buf.subrange(0, j);
    if c < j {
        assert(p[c] == buf[c]);
    }
    if c + 1 < j {
        assert(p[c + 1] == buf[c + 1]);
    }
}

/// A name that is read ends where the next slice starts.
pub proof fn lemma_name_some_start(buf: Seq<u8>, s: int, c: int)
    ensures
        name_spec(buf, s, c).name is Some ==> name_spec(buf, s, c).start == name_spec(buf, s, c).cursor,
    decreases buf.len() - c,
{
    lemma_scan_while_ge(buf, c, name_set());
    let c1 = scan_while(buf, c, name_set());
    if c1 < buf.len() && buf[c1] != COLON {
        lemma_name_some_start(buf, c1 + 1, c1 + 1);
    }
}

/// Reading a header name in a prefix: the same step where the name and its `:` lie within the
/// prefix, and no name otherwise.
pub proof fn lemma_name_prefix(buf: Seq<u8>, j: int, s: int, c: int)
    requires
        0 <= s <= c <= j <= buf.len(),
        name_spec(buf, s, c).name is Some,
    ensures
        name_spec(buf, s, c).cursor <= j ==> name_spec(buf.subrange(0, j), s, c) == name_spec(
            buf,
            s,
            c,
        ),
        name_spec(buf, s, c).cursor > j ==> name_spec(buf.subrange(0, j), s, c).name is None,
    decreases buf.len() - c,
{
    let p = buf.subrange(0, j);
    lemma_scan_while_prefix(buf, j, c, name_set());
    lemma_scan_while_ge(buf, c, name_set());
    let c1 = scan_while(buf, c, name_set());
    if c1 < j {
        assert(p[c1] == buf[c1]);
        assert(p.subrange(s, c1) =~= buf.subrange(s, c1));
        if buf[c1] != COLON {
            lemma_name_prefix(buf, j, c1 + 1, c1 + 1);
        }
    } else {
        if c1 < buf.len() && buf[c1] != COLON {
            lemma_name_progress(buf, c1 + 1, c1 + 1);
        }
    }
}

/// Reading a header value in a prefix: the same step where the value and its line end lie
/// within the prefix, and more bytes needed otherwise.
pub proof fn lemma_value_prefix(buf: Seq<u8>, j: int, s: int, c: int)
    requires
        0 <= s <= c <= j <= buf.len(),
        done(value_spec(buf, s, c).res),
    ensures
        value_spec(buf, s, c).cursor <= j ==> value_spec(buf.subrange(0, j), s, c) == value_spec(
            buf,
            s,
            c,
        ),
        value_spec(buf, s, c).cursor > j ==> value_spec(buf.subrange(0, j), s, c).res
            == Ok::<Status<Seq<u8>>, ParseError>(Status::Partial),
    decreases buf.len() - c,
{
    let p = buf.subrange(0, j);
    if c < buf.len() && (buf[c] == SP || buf[c] == HTAB) {
        lemma_value_progress(buf, c + 1, c + 1);
        if c < j {
            assert(p[c] == buf[c]);
            lemma_value_prefix(buf, j, c + 1, c + 1);
        }
    } else if c < buf.len() && header_value_byte(buf[c]) {
        lemma_scan_while_ge(buf, c + 1, value_set());
        if c < j {
            assert(p[c] == buf[c]);
            lemma_scan_while_prefix(buf, j, c + 1, value_set());
            let e = scan_while(buf, c + 1, value_set());
            if e < j {
                assert(p[e] == buf[e]);
                if e + 1 < j {
                    assert(p[e + 1] == buf[e + 1]);
                }
                assert(p.subrange(s, e) =~= buf.subrange(s, e));
            }
        }
    } else if c < j {
        assert(p[c] == buf[c]);
        if c + 1 < j {
            assert(p[c + 1] == buf[c + 1]);
        }
    }
}

/// Header lines that are read to their end move past where they began.
pub proof fn lemma_headers_done_advances(buf: Seq<u8>, s0: int, c: int, m: Map<Seq<u8>, Seq<u8>>)
    requires
        0 <= c,
        done(headers_spec(buf, s0, c, c, m).res),
    ensures
        headers_spec(buf, s0, c, c, m).cursor > c,
{
    if c < buf.len() && buf[c] != CR && buf[c] != LF && header_name_byte(buf[c]) {
        let ns = name_spec(buf, c, c + 1);
        lemma_name_progress(buf, c, c + 1);
        lemma_value_progress(buf, ns.start, ns.cursor);
        let vs = value_spec(buf, ns.start, ns.cursor);
        if ns.cursor <= buf.len() && vs.cursor <= buf.len() {
            lemma_headers_within(buf, s0, vs.start, vs.cursor, m.insert(ns.name->0, trim_value(vs.res->Ok_0->Complete_0)));
        }
    }
}

/// Reading header lines in a prefix: the same result where the lines and the empty line after
/// them lie within the prefix, and more bytes needed otherwise.
pub proof fn lemma_headers_prefix(buf: Seq<u8>, j: int, s0: int, c: int, m: Map<Seq<u8>, Seq<u8>>)
    requires
        0 <= c <= j <= buf.len(),
        done(headers_spec(buf, s0, c, c, m).res),
    ensures
        headers_spec(buf, s0, c, c, m).cursor <= j ==> headers_spec(buf.subrange(0, j), s0, c, c, m).res
            == headers_spec(buf, s0, c, c, m).res,
        headers_spec(buf, s0, c, c, m).cursor > j ==> headers_spec(buf.subrange(0, j), s0, c, c, m).res
            == Ok::<Status<usize>, ParseError>(Status::Partial),
    decreases buf.len() - c,
{
    let p = buf.subrange(0, j);
    lemma_headers_done_advances(buf, s0, c, m);
    if c < j {
        assert(p[c] == buf[c]);
        if c + 1 < j {
            assert(p[c + 1] == buf[c + 1]);
        }
        if buf[c] != CR && buf[c] != LF && header_name_byte(buf[c]) {
            let ns = name_spec(buf, c, c + 1);
            lemma_name_progress(buf, c, c + 1);
            lemma_name_some_start(buf, c, c + 1);
            lemma_name_prefix(buf, j, c, c + 1);
            let vs = value_spec(buf, ns.start, ns.cursor);
            lemma_value_progress(buf, ns.start, ns.cursor);
            lemma_value_done_start(buf, ns.start, ns.cursor);
            let m1 = m.insert(ns.name->0, trim_value(vs.res->Ok_0->Complete_0));
            lemma_headers_within(buf, s0, vs.start, vs.cursor, m1);
            if ns.cursor <= j {
                lemma_value_prefix(buf, j, ns.start, ns.cursor);
                if vs.cursor <= j {
                    lemma_headers_prefix(buf, j, s0, vs.cursor, m1);
                }
            }
        }
    }
}

/// The position right after the method of a request head (and the byte after it), or -1 when
/// the method is not read.
pub open spec fn method_end(buf: Seq<u8>) -> int {
    let s1 = skip_empty_line_spec(buf, 0, 0);
    if done(s1.res) && done(parse_method_spec(buf, s1.start, s1.cursor).res) {
        parse_method_spec(buf, s1.start, s1.cursor).cursor
    } else {
        -1
    }
}

/// A truncated request head asks for more bytes: every strict prefix of a complete request
/// head (shorter than the head) reads as `Partial`, with one exception in the result, a prefix
/// that ends right after the method and its separator, where no target follows (`Token`); a
/// prefix that ends right after `POST` also stops the program (see `law_request_fault`).
pub proof fn law_truncated_head(
    buf: Seq<u8>,
    j: int,
    m0: Option<Seq<u8>>,
    u0: Option<Seq<u8>>,
    v0: Option<u8>,
    h0: Map<Seq<u8>, Seq<u8>>,
)
    requires
        buf.len() <= usize::MAX,
        request_spec(buf, m0, u0, v0, h0).res is Ok,
        request_spec(buf, m0, u0, v0, h0).res->Ok_0 is Complete,
        0 <= j < request_spec(buf, m0, u0, v0, h0).res->Ok_0->Complete_0,
    ensures
        j == method_end(buf) ==> request_spec(buf.subrange(0, j), m0, u0, v0, h0).res == Err::<
            Status<usize>,
            ParseError,
        >(ParseError::Token),
        j != method_end(buf) ==> request_spec(buf.subrange(0, j), m0, u0, v0, h0).res == Ok::<
            Status<usize>,
            ParseError,
        >(Status::Partial),
{
    let p = buf.subrange(0, j);
    let n = request_spec(buf, m0, u0, v0, h0).res->Ok_0->Complete_0;
    law_complete_request(buf, m0, u0, v0, h0);
    lemma_skip_empty_done(buf, 0, 0);
    let s1 = skip_empty_line_spec(buf, 0, 0);
    lemma_skip_empty_prefix(buf, j, 0, 0);
    let c1 = s1.cursor;
    let s2 = parse_method_spec(buf, c1, c1);
    lemma_scan_while_ge(buf, c1 + 1, method_set());
    assert(s2.cursor > c1);
    assert(method_end(buf) == s2.cursor);
    if c1 < j {
        assert(skip_empty_line_spec(p, 0, 0) == s1);
        lemma_method_prefix(buf, j, c1);
        let c2 = s2.cursor;
        assert(s2.start == c2);
        if c2 <= j {
            assert(parse_method_spec(p, c1, c1) == s2);
            let s3 = parse_uri_spec(buf, c2, c2);
            lemma_uri_prefix(buf, j, c2, c2);
            lemma_scan_while_ge(buf, c2, url_set());
            let c3 = s3.cursor;
            if c2 < j && c3 <= j {
                assert(parse_uri_spec(p, c2, c2) == s3);
                let s4 = parse_version_spec(buf, s3.start, c3);
                lemma_version_prefix_never_done(buf, s3.start, c3, 0);
                lemma_version_prefix(buf, j, s3.start, c3);
                if c3 + 8 <= j {
                    assert(parse_version_spec(p, s3.start, c3) == s4);
                    let s5 = newline_spec(buf, s4.start, s4.cursor);
                    lemma_newline_prefix(buf, j, s4.start, s4.cursor);
                    if s5.cursor <= j {
                        assert(newline_spec(p, s4.start, s4.cursor) == s5);
                        let s6 = headers_spec(buf, s5.start, s5.start, s5.cursor, h0);
                        lemma_headers_within(buf, s5.start, s5.start, s5.cursor, h0);
                        assert(n == s6.cursor);
                        lemma_headers_prefix(buf, j, s5.start, s5.cursor, h0);
                    }
                }
            }
        }
    }
}

/// A target of visible ASCII bytes and bytes from 0x80 up, forming UTF-8 text and followed by a
/// space, reads as itself, and the next step starts after the space.
pub proof fn lemma_target_reads(buf: Seq<u8>, c: int, t: Seq<u8>)
    requires
        0 <= c,
        t.len() > 0,
        forall|i: int| 0 <= i < t.len() ==> (0x21 <= #[trigger] t[i] <= 0x7e || 0x80 <= t[i]),
        valid_utf8(t),
        c + t.len() + 1 <= buf.len(),
        buf.subrange(c, c + t.len() + 1) == t + seq![0x20u8],
    ensures
        parse_uri_spec(buf, c, c) == scan(
            Ok(Status::Complete(t)),
            c + t.len() + 1,
            c + t.len() + 1,
        ),
{
    let e = c + t.len();
    let w = t + seq![0x20u8];
    assert forall|i: int| 0 <= i <= t.len() implies buf[c + i] == w[i] by {
        assert(buf.subrange(c, e + 1)[i] == buf[c + i]);
    }
    assert forall|i: int| c <= i < e implies url_set()(#[trigger] buf[i]) by {
        assert(buf[i] == w[i - c]);
        assert(w[i - c] == t[i - c]);
    }
    lemma_scan_while_mid(buf, c, e, url_set());
    assert(buf[e] == w[t.len() as int]);
    assert(scan_while(buf, e, url_set()) == e);
    assert(buf.subrange(c, e) =~= t) by {
        assert forall|i: int| 0 <= i < t.len() implies buf.subrange(c, e)[i] == t[i] by {
            assert(buf[c + i] == w[i]);
        }
    }
}

/// A request head made of a request line and the empty line: a method, a space, a target, a
/// space, `HTTP/1.` and the minor version digit, then `\r\n\r\n`.
pub open spec fn request_line_head(m: Seq<u8>, t: Seq<u8>, v: u8) -> Seq<u8> {
    m + seq![0x20u8] + t + seq![0x20u8, 0x48, 0x54, 0x54, 0x50, 0x2f, 0x31, 0x2e, (0x30 + v) as u8]
        + seq![0x0du8, 0x0a, 0x0d, 0x0a]
}

/// A request line reads back as written: for any method that is a non-empty run of ASCII
/// letters (but for a longer method that begins with `POST`, which the `POST` shortcut cuts
/// short), any target that is a non-empty run of visible ASCII bytes (`!` to `~`) and bytes from
/// 0x80 up forming UTF-8 text, and version 1.0 or 1.1, the head parses as complete, with that
/// method, that target and that version, and no header set.
pub proof fn law_request_line(
    m: Seq<u8>,
    t: Seq<u8>,
    v: u8,
    m0: Option<Seq<u8>>,
    u0: Option<Seq<u8>>,
    v0: Option<u8>,
    h0: Map<Seq<u8>, Seq<u8>>,
)
    requires
        m.len() > 0,
        forall|i: int|
            0 <= i < m.len() ==> (0x41 <= #[trigger] m[i] <= 0x5a || 0x61 <= m[i] <= 0x7a),
        !(m.len() > 4 && m.subrange(0, 4) == seq![0x50u8, 0x4f, 0x53, 0x54]),
        t.len() > 0,
        forall|i: int| 0 <= i < t.len() ==> (0x21 <= #[trigger] t[i] <= 0x7e || 0x80 <= t[i]),
        valid_utf8(t),
        v == 0 || v == 1,
        request_line_head(m, t, v).len() <= usize::MAX,
    ensures
        ({
            let buf = request_line_head(m, t, v);
            let r = request_spec(buf, m0, u0, v0, h0);
            &&& r.res == Ok::<Status<usize>, ParseError>(Status::Complete(buf.len() as usize))
            &&& r.method == Some(m)
            &&& r.uri == Some(t)
            &&& r.version == Some(v)
            &&& r.headers == h0
            &&& !r.fault
        }),
{
    let buf = request_line_head(m, t, v);
    let lm = m.len() as int;
    let lt = t.len() as int;
    let ver = seq![0x48u8, 0x54, 0x54, 0x50, 0x2f, 0x31, 0x2e, (0x30 + v) as u8];
    assert(buf.len() == lm + lt + 14);
    assert forall|i: int| 0 <= i < lm implies buf[i] == m[i] by {}
    assert(buf[lm] == SP);
    assert forall|i: int| 0 <= i < lt implies buf[lm + 1 + i] == t[i] by {}
    let e = lm + 1 + lt;
    assert(buf[e] == SP);
    assert forall|i: int| 0 <= i < 8 implies buf[e + 1 + i] == ver[i] by {}
    assert(buf[e + 9] == CR && buf[e + 10] == LF && buf[e + 11] == CR && buf[e + 12] == LF);
    // Empty lines: none.
    assert(buf[0] == m[0]);
    assert(skip_empty_line_spec(buf, 0, 0) == scan(Ok(Status::Complete(())), 0, 0));
    // The method.
    if lm >= 4 && buf.subrange(0, 4) == method_post() {
        assert(m.subrange(0, 4) =~= buf.subrange(0, 4));
        assert(lm == 4);
    }
    law_method_is_token(buf, 0);
    assert(method_byte(buf[0]));
    assert forall|i: int| 1 <= i < lm implies method_set()(#[trigger] buf[i]) by {
        assert(buf[i] == m[i]);
    }
    lemma_scan_while_mid(buf, 1, lm, method_set());
    assert(scan_while(buf, lm, method_set()) == lm);
    assert(buf.subrange(0, lm) =~= m);
    assert forall|i: int| 0 <= i < m.len() implies m[i] < 0x80 by {}
    lemma_ascii_utf8(m);
    assert(parse_method_spec(buf, 0, 0) == text_scan(m, lm + 1, lm + 1));
    // The target.
    let c2 = lm + 1;
    assert(buf.subrange(c2, e + 1) =~= t + seq![0x20u8]);
    lemma_target_reads(buf, c2, t);
    // The version.
    assert(buf.subrange(e + 1, e + 9) =~= ver);
    if v == 0 {
        assert(ver =~= http10());
    } else {
        assert(ver =~= http11());
    }
    assert(parse_version_spec(buf, e + 1, e + 1) == scan(Ok(Status::Complete(v)), e + 1, e + 9));
    // The end of the line, then the empty line.
    assert(newline_spec(buf, e + 1, e + 9) == scan(Ok(Status::Complete(())), e + 11, e + 11));
    assert(headers_spec(buf, e + 11, e + 11, e + 11, h0).res == Ok::<Status<usize>, ParseError>(
        Status::Complete(0),
    ));
    assert(headers_spec(buf, e + 11, e + 11, e + 11, h0).cursor == e + 13);
    assert(headers_spec(buf, e + 11, e + 11, e + 11, h0).headers == h0);
    assert(!headers_spec(buf, e + 11, e + 11, e + 11, h0).fault);
}

} // verus!
