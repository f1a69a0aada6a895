use crate::parse::error::ParseError;
use crate::parse::parse_utils::{
    http11, lemma_scan_while_mid, name_set, parse_reason_spec,
    parse_status_code_spec, parse_version_spec, reason_byte, reason_set, scan, scan_while,
    skip_empty_line_spec, text_scan, three_digits, value_set,
};
use crate::parse::parser::{
    decimal, field_line, field_lines, headers_spec, last_visible, response_bytes, response_spec,
    space_spec, trim_value, value_spec, HeadScan, HeaderMap, Status,
};
use crate::parse::tchar::{digit_byte, header_name_byte, header_value_byte, CR, HTAB, LF, SP};
use vstd::prelude::*;
use vstd::string::StringSliceAdditionalSpecFns;
use vstd::utf8::valid_utf8;

verus! {

/// Bytes that are all ASCII are UTF-8.
pub proof fn lemma_ascii_utf8(b: Seq<u8>)
    requires
        forall|i: int| 0 <= i < b.len() ==> b[i] < 0x80,
    ensures
        valid_utf8(b),
    decreases b.len(),
{
    if b.len() > 0 {
        let rest = b.subrange(1, b.len() as int);
        lemma_ascii_utf8(rest);
    }
}

/// The lines of some fields: the first field's line, then the lines of the others.
pub proof fn lemma_field_lines_front(f: Seq<(Seq<u8>, Seq<u8>)>)
    requires
        f.len() > 0,
    ensures
        field_lines(f) == field_line(f[0]) + field_lines(f.drop_first()),
    decreases f.len(),
{
    if f.len() > 1 {
        lemma_field_lines_front(f.drop_last());
        assert(f.drop_last().drop_first() =~= f.drop_first().drop_last());
        assert(f.drop_first().last() == f.last());
    } else {
        assert(f.drop_last() =~= Seq::<(Seq<u8>, Seq<u8>)>::empty());
        assert(f.drop_first() =~= Seq::<(Seq<u8>, Seq<u8>)>::empty());
    }
}

/// `m` with the fields set one after the other, a later value replacing an earlier one.
pub open spec fn fold_fields(m: Map<Seq<u8>, Seq<u8>>, f: Seq<(Seq<u8>, Seq<u8>)>) -> Map<
    Seq<u8>,
    Seq<u8>,
>
    decreases f.len(),
{
    if f.len() == 0 {
        m
    } else {
        fold_fields(m.insert(f[0].0, f[0].1), f.drop_first())
    }
}

/// A header name: not empty, and made of header-name bytes.
pub open spec fn name_ok(n: Seq<u8>) -> bool {
    n.len() > 0 && forall|i: int| 0 <= i < n.len() ==> header_name_byte(#[trigger] n[i])
}

/// A header value that reads back as itself: made of header-value bytes, and neither starting
/// nor ending with a space or a tab.
pub open spec fn value_ok(v: Seq<u8>) -> bool {
    &&& forall|i: int| 0 <= i < v.len() ==> header_value_byte(#[trigger] v[i])
    &&& v.len() > 0 ==> v[0] != SP && v[0] != HTAB && v.last() != SP && v.last() != HTAB
}

/// Fields that read back as themselves.
pub open spec fn fields_ok(f: Seq<(Seq<u8>, Seq<u8>)>) -> bool {
    forall|i: int| 0 <= i < f.len() ==> name_ok((#[trigger] f[i]).0) && value_ok(f[i].1)
}

/// A value that neither ends with a blank is its own trimmed value.
pub proof fn lemma_trim_keeps(v: Seq<u8>)
    requires
        v.len() > 0 ==> v.last() != SP && v.last() != HTAB && v.last() != CR && v.last() != LF,
    ensures
        trim_value(v) == v,
{
    if v.len() > 0 {
        assert(last_visible(v, v.len() as int) == v.len() - 1);
        assert(v.subrange(0, v.len() as int) =~= v);
    }
}

/// The bytes of the literals a response is built from.
pub proof fn lemma_literal_bytes()
    ensures
        ": ".spec_bytes() == seq![0x3au8, 0x20],
        "\r\n".spec_bytes() == seq![0x0du8, 0x0a],
        "HTTP/1.1 ".spec_bytes() == seq![0x48u8, 0x54, 0x54, 0x50, 0x2f, 0x31, 0x2e, 0x31, 0x20],
        " ".spec_bytes() == seq![0x20u8],
        "Content-Length".spec_bytes() == seq![
            0x43u8, 0x6f, 0x6e, 0x74, 0x65, 0x6e, 0x74, 0x2d, 0x4c, 0x65, 0x6e, 0x67, 0x74, 0x68,
        ],
        "Content-Length: ".spec_bytes() == seq![
            0x43u8, 0x6f, 0x6e, 0x74, 0x65, 0x6e, 0x74, 0x2d, 0x4c, 0x65, 0x6e, 0x67, 0x74, 0x68,
            0x3a, 0x20,
        ],
        "\r\n\r\n".spec_bytes() == seq![0x0du8, 0x0a, 0x0d, 0x0a],
{
    broadcast use vstd::string::is_ascii_spec_bytes;
    reveal_strlit(": ");
    reveal_strlit("\r\n");
    reveal_strlit("HTTP/1.1 ");
    reveal_strlit(" ");
    reveal_strlit("Content-Length");
    reveal_strlit("Content-Length: ");
    reveal_strlit("\r\n\r\n");
    assert(vstd::string::is_ascii(": "));
    assert(vstd::string::is_ascii("\r\n"));
    assert(vstd::string::is_ascii("HTTP/1.1 "));
    assert(vstd::string::is_ascii(" "));
    assert(vstd::string::is_ascii("Content-Length"));
    assert(vstd::string::is_ascii("Content-Length: "));
    assert(vstd::string::is_ascii("\r\n\r\n"));
    assert(": ".spec_bytes() =~= seq![0x3au8, 0x20]);
    assert("\r\n".spec_bytes() =~= seq![0x0du8, 0x0a]);
    assert("HTTP/1.1 ".spec_bytes() =~= seq![0x48u8, 0x54, 0x54, 0x50, 0x2f, 0x31, 0x2e, 0x31, 0x20]);
    assert(" ".spec_bytes() =~= seq![0x20u8]);
    assert("Content-Length".spec_bytes() =~= seq![
        0x43u8, 0x6f, 0x6e, 0x74, 0x65, 0x6e, 0x74, 0x2d, 0x4c, 0x65, 0x6e, 0x67, 0x74, 0x68,
    ]);
    assert("Content-Length: ".spec_bytes() =~= seq![
        0x43u8, 0x6f, 0x6e, 0x74, 0x65, 0x6e, 0x74, 0x2d, 0x4c, 0x65, 0x6e, 0x67, 0x74, 0x68, 0x3a,
        0x20,
    ]);
    assert("\r\n\r\n".spec_bytes() =~= seq![0x0du8, 0x0a, 0x0d, 0x0a]);
}

/// Reading one header line `name: value` that starts at `c` sets that field and goes on after
/// the line.
pub proof fn lemma_read_field_line(
    buf: Seq<u8>,
    s0: int,
    c: int,
    fld: (Seq<u8>, Seq<u8>),
    m: Map<Seq<u8>, Seq<u8>>,
)
    requires
        0 <= c,
        name_ok(fld.0),
        value_ok(fld.1),
        c + field_line(fld).len() <= buf.len(),
        buf.subrange(c, c + field_line(fld).len()) == field_line(fld),
    ensures
        headers_spec(buf, s0, c, c, m) == headers_spec(
            buf,
            s0,
            c + field_line(fld).len(),
            c + field_line(fld).len(),
            m.insert(fld.0, fld.1),
        ),
{
    lemma_literal_bytes();
    let n = fld.0;
    let v = fld.1;
    let len = field_line(fld).len() as int;
    let f = c + n.len();
    let line = field_line(fld);
    assert(line =~= n + seq![0x3au8, 0x20] + v + seq![0x0du8, 0x0a]);
    assert forall|i: int| 0 <= i < len implies buf[c + i] == line[i] by {
        assert(buf.subrange(c, c + len)[i] == buf[c + i]);
    }
    assert forall|i: int| 0 <= i < n.len() implies buf[c + i] == n[i] by {
        assert(line[i] == n[i]);
    }
    assert(buf[f] == 0x3au8) by {
        assert(line[n.len() as int] == 0x3au8);
    }
    assert(buf[f + 1] == SP) by {
        assert(line[n.len() as int + 1] == 0x20u8);
    }
    assert forall|j: int| 0 <= j < v.len() implies buf[f + 2 + j] == v[j] by {
        assert(line[n.len() + 2 + j] == v[j]);
    }
    assert(buf[f + 2 + v.len()] == CR) by {
        assert(line[n.len() as int + 2 + v.len()] == 0x0du8);
    }
    assert(buf[f + 3 + v.len()] == LF) by {
        assert(line[n.len() as int + 3 + v.len()] == 0x0au8);
    }
    // The name.
    assert(header_name_byte(buf[c])) by {
        assert(buf[c] == n[0]);
    }
    assert forall|i: int| c + 1 <= i < f implies header_name_byte(#[trigger] buf[i]) by {
        assert(buf[i] == n[i - c]);
    }
    lemma_scan_while_mid(buf, c + 1, f, name_set());
    assert(scan_while(buf, f, name_set()) == f);
    assert(buf.subrange(c, f) =~= n);
    assert forall|i: int| 0 <= i < n.len() implies n[i] < 0x80 by {
        assert(header_name_byte(n[i]));
    }
    lemma_ascii_utf8(n);
    // The value.
    assert(value_spec(buf, f + 1, f + 1) == value_spec(buf, f + 2, f + 2));
    let vs = value_spec(buf, f + 2, f + 2);
    if v.len() == 0 {
        assert(vs == scan(Ok(Status::Complete(Seq::<u8>::empty())), f + 4, f + 4));
        assert(v =~= Seq::<u8>::empty());
    } else {
        assert(buf[f + 2] == v[0]);
        let e = f + 2 + v.len();
        assert forall|i: int| f + 3 <= i < e implies value_set()(#[trigger] buf[i]) by {
            assert(buf[i] == v[i - f - 2]);
        }
        lemma_scan_while_mid(buf, f + 3, e, value_set());
        assert(scan_while(buf, e, value_set()) == e);
        assert(buf.subrange(f + 2, e) =~= v);
        assert(vs == scan(Ok(Status::Complete(v)), e + 2, e + 2));
    }
    lemma_trim_keeps(v);
}

/// Reading the lines of some fields sets the fields in order and goes on after their lines.
pub proof fn lemma_read_field_lines(
    buf: Seq<u8>,
    s0: int,
    c: int,
    f: Seq<(Seq<u8>, Seq<u8>)>,
    m: Map<Seq<u8>, Seq<u8>>,
)
    requires
        0 <= c,
        fields_ok(f),
        c + field_lines(f).len() <= buf.len(),
        buf.subrange(c, c + field_lines(f).len()) == field_lines(f),
    ensures
        headers_spec(buf, s0, c, c, m) == headers_spec(
            buf,
            s0,
            c + field_lines(f).len(),
            c + field_lines(f).len(),
            fold_fields(m, f),
        ),
    decreases f.len(),
{
    if f.len() > 0 {
        lemma_field_lines_front(f);
        let first = f[0];
        let rest = f.drop_first();
        let l0 = field_line(first).len() as int;
        let all = field_lines(f);
        assert(buf.subrange(c, c + l0) =~= all.subrange(0, l0));
        assert(all.subrange(0, l0) =~= field_line(first));
        assert(buf.subrange(c + l0, c + l0 + field_lines(rest).len()) =~= all.subrange(
            l0,
            all.len() as int,
        ));
        assert(all.subrange(l0, all.len() as int) =~= field_lines(rest));
        assert(name_ok(first.0) && value_ok(first.1));
        lemma_read_field_line(buf, s0, c, first, m);
        assert forall|i: int| 0 <= i < rest.len() implies name_ok((#[trigger] rest[i]).0) && value_ok(
            rest[i].1,
        ) by {
            assert(rest[i] == f[i + 1]);
        }
        lemma_read_field_lines(buf, s0, c + l0, rest, m.insert(first.0, first.1));
    }
}

/// The decimal digits of a number are ASCII digits, and there is at least one.
pub proof fn lemma_decimal_digits(n: nat)
    ensures
        decimal(n).len() > 0,
        forall|i: int| 0 <= i < decimal(n).len() ==> digit_byte(#[trigger] decimal(n)[i]),
    decreases n,
{
    if n >= 10 {
        lemma_decimal_digits(n / 10);
        let d = decimal(n / 10);
        assert forall|i: int| 0 <= i < decimal(n).len() implies digit_byte(#[trigger] decimal(n)[i]) by {
            if i < d.len() {
                assert(decimal(n)[i] == d[i]);
            }
        }
    }
}

/// A three-digit number is written with three digits, which read back as the number.
pub proof fn lemma_decimal_three(c: u16)
    requires
        100 <= c <= 999,
    ensures
        decimal(c as nat) == seq![
            (48 + c / 100) as u8,
            (48 + (c / 10) % 10) as u8,
            (48 + c % 10) as u8,
        ],
        three_digits((48 + c / 100) as u8, (48 + (c / 10) % 10) as u8, (48 + c % 10) as u8) == c,
{
    let n = c as nat;
    assert(decimal(n / 100) == seq![(48 + n / 100) as u8]);
    assert(n / 10 / 10 == n / 100);
    assert(decimal(n / 10) =~= seq![(48 + n / 100) as u8, (48 + (n / 10) % 10) as u8]);
    assert(decimal(n) =~= seq![(48 + n / 100) as u8, (48 + (n / 10) % 10) as u8, (48 + n % 10) as u8]);
}

/// The name of the header that carries the length of the body.
pub open spec fn content_length() -> Seq<u8> {
    "Content-Length".spec_bytes()
}

/// The status line `HTTP/1.1 <code> <reason>` with its line end, the code given by its digits.
pub open spec fn status_line(d0: u8, d1: u8, d2: u8, reason: Seq<u8>) -> Seq<u8> {
    seq![0x48u8, 0x54, 0x54, 0x50, 0x2f, 0x31, 0x2e, 0x31, 0x20, d0, d1, d2, 0x20] + reason + seq![
        0x0du8,
        0x0a,
    ]
}

/// Reading a status line: version 1.1, the code of its digits, and its reason, after which the
/// headers start.
pub proof fn lemma_read_status_line(b: Seq<u8>, d0: u8, d1: u8, d2: u8, reason: Seq<u8>)
    requires
        digit_byte(d0) && digit_byte(d1) && digit_byte(d2),
        forall|i: int| 0 <= i < reason.len() ==> reason_byte(#[trigger] reason[i]),
        b.len() >= status_line(d0, d1, d2, reason).len(),
        b.subrange(0, status_line(d0, d1, d2, reason).len() as int) == status_line(d0, d1, d2, reason),
    ensures
        skip_empty_line_spec(b, 0, 0) == scan(Ok(Status::Complete(())), 0, 0),
        parse_version_spec(b, 0, 0) == scan(Ok(Status::Complete(1u8)), 0, 8),
        space_spec(b, 0, 8, ParseError::Version) == scan(Ok(Status::Complete(())), 9, 9),
        parse_status_code_spec(b, 9, 9) == scan(Ok(Status::Complete(three_digits(d0, d1, d2))), 9, 12),
        b[12] == SP,
        parse_reason_spec(b, 13, 13) == text_scan(reason, 15 + reason.len() as int, 15 + reason.len() as int),
{
    let st = status_line(d0, d1, d2, reason);
    let rl = reason.len() as int;
    assert forall|i: int| 0 <= i < st.len() implies b[i] == st[i] by {
        assert(b.subrange(0, st.len() as int)[i] == b[i]);
    }
    assert(b[0] == 0x48u8);
    assert(b.subrange(0, 8) =~= http11()) by {
        assert forall|i: int| 0 <= i < 8 implies b[i] == http11()[i] by {
            assert(b[i] == st[i]);
        }
    }
    assert(b[8] == st[8]);
    assert(b[9] == st[9] && b[10] == st[10] && b[11] == st[11] && b[12] == st[12]);
    let e = 13 + rl;
    assert forall|i: int| 13 <= i < e implies reason_set()(#[trigger] b[i]) by {
        assert(b[i] == st[i]);
        assert(st[i] == reason[i - 13]);
    }
    lemma_scan_while_mid(b, 13, e, reason_set());
    assert(b[e] == st[e]);
    assert(b[e + 1] == st[e + 1]);
    assert(scan_while(b, e, reason_set()) == e);
    assert(b.subrange(13, e) =~= reason) by {
        assert forall|i: int| 0 <= i < rl implies b.subrange(13, e)[i] == reason[i] by {
            assert(b[13 + i] == st[13 + i]);
        }
    }
}

/// Reading the header lines of a built response: its fields, then the length of the body, then
/// the empty line.
pub proof fn lemma_read_built_headers(
    b: Seq<u8>,
    hs: int,
    fields: Seq<(Seq<u8>, Seq<u8>)>,
    dl: Seq<u8>,
    h0: Map<Seq<u8>, Seq<u8>>,
)
    requires
        0 <= hs,
        fields_ok(fields),
        value_ok(dl),
        ({
            let t = field_lines(fields) + field_line((content_length(), dl)) + seq![0x0du8, 0x0a];
            hs + t.len() <= b.len() && b.subrange(hs, hs + t.len()) == t
        }),
    ensures
        ({
            let c2 = hs + field_lines(fields).len() + field_line((content_length(), dl)).len();
            headers_spec(b, hs, hs, hs, h0) == HeadScan {
                res: Ok(Status::Complete((c2 - hs) as usize)),
                start: c2,
                cursor: c2 + 2,
                headers: fold_fields(h0, fields).insert(content_length(), dl),
                fault: false,
            }
        }),
{
    lemma_literal_bytes();
    let fl = field_lines(fields);
    let cl = content_length();
    let cl_line = field_line((cl, dl));
    let t = fl + cl_line + seq![0x0du8, 0x0a];
    assert(b.subrange(hs, hs + fl.len()) =~= t.subrange(0, fl.len() as int));
    assert(t.subrange(0, fl.len() as int) =~= fl);
    lemma_read_field_lines(b, hs, hs, fields, h0);
    let c1 = hs + fl.len();
    let m1 = fold_fields(h0, fields);
    assert(b.subrange(c1, c1 + cl_line.len()) =~= t.subrange(fl.len() as int, fl.len() as int + cl_line.len()));
    assert(t.subrange(fl.len() as int, fl.len() as int + cl_line.len()) =~= cl_line);
    assert(name_ok(cl)) by {
        assert forall|i: int| 0 <= i < cl.len() implies header_name_byte(#[trigger] cl[i]) by {
            assert(0 <= i < 14);
        }
    }
    lemma_read_field_line(b, hs, c1, (cl, dl), m1);
    let c2 = c1 + cl_line.len();
    assert(b[c2] == t[c2 - hs]);
    assert(b[c2 + 1] == t[c2 + 1 - hs]);
}

/// The bytes of a built response with a three-digit code: its status line, its header lines
/// with the length of the body last, the empty line, and the body.
pub proof fn lemma_built_bytes(
    code: u16,
    reason: Seq<u8>,
    fields: Seq<(Seq<u8>, Seq<u8>)>,
    body: Seq<u8>,
)
    requires
        100 <= code <= 999,
    ensures
        response_bytes(Some(code), Some(reason), fields, body) == status_line(
            (48 + code / 100) as u8,
            (48 + (code / 10) % 10) as u8,
            (48 + code % 10) as u8,
            reason,
        ) + (field_lines(fields) + field_line((content_length(), decimal(body.len())))
            + seq![0x0du8, 0x0a]) + body,
{
    lemma_literal_bytes();
    lemma_decimal_three(code);
    let dl = decimal(body.len());
    let cl_line = field_line((content_length(), dl));
    assert(cl_line =~= content_length() + seq![0x3au8, 0x20] + dl + seq![0x0du8, 0x0a]);
    assert(response_bytes(Some(code), Some(reason), fields, body) =~= status_line(
        (48 + code / 100) as u8,
        (48 + (code / 10) % 10) as u8,
        (48 + code % 10) as u8,
        reason,
    ) + (field_lines(fields) + cl_line + seq![0x0du8, 0x0a]) + body);
}

/// What `build` writes, `Response::parse_header` reads back: the bytes of a response with a
/// three-digit status code, a reason phrase made of reason bytes and header fields that read
/// back as themselves parse, as a complete head, into version 1.1, the same code, the same
/// reason, and the same fields set in order, followed by the length of the body.
#[verifier::rlimit(50)]
pub proof fn law_build_then_parse(
    code: u16,
    reason: Seq<u8>,
    fields: Seq<(Seq<u8>, Seq<u8>)>,
    body: Seq<u8>,
    h0: Map<Seq<u8>, Seq<u8>>,
)
    requires
        100 <= code <= 999,
        forall|i: int| 0 <= i < reason.len() ==> reason_byte(#[trigger] reason[i]),
        valid_utf8(reason),
        fields_ok(fields),
    ensures
        ({
            let r = response_spec(
                response_bytes(Some(code), Some(reason), fields, body),
                None,
                None,
                None,
                h0,
            );
            &&& r.res == Ok::<Status<()>, ParseError>(Status::Complete(()))
            &&& r.version == Some(1u8)
            &&& r.status_code == Some(code)
            &&& r.reason == Some(reason)
            &&& r.headers == fold_fields(h0, fields).insert(content_length(), decimal(body.len()))
            &&& !r.fault
        }),
{
    lemma_decimal_three(code);
    lemma_decimal_digits(body.len());
    let d0 = (48 + code / 100) as u8;
    let d1 = (48 + (code / 10) % 10) as u8;
    let d2 = (48 + code % 10) as u8;
    let dl = decimal(body.len());
    let cl = content_length();
    let fl = field_lines(fields);
    let cl_line = field_line((cl, dl));
    let b = response_bytes(Some(code), Some(reason), fields, body);
    let st = status_line(d0, d1, d2, reason);
    let t = fl + cl_line + seq![0x0du8, 0x0a];
    let hs = st.len() as int;
    lemma_built_bytes(code, reason, fields, body);
    assert(b.subrange(0, hs) =~= st);
    assert(b.subrange(hs, hs + t.len()) =~= t);
    lemma_read_status_line(b, d0, d1, d2, reason);
    assert(value_ok(dl)) by {
        assert forall|i: int| 0 <= i < dl.len() implies header_value_byte(#[trigger] dl[i]) by {
            assert(digit_byte(dl[i]));
        }
        assert(digit_byte(dl[0]));
        assert(digit_byte(dl.last()));
    }
    lemma_read_built_headers(b, hs, fields, dl, h0);
}

/// Setting fields whose names all differ, one after the other, gives each name its field's
/// value and leaves every other key as it was.
pub proof fn lemma_fold_fields(m: Map<Seq<u8>, Seq<u8>>, f: Seq<(Seq<u8>, Seq<u8>)>)
    requires
        forall|i: int, j: int|
            0 <= i < f.len() && 0 <= j < f.len() && i != j ==> (#[trigger] f[i]).0 != (#[trigger] f[j]).0,
    ensures
        forall|i: int| 0 <= i < f.len() ==> fold_fields(m, f).contains_key((#[trigger] f[i]).0)
            && fold_fields(m, f)[f[i].0] == f[i].1,
        forall|k: Seq<u8>|
            (forall|i: int| 0 <= i < f.len() ==> (#[trigger] f[i]).0 != k) ==> (
            #[trigger] fold_fields(m, f).contains_key(k) == m.contains_key(k) && (m.contains_key(k)
                ==> fold_fields(m, f)[k] == m[k])),
    decreases f.len(),
{
    if f.len() > 0 {
        let rest = f.drop_first();
        let m1 = m.insert(f[0].0, f[0].1);
        assert forall|i: int, j: int|
            0 <= i < rest.len() && 0 <= j < rest.len() && i != j implies (#[trigger] rest[i]).0 != (
            #[trigger] rest[j]).0 by {
            assert(rest[i] == f[i + 1] && rest[j] == f[j + 1]);
        }
        lemma_fold_fields(m1, rest);
        assert(fold_fields(m, f) == fold_fields(m1, rest));
        assert forall|i: int| 0 <= i < f.len() implies fold_fields(m, f).contains_key(
            (#[trigger] f[i]).0,
        ) && fold_fields(m, f)[f[i].0] == f[i].1 by {
            if i > 0 {
                assert(rest[i - 1] == f[i]);
            } else {
                assert forall|j: int| 0 <= j < rest.len() implies (#[trigger] rest[j]).0 != f[0].0 by {
                    assert(rest[j] == f[j + 1]);
                }
                assert(fold_fields(m1, rest).contains_key(f[0].0));
            }
        }
        assert forall|k: Seq<u8>| (forall|i: int| 0 <= i < f.len() ==> (#[trigger] f[i]).0 != k) implies (
        #[trigger] fold_fields(m, f).contains_key(k) == m.contains_key(k) && (m.contains_key(k)
            ==> fold_fields(m, f)[k] == m[k])) by {
            assert(f[0].0 != k);
            assert forall|j: int| 0 <= j < rest.len() implies (#[trigger] rest[j]).0 != k by {
                assert(rest[j] == f[j + 1]);
            }
            assert(fold_fields(m1, rest).contains_key(k) == m1.contains_key(k));
        }
    }
}

/// The headers of a header map, set in order on an empty map, give the header map back.
pub proof fn law_fields_rebuild(h: HeaderMap)
    requires
        h.wf(),
    ensures
        fold_fields(Map::empty(), h.fields()) == h@,
{
    h.lemma_fields_distinct();
    h.law_fields_view();
    let f = h.fields();
    lemma_fold_fields(Map::empty(), f);
    assert forall|k: Seq<u8>| #[trigger] fold_fields(Map::empty(), f).contains_key(k) == h@.contains_key(k) by {
        if h@.contains_key(k) {
            let i = choose|i: int| 0 <= i < f.len() && (#[trigger] f[i]).0 == k;
            assert(fold_fields(Map::empty(), f).contains_key(f[i].0));
        } else {
            assert forall|i: int| 0 <= i < f.len() implies (#[trigger] f[i]).0 != k by {
                if f[i].0 == k {
                    assert(h@.contains_key(k));
                }
            }
        }
    }
    assert forall|k: Seq<u8>| #[trigger] fold_fields(Map::empty(), f).contains_key(k) implies fold_fields(
        Map::empty(),
        f,
    )[k] == h@[k] by {
        let i = choose|i: int| 0 <= i < f.len() && (#[trigger] f[i]).0 == k;
        assert(h@.contains_key(f[i].0));
    }
    assert(fold_fields(Map::empty(), f) =~= h@);
}

/// A response whose code has three digits, whose reason is made of reason bytes and whose
/// header names and values read back as themselves is read back, from the bytes `build` writes
/// for it, with that code, that reason, its headers, and the length of its body.
pub proof fn law_response_reads_back(code: u16, reason: Seq<u8>, h: HeaderMap, body: Seq<u8>)
    requires
        100 <= code <= 999,
        forall|i: int| 0 <= i < reason.len() ==> reason_byte(#[trigger] reason[i]),
        valid_utf8(reason),
        h.wf(),
        forall|k: Seq<u8>| #[trigger] h@.contains_key(k) ==> name_ok(k) && value_ok(h@[k]),
    ensures
        ({
            let r = response_spec(
                response_bytes(Some(code), Some(reason), h.fields(), body),
                None,
                None,
                None,
                Map::empty(),
            );
            &&& r.res == Ok::<Status<()>, ParseError>(Status::Complete(()))
            &&& r.version == Some(1u8)
            &&& r.status_code == Some(code)
            &&& r.reason == Some(reason)
            &&& r.headers == h@.insert(content_length(), decimal(body.len()))
            &&& !r.fault
        }),
{
    h.law_fields_view();
    let f = h.fields();
    assert forall|i: int| 0 <= i < f.len() implies name_ok((#[trigger] f[i]).0) && value_ok(f[i].1) by {
        assert(h@.contains_key(f[i].0));
    }
    law_build_then_parse(code, reason, f, body, Map::empty());
    law_fields_rebuild(h);
}

/// A status line reads back with its reason phrase exactly: for any three-digit code and any
/// reason phrase made of tabs, spaces, visible ASCII bytes (`!` to `~`) and bytes from 0x80 up
/// forming UTF-8 text, the response head parses as complete, with that code and that reason.
pub proof fn law_reason_reads_back(code: u16, reason: Seq<u8>, body: Seq<u8>)
    requires
        100 <= code <= 999,
        forall|i: int|
            0 <= i < reason.len() ==> (#[trigger] reason[i] == 0x09 || reason[i] == 0x20 || (0x21
                <= reason[i] <= 0x7e) || 0x80 <= reason[i]),
        valid_utf8(reason),
    ensures
        ({
            let r = response_spec(
                response_bytes(Some(code), Some(reason), Seq::empty(), body),
                None,
                None,
                None,
                Map::empty(),
            );
            &&& r.res == Ok::<Status<()>, ParseError>(Status::Complete(()))
            &&& r.status_code == Some(code)
            &&& r.reason == Some(reason)
        }),
{
    assert forall|i: int| 0 <= i < reason.len() implies reason_byte(#[trigger] reason[i]) by {}
    law_build_then_parse(code, reason, Seq::empty(), body, Map::empty());
}

} // verus!
