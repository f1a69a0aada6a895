use crate::parse::parse_utils::{lemma_scan_while_mid, name_set, scan, scan_while, value_set};
use crate::parse::parser::{headers_spec, name_spec, trim_value, value_spec, HeadScan, Status};
use crate::parse::round_trip::{lemma_ascii_utf8, name_ok};
use crate::parse::tchar::{header_name_byte, header_value_byte, COLON, CR, HTAB, LF, SP};
use vstd::prelude::*;

verus! {

/// The end of a line: `\r\n`, or a bare `\n`.
pub open spec fn eol(crlf: bool) -> Seq<u8> {
    if crlf {
        seq![CR, LF]
    } else {
        seq![LF]
    }
}

/// A header line as it stands in a message: the name, `:`, the raw value, the end of the line.
pub open spec fn raw_line(l: (Seq<u8>, Seq<u8>, bool)) -> Seq<u8> {
    l.0 + seq![COLON] + l.1 + eol(l.2)
}

/// Header lines one after the other.
pub open spec fn raw_lines(ls: Seq<(Seq<u8>, Seq<u8>, bool)>) -> Seq<u8>
    decreases ls.len(),
{
    if ls.len() == 0 {
        Seq::empty()
    } else {
        raw_line(ls[0]) + raw_lines(ls.drop_first())
    }
}

/// A value without the spaces and tabs it starts with.
pub open spec fn lstrip(v: Seq<u8>) -> Seq<u8>
    decreases v.len(),
{
    if v.len() > 0 && (v[0] == SP || v[0] == HTAB) {
        lstrip(v.drop_first())
    } else {
        v
    }
}

/// The value a raw value reads as: without the spaces and tabs around it.
pub open spec fn value_of_raw(v: Seq<u8>) -> Seq<u8> {
    trim_value(lstrip(v))
}

/// A well-formed header line: a name of header-name bytes, and a value of header-value bytes.
pub open spec fn line_ok(l: (Seq<u8>, Seq<u8>, bool)) -> bool {
    &&& name_ok(l.0)
    &&& forall|i: int| 0 <= i < l.1.len() ==> header_value_byte(#[trigger] l.1[i])
}

/// `m` with the headers of the lines set one after the other, a later value replacing an
/// earlier one.
pub open spec fn fold_lines(m: Map<Seq<u8>, Seq<u8>>, ls: Seq<(Seq<u8>, Seq<u8>, bool)>) -> Map<
    Seq<u8>,
    Seq<u8>,
>
    decreases ls.len(),
{
    if ls.len() == 0 {
        m
    } else {
        fold_lines(m.insert(ls[0].0, value_of_raw(ls[0].1)), ls.drop_first())
    }
}

/// Reading a raw value followed by the end of its line gives the value without the blanks it
/// starts with, and goes on after the line.
pub proof fn lemma_read_raw_value(buf: Seq<u8>, c: int, v: Seq<u8>, crlf: bool)
    requires
        0 <= c,
        forall|i: int| 0 <= i < v.len() ==> header_value_byte(#[trigger] v[i]),
        c + v.len() + eol(crlf).len() <= buf.len(),
        buf.subrange(c, c + v.len() + eol(crlf).len()) == v + eol(crlf),
    ensures
        value_spec(buf, c, c) == scan(
            Ok(Status::Complete(lstrip(v))),
            c + v.len() + eol(crlf).len(),
            c + v.len() + eol(crlf).len(),
        ),
    decreases v.len(),
{
    let t = v + eol(crlf);
    let n = v.len() as int;
    assert forall|i: int| 0 <= i < t.len() implies buf[c + i] == t[i] by {
        assert(buf.subrange(c, c + t.len())[i] == buf[c + i]);
    }
    assert(buf[c + n] == t[n]);
    if !crlf {
        assert(buf[c + n] == LF);
    } else {
        assert(buf[c + n] == CR);
        assert(buf[c + n + 1] == t[n + 1]);
        assert(buf[c + n + 1] == LF);
    }
    if n == 0 {
        assert(v =~= Seq::<u8>::empty());
        assert(lstrip(v) == v);
    } else if v[0] == SP || v[0] == HTAB {
        assert(t[0] == v[0]);
        assert(buf[c] == t[0]);
        let w = v.drop_first();
        assert(buf.subrange(c + 1, c + 1 + w.len() + eol(crlf).len()) =~= w + eol(crlf)) by {
            assert forall|i: int| 0 <= i < w.len() + eol(crlf).len() implies buf.subrange(
                c + 1,
                c + 1 + w.len() + eol(crlf).len(),
            )[i] == (w + eol(crlf))[i] by {
                assert(buf[c + 1 + i] == t[i + 1]);
            }
        }
        lemma_read_raw_value(buf, c + 1, w, crlf);
        assert(lstrip(v) == lstrip(w));
        assert(value_spec(buf, c, c) == value_spec(buf, c + 1, c + 1));
    } else {
        assert(lstrip(v) == v);
        assert(t[0] == v[0]);
        assert(buf[c] == t[0]);
        let e = c + n;
        assert forall|i: int| c + 1 <= i < e implies value_set()(#[trigger] buf[i]) by {
            assert(buf[i] == t[i - c]);
            assert(t[i - c] == v[i - c]);
        }
        lemma_scan_while_mid(buf, c + 1, e, value_set());
        assert(scan_while(buf, e, value_set()) == e);
        assert(buf.subrange(c, e) =~= v) by {
            assert forall|i: int| 0 <= i < n implies buf.subrange(c, e)[i] == v[i] by {
                assert(buf[c + i] == t[i]);
            }
        }
    }
}

/// Reading one header line sets its header to its value without the blanks around it, and goes
/// on after the line.
pub proof fn lemma_read_raw_line(
    buf: Seq<u8>,
    s0: int,
    c: int,
    l: (Seq<u8>, Seq<u8>, bool),
    m: Map<Seq<u8>, Seq<u8>>,
)
    requires
        0 <= c,
        line_ok(l),
        c + raw_line(l).len() <= buf.len(),
        buf.subrange(c, c + raw_line(l).len()) == raw_line(l),
    ensures
        headers_spec(buf, s0, c, c, m) == headers_spec(
            buf,
            s0,
            c + raw_line(l).len(),
            c + raw_line(l).len(),
            m.insert(l.0, value_of_raw(l.1)),
        ),
{
    let n = l.0;
    let v = l.1;
    let line = raw_line(l);
    let f = c + n.len();
    assert(line =~= n + (seq![COLON] + (v + eol(l.2))));
    assert forall|i: int| 0 <= i < line.len() implies buf[c + i] == line[i] by {
        assert(buf.subrange(c, c + line.len())[i] == buf[c + i]);
    }
    assert(line[0] == n[0]);
    assert(buf[c] == line[0]);
    assert(header_name_byte(n[0]));
    assert forall|i: int| c + 1 <= i < f implies name_set()(#[trigger] buf[i]) by {
        assert(buf[i] == line[i - c]);
        assert(line[i - c] == n[i - c]);
        assert(header_name_byte(n[i - c]));
    }
    lemma_scan_while_mid(buf, c + 1, f, name_set());
    assert(buf[f] == line[n.len() as int]);
    assert(buf[f] == COLON);
    assert(scan_while(buf, f, name_set()) == f);
    assert(buf.subrange(c, f) =~= n) by {
        assert forall|i: int| 0 <= i < n.len() implies buf.subrange(c, f)[i] == n[i] by {
            assert(buf[c + i] == line[i]);
        }
    }
    assert forall|i: int| 0 <= i < n.len() implies n[i] < 0x80 by {
        assert(header_name_byte(n[i]));
    }
    lemma_ascii_utf8(n);
    assert(name_spec(buf, c, c + 1) == crate::parse::parser::NameScan {
        name: Some(n),
        start: f + 1,
        cursor: f + 1,
        fault: false,
    });
    let rest = v + eol(l.2);
    assert(buf.subrange(f + 1, f + 1 + v.len() + eol(l.2).len()) =~= rest) by {
        assert forall|i: int| 0 <= i < rest.len() implies buf.subrange(
            f + 1,
            f + 1 + v.len() + eol(l.2).len(),
        )[i] == rest[i] by {
            assert(buf[f + 1 + i] == line[n.len() + 1 + i]);
        }
    }
    lemma_read_raw_value(buf, f + 1, v, l.2);
}

/// A header block is read to its end: a block of well-formed header lines, whatever blanks
/// stand around the values and whether the lines end with `\r\n` or `\n`, followed by an empty
/// line, is complete, and sets each header, in order, to its value without the blanks around it.
pub proof fn law_header_block(
    buf: Seq<u8>,
    s0: int,
    c: int,
    ls: Seq<(Seq<u8>, Seq<u8>, bool)>,
    end_crlf: bool,
    m: Map<Seq<u8>, Seq<u8>>,
)
    requires
        0 <= c,
        forall|i: int| 0 <= i < ls.len() ==> line_ok(#[trigger] ls[i]),
        c + raw_lines(ls).len() + eol(end_crlf).len() <= buf.len(),
        buf.subrange(c, c + raw_lines(ls).len() + eol(end_crlf).len()) == raw_lines(ls) + eol(
            end_crlf,
        ),
    ensures
        ({
            let e = c + raw_lines(ls).len();
            headers_spec(buf, s0, c, c, m) == HeadScan {
                res: Ok(Status::Complete((e - s0) as usize)),
                start: e,
                cursor: e + eol(end_crlf).len(),
                headers: fold_lines(m, ls),
                fault: false,
            }
        }),
    decreases ls.len(),
{
    let blk = raw_lines(ls) + eol(end_crlf);
    assert forall|i: int| 0 <= i < blk.len() implies buf[c + i] == blk[i] by {
        assert(buf.subrange(c, c + blk.len())[i] == buf[c + i]);
    }
    if ls.len() == 0 {
        assert(buf[c] == blk[0]);
        if end_crlf {
            assert(buf[c + 1] == blk[1]);
        }
    } else {
        let l = ls[0];
        let rs = ls.drop_first();
        let k = raw_line(l).len() as int;
        assert(raw_lines(ls) == raw_line(l) + raw_lines(rs));
        assert(buf.subrange(c, c + k) =~= raw_line(l)) by {
            assert forall|i: int| 0 <= i < k implies buf.subrange(c, c + k)[i] == raw_line(l)[i] by {
                assert(buf[c + i] == blk[i]);
            }
        }
        lemma_read_raw_line(buf, s0, c, l, m);
        let rb = raw_lines(rs) + eol(end_crlf);
        assert(buf.subrange(c + k, c + k + rb.len()) =~= rb) by {
            assert forall|i: int| 0 <= i < rb.len() implies buf.subrange(c + k, c + k + rb.len())[i]
                == rb[i] by {
                assert(buf[c + k + i] == blk[k + i]);
            }
        }
        assert forall|i: int| 0 <= i < rs.len() implies line_ok(#[trigger] rs[i]) by {
            assert(rs[i] == ls[i + 1]);
        }
        law_header_block(buf, s0, c + k, rs, end_crlf, m.insert(l.0, value_of_raw(l.1)));
    }
}

/// A token byte of a header name: a letter, a digit, or one of ``!#$%&'*+-.^_`|~``.
pub open spec fn token_char(b: u8) -> bool {
    ||| 0x41 <= b <= 0x5a
    ||| 0x61 <= b <= 0x7a
    ||| 0x30 <= b <= 0x39
    ||| b == 0x21 || b == 0x23 || b == 0x24 || b == 0x25 || b == 0x26 || b == 0x27 || b == 0x2a
    ||| b == 0x2b || b == 0x2d || b == 0x2e || b == 0x5e || b == 0x5f || b == 0x60 || b == 0x7c
    ||| b == 0x7e
}

/// A header block of lines whose names are non-empty runs of token bytes and whose values are
/// runs of tabs, spaces, visible ASCII bytes (`!` to `~`) and bytes from 0x80 up, followed by
/// an empty line, is read to its end and sets each header, in order, to its value without the
/// blanks around it.
pub proof fn law_header_block_bytes(
    buf: Seq<u8>,
    s0: int,
    c: int,
    ls: Seq<(Seq<u8>, Seq<u8>, bool)>,
    end_crlf: bool,
    m: Map<Seq<u8>, Seq<u8>>,
)
    requires
        0 <= c,
        forall|i: int|
            0 <= i < ls.len() ==> (#[trigger] ls[i]).0.len() > 0 && (forall|k: int|
                0 <= k < ls[i].0.len() ==> token_char(#[trigger] ls[i].0[k])) && (forall|k: int|
                0 <= k < ls[i].1.len() ==> (#[trigger] ls[i].1[k] == 0x09 || 0x20 <= ls[i].1[k]
                    <= 0x7e || 0x80 <= ls[i].1[k])),
        c + raw_lines(ls).len() + eol(end_crlf).len() <= buf.len(),
        buf.subrange(c, c + raw_lines(ls).len() + eol(end_crlf).len()) == raw_lines(ls) + eol(
            end_crlf,
        ),
    ensures
        ({
            let e = c + raw_lines(ls).len();
            headers_spec(buf, s0, c, c, m) == HeadScan {
                res: Ok(Status::Complete((e - s0) as usize)),
                start: e,
                cursor: e + eol(end_crlf).len(),
                headers: fold_lines(m, ls),
                fault: false,
            }
        }),
{
    assert forall|i: int| 0 <= i < ls.len() implies line_ok(#[trigger] ls[i]) by {
        let l = ls[i];
        assert forall|k: int| 0 <= k < l.0.len() implies header_name_byte(#[trigger] l.0[k]) by {
            assert(token_char(l.0[k]));
        }
        assert forall|k: int| 0 <= k < l.1.len() implies header_value_byte(#[trigger] l.1[k]) by {}
    }
    law_header_block(buf, s0, c, ls, end_crlf, m);
}

} // verus!
