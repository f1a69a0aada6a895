use crate::parse::error::ParseError;
use crate::parse::iter::{bytes_eq, ParseBuffer};
use crate::parse::parse_utils::{
    http1_prefix, lemma_scan_while, lemma_scan_while_ge,
    lemma_scan_while_le, match_header_name_vector, match_header_value, method_set, name_set, parse_method,
    parse_method_spec, parse_reason, parse_reason_spec, parse_status_code, parse_status_code_spec,
    parse_uri, parse_uri_spec, parse_version, parse_version_spec, scan, scan_while,
    skip_empty_line, skip_empty_line_spec, str_from_utf8, url_set, value_set, version_prefix_spec,
    Scan,
};
use crate::parse::tchar::{header_name_byte, header_value_byte, is_header_name, is_header_value, COLON, CR, HTAB, LF, SP};
use vstd::prelude::*;
use vstd::string::StringSliceAdditionalSpecFns;
use vstd::utf8::valid_utf8;

verus! {

/// The outcome of a parse that succeeded so far: either the input ended
/// before the parse could finish (`Partial`), or it finished with a value.
#[derive(Copy, Clone, PartialOrd, PartialEq, Debug)]
pub enum Status<T> {
    Partial,
    Complete(T),
}

impl<T> Status<T> {
    /// Whether the parse finished.
    pub fn is_complete(&self) -> (r: bool)
        ensures
            r == (self is Complete),
    {
        match *self {
            Status::Complete(..) => true,
            Status::Partial => false,
        }
    }

    /// Whether more input is needed.
    pub fn is_partial(&self) -> (r: bool)
        ensures
            r == (self is Partial),
    {
        match *self {
            Status::Partial => true,
            Status::Complete(..) => false,
        }
    }

    /// The value of a finished parse.
    pub fn unwrap(self) -> (r: T)
        requires
            self is Complete,
        ensures
            self == Status::Complete(r),
    {
        match self {
            Status::Complete(t) => t,
            Status::Partial => vstd::pervasive::unreached(),
        }
    }
}


/// The header fields of a message: each name with its value.
#[derive(Debug, Eq, PartialEq)]
pub struct HeaderMap<'buf> {
    header: Vec<(&'buf str, &'buf [u8])>,
}

impl<'buf> HeaderMap<'buf> {
    /// No name occurs twice.
    pub closed spec fn wf(&self) -> bool {
        forall|i: int, j: int|
            #![trigger self.header@[i], self.header@[j]]
            0 <= i < self.header@.len() && 0 <= j < self.header@.len() && i != j
                ==> self.header@[i].0.spec_bytes() != self.header@[j].0.spec_bytes()
    }

    /// Each name, by its bytes, with the bytes of its value.
    pub closed spec fn view(&self) -> Map<Seq<u8>, Seq<u8>> {
        Map::new(
            |k: Seq<u8>|
                exists|i: int|
                    0 <= i < self.header@.len() && (#[trigger] self.header@[i]).0.spec_bytes() == k,
            |k: Seq<u8>|
                self.header@[choose|i: int|
                    0 <= i < self.header@.len() && (#[trigger] self.header@[i]).0.spec_bytes()
                        == k].1@,
        )
    }

    /// The headers in the order they were first set, each name and value by its bytes.
    pub closed spec fn fields(&self) -> Seq<(Seq<u8>, Seq<u8>)> {
        self.header@.map_values(|h: (&str, &[u8])| (h.0.spec_bytes(), h.1@))
    }

    /// The fields that `build` writes are exactly the headers that were set: each name of the map
    /// is the name of a field, and each field carries the value the map gives its name.
    pub proof fn law_fields_view(&self)
        requires
            self.wf(),
        ensures
            forall|k: Seq<u8>|
                #![trigger self@.contains_key(k)]
                self@.contains_key(k) <==> exists|i: int|
                    0 <= i < self.fields().len() && (#[trigger] self.fields()[i]).0 == k,
            forall|i: int|
                0 <= i < self.fields().len() ==> self@[(#[trigger] self.fields()[i]).0]
                    == self.fields()[i].1,
    {
        assert forall|k: Seq<u8>| #![trigger self@.contains_key(k)]
            self@.contains_key(k) implies exists|i: int|
                0 <= i < self.fields().len() && (#[trigger] self.fields()[i]).0 == k by {
            let i = choose|i: int|
                0 <= i < self.header@.len() && (#[trigger] self.header@[i]).0.spec_bytes() == k;
            assert(self.fields()[i].0 == k);
        }
        assert forall|k: Seq<u8>| #![trigger self@.contains_key(k)]
            (exists|i: int| 0 <= i < self.fields().len() && (#[trigger] self.fields()[i]).0 == k)
            implies self@.contains_key(k) by {
            let i = choose|i: int| 0 <= i < self.fields().len() && (#[trigger] self.fields()[i]).0 == k;
            assert(self.header@[i].0.spec_bytes() == k);
        }
        assert forall|i: int| 0 <= i < self.fields().len() implies self@[(#[trigger] self.fields()[i]).0]
            == self.fields()[i].1 by {
            let k = self.fields()[i].0;
            assert(self.header@[i].0.spec_bytes() == k);
            let j = choose|j: int|
                0 <= j < self.header@.len() && (#[trigger] self.header@[j]).0.spec_bytes() == k;
            if j != i {
                assert(self.header@[j].0.spec_bytes() != self.header@[i].0.spec_bytes());
            }
        }
    }

    /// No two fields have the same name.
    pub proof fn lemma_fields_distinct(&self)
        requires
            self.wf(),
        ensures
            forall|i: int, j: int|
                0 <= i < self.fields().len() && 0 <= j < self.fields().len() && i != j
                    ==> (#[trigger] self.fields()[i]).0 != (#[trigger] self.fields()[j]).0,
    {
        assert forall|i: int, j: int|
            0 <= i < self.fields().len() && 0 <= j < self.fields().len() && i != j
                implies (#[trigger] self.fields()[i]).0 != (#[trigger] self.fields()[j]).0 by {
            assert(self.header@[i].0.spec_bytes() != self.header@[j].0.spec_bytes());
        }
    }

    /// Appends one `name: value` line for each header, in order, to `out`.
    pub fn append_fields(&self, out: &mut Vec<u8>)
        ensures
            final(out)@ == old(out)@ + field_lines(self.fields()),
    {
        let mut i: usize = 0;
        while i < self.header.len()
            invariant
                i <= self.header@.len(),
                out@ == old(out)@ + field_lines(self.fields().take(i as int)),
            decreases self.header@.len() - i,
        {
            let ghost o0 = out@;
            let (name, value) = self.header[i];
            out.extend_from_slice(name.as_bytes());
            out.extend_from_slice(": ".as_bytes());
            out.extend_from_slice(value);
            out.extend_from_slice("\r\n".as_bytes());
            proof {
                let f = self.fields().take(i + 1);
                assert(f.drop_last() =~= self.fields().take(i as int));
                assert(f.last() == (name.spec_bytes(), value@));
                assert(out@ =~= o0 + name.spec_bytes() + ": ".spec_bytes() + value@ + "\r\n".spec_bytes());
                assert(out@ =~= old(out)@ + field_lines(f));
            }
            i += 1;
        }
        assert(self.fields().take(self.header@.len() as int) =~= self.fields());
    }

    /// A map with no headers.
    pub fn new() -> (r: Self)
        ensures
            r.wf(),
            r@ == Map::<Seq<u8>, Seq<u8>>::empty(),
    {
        let r = HeaderMap { header: Vec::new() };
        assert(r@ =~= Map::<Seq<u8>, Seq<u8>>::empty());
        r
    }

    /// Sets the value of header `key`, replacing any value it had.
    pub fn insert(&mut self, key: &'buf str, value: &'buf [u8])
        requires
            old(self).wf(),
        ensures
            final(self).wf(),
            final(self)@ == old(self)@.insert(key.spec_bytes(), value@),
    {
        let kb = key.as_bytes();
        let mut i: usize = 0;
        let mut found = false;
        while i < self.header.len()
            invariant_except_break
                i <= self.header@.len(),
                self.wf(),
                *self == *old(self),
                forall|j: int| 0 <= j < i ==> (#[trigger] self.header@[j]).0.spec_bytes() != kb@,
                !found,
            ensures
                found ==> i < self.header@.len() && self.header@[i as int].0.spec_bytes() == kb@,
                !found ==> forall|j: int|
                    0 <= j < self.header@.len() ==> (#[trigger] self.header@[j]).0.spec_bytes()
                        != kb@,
                *self == *old(self),
                self.wf(),
            decreases self.header@.len() - i,
        {
            if bytes_eq(self.header[i].0.as_bytes(), kb) {
                found = true;
                break;
            }
            i += 1;
        }
        let ghost h0 = self.header@;
        if found {
            self.header.set(i, (key, value));
            proof {
                assert forall|a: int, b: int|
                    0 <= a < self.header@.len() && 0 <= b < self.header@.len() && a != b implies
                    #[trigger] self.header@[a].0.spec_bytes() != #[trigger] self.header@[b].0.spec_bytes() by {
                    if a != i && b != i {
                        assert(self.header@[a] == h0[a]);
                        assert(self.header@[b] == h0[b]);
                        assert(h0[a].0.spec_bytes() != h0[b].0.spec_bytes());
                    } else if a == i {
                        assert(h0[b].0.spec_bytes() != h0[i as int].0.spec_bytes());
                    } else {
                        assert(h0[a].0.spec_bytes() != h0[i as int].0.spec_bytes());
                    }
                }
                assert forall|k: Seq<u8>| #[trigger] self@.contains_key(k) == old(self)@.insert(key.spec_bytes(), value@).contains_key(k) by {
                    if k == key.spec_bytes() {
                        assert(self.header@[i as int].0.spec_bytes() == k);
                    } else if old(self)@.contains_key(k) {
                        let j = choose|j: int| 0 <= j < h0.len() && (#[trigger] h0[j]).0.spec_bytes() == k;
                        assert(self.header@[j] == h0[j]);
                    } else if self@.contains_key(k) {
                        let j = choose|j: int| 0 <= j < self.header@.len() && (#[trigger] self.header@[j]).0.spec_bytes() == k;
                        assert(j != i);
                        assert(self.header@[j] == h0[j]);
                    }
                }
                assert forall|k: Seq<u8>| #[trigger] self@.contains_key(k) implies self@[k] == old(self)@.insert(key.spec_bytes(), value@)[k] by {
                    let j = choose|j: int| 0 <= j < self.header@.len() && (#[trigger] self.header@[j]).0.spec_bytes() == k;
                    if k == key.spec_bytes() {
                        assert(j == i);
                    } else {
                        assert(self.header@[j] == h0[j]);
                        let j0 = choose|j0: int| 0 <= j0 < h0.len() && (#[trigger] h0[j0]).0.spec_bytes() == k;
                        assert(j0 == j);
                    }
                }
                assert(self@ =~= old(self)@.insert(key.spec_bytes(), value@));
            }
        } else {
            self.header.push((key, value));
            proof {
                let n = h0.len() as int;
                assert forall|a: int, b: int|
                    0 <= a < self.header@.len() && 0 <= b < self.header@.len() && a != b implies
                    #[trigger] self.header@[a].0.spec_bytes() != #[trigger] self.header@[b].0.spec_bytes() by {
                    if a < n && b < n {
                        assert(h0[a].0.spec_bytes() != h0[b].0.spec_bytes());
                    } else if a < n {
                        assert(h0[a].0.spec_bytes() != kb@);
                    } else {
                        assert(h0[b].0.spec_bytes() != kb@);
                    }
                }
                assert forall|k: Seq<u8>| #[trigger] self@.contains_key(k) == old(self)@.insert(key.spec_bytes(), value@).contains_key(k) by {
                    if k == key.spec_bytes() {
                        assert(self.header@[n].0.spec_bytes() == k);
                    } else if old(self)@.contains_key(k) {
                        let j = choose|j: int| 0 <= j < h0.len() && (#[trigger] h0[j]).0.spec_bytes() == k;
                        assert(self.header@[j] == h0[j]);
                    } else if self@.contains_key(k) {
                        let j = choose|j: int| 0 <= j < self.header@.len() && (#[trigger] self.header@[j]).0.spec_bytes() == k;
                        assert(j != n);
                        assert(self.header@[j] == h0[j]);
                    }
                }
                assert forall|k: Seq<u8>| #[trigger] self@.contains_key(k) implies self@[k] == old(self)@.insert(key.spec_bytes(), value@)[k] by {
                    let j = choose|j: int| 0 <= j < self.header@.len() && (#[trigger] self.header@[j]).0.spec_bytes() == k;
                    if k == key.spec_bytes() {
                        assert(j == n);
                    } else {
                        assert(j != n);
                        assert(self.header@[j] == h0[j]);
                        let j0 = choose|j0: int| 0 <= j0 < h0.len() && (#[trigger] h0[j0]).0.spec_bytes() == k;
                        assert(j0 == j);
                    }
                }
                assert(self@ =~= old(self)@.insert(key.spec_bytes(), value@));
            }
        }
    }

    /// The value of header `key`.
    pub fn get(&self, key: &str) -> (r: Option<&'buf [u8]>)
        requires
            self.wf(),
        ensures
            r is Some <==> self@.contains_key(key.spec_bytes()),
            r matches Some(v) ==> self@[key.spec_bytes()] == v@,
    {
        let kb = key.as_bytes();
        let mut i: usize = 0;
        while i < self.header.len()
            invariant
                i <= self.header@.len(),
                self.wf(),
                kb@ == key.spec_bytes(),
                forall|j: int| 0 <= j < i ==> (#[trigger] self.header@[j]).0.spec_bytes() != kb@,
            decreases self.header@.len() - i,
        {
            if bytes_eq(self.header[i].0.as_bytes(), kb) {
                proof {
                    let k = key.spec_bytes();
                    let j = choose|j: int| 0 <= j < self.header@.len() && (#[trigger] self.header@[j]).0.spec_bytes() == k;
                    assert(self.header@[i as int].0.spec_bytes() == k);
                    if j != i {
                        assert(self.header@[j].0.spec_bytes() != self.header@[i as int].0.spec_bytes());
                    }
                }
                return Some(self.header[i].1);
            }
            i += 1;
        }
        None
    }
}


/// What reading a header name leaves behind: the name's bytes (`None` when the input ended
/// first), where `start` and the cursor end up, and whether the read stops the program.
pub ghost struct NameScan {
    pub name: Option<Seq<u8>>,
    pub start: int,
    pub cursor: int,
    pub fault: bool,
}

/// Reading a header name up to its `:`.  Each try skips the header-name bytes from the cursor,
/// takes the next byte and the slice before it as the name; when that byte is not `:` the name
/// is dropped and the read starts again after it.  A name that is not UTF-8 stops the program.
pub open spec fn name_spec(buf: Seq<u8>, s: int, c: int) -> NameScan
    decreases buf.len() - c,
{
    let c1 = scan_while(buf, c, name_set());
    if c1 >= buf.len() {
        NameScan { name: None, start: s, cursor: c1, fault: false }
    } else {
        let name = buf.subrange(s, c1);
        let f = !valid_utf8(name);
        if buf[c1] == COLON {
            NameScan { name: Some(name), start: c1 + 1, cursor: c1 + 1, fault: f }
        } else {
            proof {
                lemma_scan_while_ge(buf, c, name_set());
            }
            let r = name_spec(buf, c1 + 1, c1 + 1);
            NameScan { fault: f || r.fault, ..r }
        }
    }
}

/// Reading a header value: the spaces and tabs before it are dropped; the value runs up to the
/// end of its line; a line that ends at once gives the empty value.
pub open spec fn value_spec(buf: Seq<u8>, s: int, c: int) -> Scan<Seq<u8>>
    decreases buf.len() - c,
{
    if c >= buf.len() {
        scan(Ok(Status::Partial), s, c)
    } else if buf[c] == SP || buf[c] == HTAB {
        value_spec(buf, c + 1, c + 1)
    } else if header_value_byte(buf[c]) {
        let e = scan_while(buf, c + 1, value_set());
        if e >= buf.len() {
            scan(Ok(Status::Partial), s, e)
        } else if buf[e] == CR {
            if e + 1 >= buf.len() {
                scan(Ok(Status::Partial), s, e + 1)
            } else if buf[e + 1] != LF {
                scan(Err(ParseError::NewLine), s, e + 2)
            } else {
                scan(Ok(Status::Complete(buf.subrange(s, e))), e + 2, e + 2)
            }
        } else if buf[e] == LF {
            scan(Ok(Status::Complete(buf.subrange(s, e))), e + 1, e + 1)
        } else {
            scan(Err(ParseError::HeaderValue), s, e + 1)
        }
    } else if buf[c] == CR {
        if c + 1 >= buf.len() {
            scan(Ok(Status::Partial), s, c + 1)
        } else if buf[c + 1] != LF {
            scan(Err(ParseError::NewLine), s, c + 2)
        } else {
            scan(Ok(Status::Complete(Seq::<u8>::empty())), c + 2, c + 2)
        }
    } else if buf[c] == LF {
        scan(Ok(Status::Complete(Seq::<u8>::empty())), c + 1, c + 1)
    } else {
        scan(Err(ParseError::HeaderValue), s, c + 1)
    }
}

/// Space, tab, carriage return or line feed.
pub open spec fn is_blank(b: u8) -> bool {
    b == SP || b == HTAB || b == CR || b == LF
}

/// The index of the last non-blank byte of `v` before index `i`, or -1.
pub open spec fn last_visible(v: Seq<u8>, i: int) -> int
    decreases i,
{
    if i <= 0 {
        -1
    } else if !is_blank(v[i - 1]) {
        i - 1
    } else {
        last_visible(v, i - 1)
    }
}

/// A value with its trailing blanks removed; a value made only of blanks is kept whole.
pub open spec fn trim_value(v: Seq<u8>) -> Seq<u8> {
    let l = last_visible(v, v.len() as int);
    if l >= 0 {
        v.subrange(0, l + 1)
    } else {
        v
    }
}

/// What reading the header section leaves behind: its result, where `start` and the cursor end
/// up, the headers read, and whether the read stops the program.
pub ghost struct HeadScan {
    pub res: Result<Status<usize>, ParseError>,
    pub start: int,
    pub cursor: int,
    pub headers: Map<Seq<u8>, Seq<u8>>,
    pub fault: bool,
}

/// Reading a value never moves backwards, and stays within the buffer.
pub proof fn lemma_value_progress(buf: Seq<u8>, s: int, c: int)
    ensures
        value_spec(buf, s, c).cursor >= c,
        c <= buf.len() ==> value_spec(buf, s, c).cursor <= buf.len(),
        s <= c ==> value_spec(buf, s, c).start >= s,
    decreases buf.len() - c,
{
    if c < buf.len() {
        if buf[c] == SP || buf[c] == HTAB {
            lemma_value_progress(buf, c + 1, c + 1);
        } else {
            lemma_scan_while_ge(buf, c + 1, value_set());
            lemma_scan_while_le(buf, c + 1, value_set());
        }
    }
}

/// Reading a name never moves backwards, and stays within the buffer.
pub proof fn lemma_name_progress(buf: Seq<u8>, s: int, c: int)
    ensures
        name_spec(buf, s, c).cursor >= c,
        c <= buf.len() ==> name_spec(buf, s, c).cursor <= buf.len(),
        s <= c ==> name_spec(buf, s, c).start >= s,
    decreases buf.len() - c,
{
    lemma_scan_while_ge(buf, c, name_set());
    if c <= buf.len() {
        lemma_scan_while_le(buf, c, name_set());
    }
    let c1 = scan_while(buf, c, name_set());
    if c1 < buf.len() && buf[c1] != COLON {
        lemma_name_progress(buf, c1 + 1, c1 + 1);
    }
}

/// Reading the header lines from `c` up to the empty line that ends them, adding each header
/// to `m` (a later value replaces an earlier one); `s0` is where the section's slice started, and
/// a complete section gives the distance from `s0` to the start of that empty line.
pub open spec fn headers_spec(buf: Seq<u8>, s0: int, s: int, c: int, m: Map<Seq<u8>, Seq<u8>>) -> HeadScan
    decreases buf.len() - c,
{
    if c >= buf.len() {
        HeadScan { res: Ok(Status::Partial), start: s, cursor: c, headers: m, fault: false }
    } else if buf[c] == CR {
        if c + 1 >= buf.len() {
            HeadScan { res: Ok(Status::Partial), start: s, cursor: c + 1, headers: m, fault: false }
        } else if buf[c + 1] != LF {
            HeadScan {
                res: Err(ParseError::NewLine),
                start: s,
                cursor: c + 2,
                headers: m,
                fault: false,
            }
        } else {
            HeadScan {
                res: Ok(Status::Complete((s - s0) as usize)),
                start: s,
                cursor: c + 2,
                headers: m,
                fault: false,
            }
        }
    } else if buf[c] == LF {
        HeadScan {
            res: Ok(Status::Complete((s - s0) as usize)),
            start: s,
            cursor: c + 1,
            headers: m,
            fault: false,
        }
    } else if !header_name_byte(buf[c]) {
        HeadScan { res: Err(ParseError::HeaderName), start: s, cursor: c + 1, headers: m, fault: false }
    } else {
        let ns = name_spec(buf, s, c + 1);
        match ns.name {
            None => HeadScan {
                res: Ok(Status::Partial),
                start: ns.start,
                cursor: ns.cursor,
                headers: m,
                fault: ns.fault,
            },
            Some(name) => {
                let vs = value_spec(buf, ns.start, ns.cursor);
                match vs.res {
                    Ok(Status::Complete(v)) => {
                        proof {
                            lemma_name_progress(buf, s, c + 1);
                            lemma_value_progress(buf, ns.start, ns.cursor);
                        }
                        let r = headers_spec(
                            buf,
                            s0,
                            vs.start,
                            vs.cursor,
                            m.insert(name, trim_value(v)),
                        );
                        HeadScan { fault: ns.fault || r.fault, ..r }
                    },
                    Ok(Status::Partial) => HeadScan {
                        res: Ok(Status::Partial),
                        start: vs.start,
                        cursor: vs.cursor,
                        headers: m,
                        fault: ns.fault,
                    },
                    Err(e) => HeadScan {
                        res: Err(e),
                        start: vs.start,
                        cursor: vs.cursor,
                        headers: m,
                        fault: ns.fault,
                    },
                }
            },
        }
    }
}


/// Reads a header name up to its `:` (see `name_spec`); `None` when the input ends first.
fn read_header_name<'a>(bytes: &mut ParseBuffer<'a>) -> (r: Option<&'a str>)
    requires
        old(bytes).wf(),
        !name_spec(old(bytes).buf@, old(bytes).start as int, old(bytes).cursor as int).fault,
    ensures
        ({
            let ns = name_spec(old(bytes).buf@, old(bytes).start as int, old(bytes).cursor as int);
            &&& final(bytes).wf()
            &&& final(bytes).buf == old(bytes).buf
            &&& final(bytes).start == ns.start
            &&& final(bytes).cursor == ns.cursor
            &&& r is None <==> ns.name is None
            &&& r matches Some(n) ==> ns.name == Some(n.spec_bytes())
        }),
{
    let ghost ns = name_spec(old(bytes).buf@, old(bytes).start as int, old(bytes).cursor as int);
    let mut result: Option<&'a str> = None;
    loop
        invariant_except_break
            bytes.wf(),
            bytes.buf == old(bytes).buf,
            ns == name_spec(old(bytes).buf@, old(bytes).start as int, old(bytes).cursor as int),
            name_spec(bytes.buf@, bytes.start as int, bytes.cursor as int).name == ns.name,
            name_spec(bytes.buf@, bytes.start as int, bytes.cursor as int).start == ns.start,
            name_spec(bytes.buf@, bytes.start as int, bytes.cursor as int).cursor == ns.cursor,
            !name_spec(bytes.buf@, bytes.start as int, bytes.cursor as int).fault,
        ensures
            bytes.wf(),
            bytes.buf == old(bytes).buf,
            bytes.start == ns.start,
            bytes.cursor == ns.cursor,
            result is None <==> ns.name is None,
            result matches Some(n) ==> ns.name == Some(n.spec_bytes()),
        decreases bytes.buf@.len() - bytes.cursor,
    {
        proof {
            lemma_scan_while_ge(bytes.buf@, bytes.cursor as int, name_set());
            lemma_scan_while_le(bytes.buf@, bytes.cursor as int, name_set());
        }
        match_header_name_vector(bytes);
        let b = match bytes.next_byte() {
            Some(b) => b,
            None => {
                result = None;
                break;
            },
        };
        let bslice = match bytes.sub_slice(1) {
            Some(s) => s,
            None => {
                proof {
                    assert(false);
                }
                break;
            },
        };
        let name = match str_from_utf8(bslice) {
            Some(n) => n,
            None => {
                proof {
                    assert(false);
                }
                break;
            },
        };
        if b == COLON {
            result = Some(name);
            break;
        }
    }
    result
}

/// Reads a header value up to the end of its line (see `value_spec`).
fn read_header_value<'a>(bytes: &mut ParseBuffer<'a>) -> (r: Result<Status<&'a [u8]>, ParseError>)
    requires
        old(bytes).wf(),
    ensures
        ({
            let vs = value_spec(old(bytes).buf@, old(bytes).start as int, old(bytes).cursor as int);
            &&& final(bytes).wf()
            &&& final(bytes).buf == old(bytes).buf
            &&& final(bytes).start == vs.start
            &&& final(bytes).cursor == vs.cursor
            &&& match r {
                Ok(Status::Complete(v)) => vs.res == Ok::<Status<Seq<u8>>, ParseError>(Status::Complete(v@)),
                Ok(Status::Partial) => vs.res == Ok::<Status<Seq<u8>>, ParseError>(Status::Partial),
                Err(e) => vs.res == Err::<Status<Seq<u8>>, ParseError>(e),
            }
        }),
{
    let ghost vs = value_spec(old(bytes).buf@, old(bytes).start as int, old(bytes).cursor as int);
    let mut result: Result<Status<&'a [u8]>, ParseError> = Ok(Status::Partial);
    loop
        invariant_except_break
            bytes.wf(),
            bytes.buf == old(bytes).buf,
            vs == value_spec(old(bytes).buf@, old(bytes).start as int, old(bytes).cursor as int),
            value_spec(bytes.buf@, bytes.start as int, bytes.cursor as int) == vs,
        ensures
            bytes.wf(),
            bytes.buf == old(bytes).buf,
            bytes.start == vs.start,
            bytes.cursor == vs.cursor,
            match result {
                Ok(Status::Complete(v)) => vs.res == Ok::<Status<Seq<u8>>, ParseError>(Status::Complete(v@)),
                Ok(Status::Partial) => vs.res == Ok::<Status<Seq<u8>>, ParseError>(Status::Partial),
                Err(e) => vs.res == Err::<Status<Seq<u8>>, ParseError>(e),
            },
        decreases bytes.buf@.len() - bytes.cursor,
    {
        let ghost c = bytes.cursor as int;
        let b = match bytes.next_byte() {
            Some(b) => b,
            None => {
                result = Ok(Status::Partial);
                break;
            },
        };
        if b == SP || b == HTAB {
            let _ = bytes.slice();
            continue;
        }
        if is_header_value(b) {
            proof {
                lemma_scan_while(bytes.buf@, c + 1, value_set());
            }
            match_header_value(bytes);
            let b2 = match bytes.next_byte() {
                Some(b2) => b2,
                None => {
                    result = Ok(Status::Partial);
                    break;
                },
            };
            let skip_num: usize = if b2 == CR {
                match bytes.next_byte() {
                    Some(n) => {
                        if n != LF {
                            result = Err(ParseError::NewLine);
                            break;
                        }
                    },
                    None => {
                        result = Ok(Status::Partial);
                        break;
                    },
                }
                2
            } else if b2 == LF {
                1
            } else {
                result = Err(ParseError::HeaderValue);
                break;
            };
            match bytes.sub_slice(skip_num) {
                Some(v) => {
                    result = Ok(Status::Complete(v));
                },
                None => {
                    proof {
                        assert(false);
                    }
                },
            }
            break;
        }
        if b == CR {
            match bytes.next_byte() {
                Some(n) => {
                    if n != LF {
                        result = Err(ParseError::NewLine);
                        break;
                    }
                },
                None => {
                    result = Ok(Status::Partial);
                    break;
                },
            }
        } else if b != LF {
            result = Err(ParseError::HeaderValue);
            break;
        }
        match bytes.slice() {
            Some(ws) => {
                result = Ok(Status::Complete(&ws[0..0]));
                assert(ws@.subrange(0, 0) =~= Seq::<u8>::empty());
            },
            None => {},
        }
        break;
    }
    result
}

/// A header value without its trailing blanks (a value made only of blanks is kept whole).
fn trim_header_value<'a>(v: &'a [u8]) -> (r: &'a [u8])
    ensures
        r@ == trim_value(v@),
{
    let mut i: usize = v.len();
    while i > 0 && (v[i - 1] == SP || v[i - 1] == HTAB || v[i - 1] == CR || v[i - 1] == LF)
        invariant
            i <= v@.len(),
            last_visible(v@, v@.len() as int) == last_visible(v@, i as int),
        decreases i,
    {
        i -= 1;
    }
    if i > 0 {
        &v[0..i]
    } else {
        v
    }
}

/// Reads the header lines up to the empty line that ends them, adding each header to `headers`;
/// a complete section gives how far its slice start moved.
pub fn parse_header_iter<'a>(bytes: &mut ParseBuffer<'a>, headers: &mut HeaderMap<'a>) -> (r: Result<
    Status<usize>,
    ParseError,
>)
    requires
        old(bytes).wf(),
        old(headers).wf(),
        !headers_spec(
            old(bytes).buf@,
            old(bytes).start as int,
            old(bytes).start as int,
            old(bytes).cursor as int,
            old(headers)@,
        ).fault,
    ensures
        ({
            let hs = headers_spec(
                old(bytes).buf@,
                old(bytes).start as int,
                old(bytes).start as int,
                old(bytes).cursor as int,
                old(headers)@,
            );
            &&& final(bytes).wf()
            &&& final(bytes).buf == old(bytes).buf
            &&& final(bytes).start == hs.start
            &&& final(bytes).cursor == hs.cursor
            &&& r == hs.res
            &&& final(headers).wf()
            &&& final(headers)@ == hs.headers
        }),
{
    let start = bytes.start;
    let ghost hs = headers_spec(
        old(bytes).buf@,
        old(bytes).start as int,
        old(bytes).start as int,
        old(bytes).cursor as int,
        old(headers)@,
    );
    let mut result: Result<Status<usize>, ParseError> = Err(ParseError::TooManyHeaders);
    loop
        invariant_except_break
            bytes.wf(),
            bytes.buf == old(bytes).buf,
            headers.wf(),
            start == old(bytes).start,
            start <= bytes.start,
            hs == headers_spec(
                old(bytes).buf@,
                old(bytes).start as int,
                old(bytes).start as int,
                old(bytes).cursor as int,
                old(headers)@,
            ),
            headers_spec(bytes.buf@, start as int, bytes.start as int, bytes.cursor as int, headers@).res == hs.res,
            headers_spec(bytes.buf@, start as int, bytes.start as int, bytes.cursor as int, headers@).start == hs.start,
            headers_spec(bytes.buf@, start as int, bytes.start as int, bytes.cursor as int, headers@).cursor == hs.cursor,
            headers_spec(bytes.buf@, start as int, bytes.start as int, bytes.cursor as int, headers@).headers == hs.headers,
            !headers_spec(bytes.buf@, start as int, bytes.start as int, bytes.cursor as int, headers@).fault,
        ensures
            bytes.wf(),
            bytes.buf == old(bytes).buf,
            bytes.start == hs.start,
            bytes.cursor == hs.cursor,
            result == hs.res,
            headers.wf(),
            headers@ == hs.headers,
        decreases bytes.buf@.len() - bytes.cursor,
    {
        let ghost s = bytes.start as int;
        let ghost c = bytes.cursor as int;
        let b = match bytes.next_byte() {
            Some(b) => b,
            None => {
                result = Ok(Status::Partial);
                break;
            },
        };
        if b == CR {
            match bytes.next_byte() {
                Some(n) => {
                    if n != LF {
                        result = Err(ParseError::NewLine);
                        break;
                    }
                },
                None => {
                    result = Ok(Status::Partial);
                    break;
                },
            }
            result = Ok(Status::Complete(bytes.start - start));
            break;
        }
        if b == LF {
            result = Ok(Status::Complete(bytes.start - start));
            break;
        }
        if !is_header_name(b) {
            result = Err(ParseError::HeaderName);
            break;
        }
        let header_name = match read_header_name(bytes) {
            Some(n) => n,
            None => {
                result = Ok(Status::Partial);
                break;
            },
        };
        proof {
            lemma_name_progress(bytes.buf@, s, c + 1);
            lemma_value_progress(bytes.buf@, bytes.start as int, bytes.cursor as int);
        }
        let header_value_slice = match read_header_value(bytes) {
            Ok(Status::Complete(v)) => v,
            Ok(Status::Partial) => {
                result = Ok(Status::Partial);
                break;
            },
            Err(e) => {
                result = Err(e);
                break;
            },
        };
        let header_value = trim_header_value(header_value_slice);
        headers.insert(header_name, header_value);
    }
    result
}


/// Reading the end of a line: `\r\n` or `\n`; the next slice starts after it.
pub open spec fn newline_spec(buf: Seq<u8>, s: int, c: int) -> Scan<()> {
    if c >= buf.len() {
        scan(Ok(Status::Partial), s, c)
    } else if buf[c] == CR {
        if c + 1 >= buf.len() {
            scan(Ok(Status::Partial), s, c + 1)
        } else if buf[c + 1] != LF {
            scan(Err(ParseError::NewLine), s, c + 2)
        } else {
            scan(Ok(Status::Complete(())), c + 2, c + 2)
        }
    } else if buf[c] == LF {
        scan(Ok(Status::Complete(())), c + 1, c + 1)
    } else {
        scan(Err(ParseError::NewLine), s, c + 1)
    }
}

/// Reading one space; any other byte is the error `err`; the next slice starts after it.
pub open spec fn space_spec(buf: Seq<u8>, s: int, c: int, err: ParseError) -> Scan<()> {
    if c >= buf.len() {
        scan(Ok(Status::Partial), s, c)
    } else if buf[c] != SP {
        scan(Err(err), s, c + 1)
    } else {
        scan(Ok(Status::Complete(())), c + 1, c + 1)
    }
}

/// An unfinished result carried over to another type: the same error, or `Partial`.
pub open spec fn halted<T, U>(r: Result<Status<T>, ParseError>) -> Result<Status<U>, ParseError> {
    match r {
        Err(e) => Err(e),
        _ => Ok(Status::Partial),
    }
}

/// The value of a step that finished.
pub open spec fn done<T>(r: Result<Status<T>, ParseError>) -> bool {
    r matches Ok(Status::Complete(_))
}

/// The value of a step that finished.
pub open spec fn value_of<T>(r: Result<Status<T>, ParseError>) -> T {
    r->Ok_0->Complete_0
}

/// What parsing a request head leaves behind: its result (a complete head gives the number of
/// bytes it takes), the fields it set, the headers, and whether it stops the program.
pub ghost struct RequestScan {
    pub res: Result<Status<usize>, ParseError>,
    pub method: Option<Seq<u8>>,
    pub uri: Option<Seq<u8>>,
    pub version: Option<u8>,
    pub headers: Map<Seq<u8>, Seq<u8>>,
    pub fault: bool,
}

/// Parsing a request head from `buf`: empty lines, the request line (method, target, version),
/// then the header lines; each field is set as soon as it is read, so an unfinished parse keeps
/// what it read.  `m0`, `u0`, `v0`, `h0` are what the fields held before.
pub open spec fn request_spec(
    buf: Seq<u8>,
    m0: Option<Seq<u8>>,
    u0: Option<Seq<u8>>,
    v0: Option<u8>,
    h0: Map<Seq<u8>, Seq<u8>>,
) -> RequestScan {
    let s1 = skip_empty_line_spec(buf, 0, 0);
    if !done(s1.res) {
        RequestScan { res: halted(s1.res), method: m0, uri: u0, version: v0, headers: h0, fault: false }
    } else {
        let s2 = parse_method_spec(buf, s1.start, s1.cursor);
        if !done(s2.res) {
            RequestScan {
                res: halted(s2.res),
                method: m0,
                uri: u0,
                version: v0,
                headers: h0,
                fault: s2.fault,
            }
        } else {
            let m = Some(value_of(s2.res));
            let s3 = parse_uri_spec(buf, s2.start, s2.cursor);
            if !done(s3.res) {
                RequestScan {
                    res: halted(s3.res),
                    method: m,
                    uri: u0,
                    version: v0,
                    headers: h0,
                    fault: s2.fault,
                }
            } else {
                let u = Some(value_of(s3.res));
                let s4 = parse_version_spec(buf, s3.start, s3.cursor);
                if !done(s4.res) {
                    RequestScan {
                        res: halted(s4.res),
                        method: m,
                        uri: u,
                        version: v0,
                        headers: h0,
                        fault: s2.fault,
                    }
                } else {
                    let v = Some(value_of(s4.res));
                    let s5 = newline_spec(buf, s4.start, s4.cursor);
                    if !done(s5.res) {
                        RequestScan {
                            res: halted(s5.res),
                            method: m,
                            uri: u,
                            version: v,
                            headers: h0,
                            fault: s2.fault,
                        }
                    } else {
                        let s6 = headers_spec(buf, s5.start, s5.start, s5.cursor, h0);
                        RequestScan {
                            res: if done(s6.res) {
                                Ok(Status::Complete(s6.cursor as usize))
                            } else {
                                halted(s6.res)
                            },
                            method: m,
                            uri: u,
                            version: v,
                            headers: s6.headers,
                            fault: s2.fault || s6.fault,
                        }
                    }
                }
            }
        }
    }
}

/// A text field taken by its bytes.
pub open spec fn text_of(t: Option<&str>) -> Option<Seq<u8>> {
    match t {
        Some(s) => Some(s.spec_bytes()),
        None => None,
    }
}

/// A request head: the fields of its request line, and its headers.
#[derive(Debug, Eq, PartialEq)]
pub struct Request<'h, 'b> {
    pub method: Option<&'b str>,
    pub uri: Option<&'b str>,
    pub version: Option<u8>,
    pub headers: &'h mut HeaderMap<'b>,
}

impl<'h, 'b> Request<'h, 'b> {
    /// A request with no fields set, whose headers go into `headers`.
    pub fn new(headers: &'h mut HeaderMap<'b>) -> (r: Request<'h, 'b>)
        ensures
            r.method is None,
            r.uri is None,
            r.version is None,
            *r.headers == *old(headers),
    {
        Request { method: None, uri: None, version: None, headers }
    }

    /// Parses a request head from `bytes` (see `request_spec`); a complete head gives the number
    /// of bytes it takes.
    pub fn parse_head(&mut self, bytes: &'b [u8]) -> (r: Result<Status<usize>, ParseError>)
        requires
            old(self).headers.wf(),
            !request_spec(
                bytes@,
                text_of(old(self).method),
                text_of(old(self).uri),
                old(self).version,
                old(self).headers@,
            ).fault,
        ensures
            ({
                let rs = request_spec(
                    bytes@,
                    text_of(old(self).method),
                    text_of(old(self).uri),
                    old(self).version,
                    old(self).headers@,
                );
                &&& r == rs.res
                &&& text_of(final(self).method) == rs.method
                &&& text_of(final(self).uri) == rs.uri
                &&& final(self).version == rs.version
                &&& final(self).headers.wf()
                &&& final(self).headers@ == rs.headers
            }),
    {
        let mut bytes = ParseBuffer::new(bytes);
        match skip_empty_line(&mut bytes) {
            Ok(Status::Complete(_)) => {},
            Ok(Status::Partial) => return Ok(Status::Partial),
            Err(e) => return Err(e),
        }
        let method = match parse_method(&mut bytes) {
            Ok(Status::Complete(m)) => m,
            Ok(Status::Partial) => return Ok(Status::Partial),
            Err(e) => return Err(e),
        };
        self.method = Some(method);
        let uri = match parse_uri(&mut bytes) {
            Ok(Status::Complete(u)) => u,
            Ok(Status::Partial) => return Ok(Status::Partial),
            Err(e) => return Err(e),
        };
        self.uri = Some(uri);
        let version = match parse_version(&mut bytes) {
            Ok(Status::Complete(v)) => v,
            Ok(Status::Partial) => return Ok(Status::Partial),
            Err(e) => return Err(e),
        };
        self.version = Some(version);
        match bytes.next_byte() {
            Some(b) => {
                if b == CR {
                    match bytes.next_byte() {
                        Some(n) => {
                            if n != LF {
                                return Err(ParseError::NewLine);
                            }
                        },
                        None => return Ok(Status::Partial),
                    }
                    let _ = bytes.slice();
                } else if b == LF {
                    let _ = bytes.slice();
                } else {
                    return Err(ParseError::NewLine);
                }
            },
            None => return Ok(Status::Partial),
        }
        match parse_header_iter(&mut bytes, self.headers) {
            Ok(Status::Complete(_)) => {},
            Ok(Status::Partial) => return Ok(Status::Partial),
            Err(e) => return Err(e),
        }
        Ok(Status::Complete(bytes.cursor))
    }

    /// Parses a request head from `bytes` (see `request_spec`).
    pub fn parse_header(&mut self, bytes: &'b [u8]) -> (r: Result<Status<()>, ParseError>)
        requires
            old(self).headers.wf(),
            !request_spec(
                bytes@,
                text_of(old(self).method),
                text_of(old(self).uri),
                old(self).version,
                old(self).headers@,
            ).fault,
        ensures
            ({
                let rs = request_spec(
                    bytes@,
                    text_of(old(self).method),
                    text_of(old(self).uri),
                    old(self).version,
                    old(self).headers@,
                );
                &&& r == (if done(rs.res) {
                    Ok(Status::Complete(()))
                } else {
                    halted::<usize, ()>(rs.res)
                })
                &&& text_of(final(self).method) == rs.method
                &&& text_of(final(self).uri) == rs.uri
                &&& final(self).version == rs.version
                &&& final(self).headers.wf()
                &&& final(self).headers@ == rs.headers
            }),
    {
        match self.parse_head(bytes) {
            Ok(Status::Complete(_)) => Ok(Status::Complete(())),
            Ok(Status::Partial) => Ok(Status::Partial),
            Err(e) => Err(e),
        }
    }
}


/// What parsing a response head leaves behind: its result, the fields it set, the headers, and
/// whether it stops the program.
pub ghost struct ResponseScan {
    pub res: Result<Status<()>, ParseError>,
    pub version: Option<u8>,
    pub status_code: Option<u16>,
    pub reason: Option<Seq<u8>>,
    pub headers: Map<Seq<u8>, Seq<u8>>,
    pub fault: bool,
}

/// Parsing the headers of a response once its status line is read; `s`, `c` is where the
/// status line ended.
pub open spec fn response_tail_spec(
    buf: Seq<u8>,
    s: int,
    c: int,
    v: Option<u8>,
    code: Option<u16>,
    reason: Option<Seq<u8>>,
    fault: bool,
    h0: Map<Seq<u8>, Seq<u8>>,
) -> ResponseScan {
    let s6 = headers_spec(buf, s, s, c, h0);
    ResponseScan {
        res: if done(s6.res) {
            Ok(Status::Complete(()))
        } else {
            halted(s6.res)
        },
        version: v,
        status_code: code,
        reason,
        headers: s6.headers,
        fault: fault || s6.fault,
    }
}

/// Parsing a response head from `buf`: empty lines, the status line (version, a space, a
/// three-digit code, then a space and a reason phrase, or the end of the line), then the
/// header lines; each field is set as soon as it is read.  `v0`, `c0`, `r0`, `h0` are what the
/// fields held before.
pub open spec fn response_spec(
    buf: Seq<u8>,
    v0: Option<u8>,
    c0: Option<u16>,
    r0: Option<Seq<u8>>,
    h0: Map<Seq<u8>, Seq<u8>>,
) -> ResponseScan {
    let s1 = skip_empty_line_spec(buf, 0, 0);
    if !done(s1.res) {
        ResponseScan {
            res: halted(s1.res),
            version: v0,
            status_code: c0,
            reason: r0,
            headers: h0,
            fault: false,
        }
    } else {
        let s2 = parse_version_spec(buf, s1.start, s1.cursor);
        if !done(s2.res) {
            ResponseScan {
                res: halted(s2.res),
                version: v0,
                status_code: c0,
                reason: r0,
                headers: h0,
                fault: false,
            }
        } else {
            let v = Some(value_of(s2.res));
            let s3 = space_spec(buf, s2.start, s2.cursor, ParseError::Version);
            if !done(s3.res) {
                ResponseScan {
                    res: halted(s3.res),
                    version: v,
                    status_code: c0,
                    reason: r0,
                    headers: h0,
                    fault: false,
                }
            } else {
                let s4 = parse_status_code_spec(buf, s3.start, s3.cursor);
                if !done(s4.res) {
                    ResponseScan {
                        res: halted(s4.res),
                        version: v,
                        status_code: c0,
                        reason: r0,
                        headers: h0,
                        fault: false,
                    }
                } else {
                    let code = Some(value_of(s4.res));
                    let c = s4.cursor;
                    if c >= buf.len() {
                        ResponseScan {
                            res: Ok(Status::Partial),
                            version: v,
                            status_code: code,
                            reason: r0,
                            headers: h0,
                            fault: false,
                        }
                    } else if buf[c] == SP {
                        let s5 = parse_reason_spec(buf, c + 1, c + 1);
                        if !done(s5.res) {
                            ResponseScan {
                                res: halted(s5.res),
                                version: v,
                                status_code: code,
                                reason: r0,
                                headers: h0,
                                fault: s5.fault,
                            }
                        } else {
                            response_tail_spec(
                                buf,
                                s5.start,
                                s5.cursor,
                                v,
                                code,
                                Some(value_of(s5.res)),
                                s5.fault,
                                h0,
                            )
                        }
                    } else if buf[c] == CR {
                        if c + 1 >= buf.len() {
                            ResponseScan {
                                res: Ok(Status::Partial),
                                version: v,
                                status_code: code,
                                reason: r0,
                                headers: h0,
                                fault: false,
                            }
                        } else if buf[c + 1] != LF {
                            ResponseScan {
                                res: Err(ParseError::NewLine),
                                version: v,
                                status_code: code,
                                reason: r0,
                                headers: h0,
                                fault: false,
                            }
                        } else {
                            response_tail_spec(
                                buf,
                                c + 2,
                                c + 2,
                                v,
                                code,
                                Some(Seq::<u8>::empty()),
                                false,
                                h0,
                            )
                        }
                    } else if buf[c] == LF {
                        response_tail_spec(
                            buf,
                            c + 1,
                            c + 1,
                            v,
                            code,
                            Some(Seq::<u8>::empty()),
                            false,
                            h0,
                        )
                    } else {
                        ResponseScan {
                            res: Err(ParseError::Reason),
                            version: v,
                            status_code: code,
                            reason: r0,
                            headers: h0,
                            fault: false,
                        }
                    }
                }
            }
        }
    }
}

/// The decimal digits of `n`, most significant first.
pub open spec fn decimal(n: nat) -> Seq<u8>
    decreases n,
{
    if n < 10 {
        seq![(48 + n) as u8]
    } else {
        decimal(n / 10).push((48 + n % 10) as u8)
    }
}

/// The line of one header field: `name: value`.
pub open spec fn field_line(f: (Seq<u8>, Seq<u8>)) -> Seq<u8> {
    f.0 + ": ".spec_bytes() + f.1 + "\r\n".spec_bytes()
}

/// One `name: value` line per header field, in order.
pub open spec fn field_lines(fields: Seq<(Seq<u8>, Seq<u8>)>) -> Seq<u8>
    decreases fields.len(),
{
    if fields.len() == 0 {
        Seq::empty()
    } else {
        field_lines(fields.drop_last()) + field_line(fields.last())
    }
}

/// The status code and reason of a status line: `200 OK` when no code was set, and the code
/// followed by the reason (empty when there is none) otherwise.
pub open spec fn status_text(code: Option<u16>, reason: Option<Seq<u8>>) -> Seq<u8> {
    match code {
        None => "200 OK".spec_bytes(),
        Some(c) => decimal(c as nat) + " ".spec_bytes() + (match reason {
            Some(r) => r,
            None => Seq::empty(),
        }),
    }
}

/// The bytes of a response: the status line, the header fields in order, the length of the
/// body, an empty line and the body.
pub open spec fn response_bytes(
    code: Option<u16>,
    reason: Option<Seq<u8>>,
    fields: Seq<(Seq<u8>, Seq<u8>)>,
    body: Seq<u8>,
) -> Seq<u8> {
    "HTTP/1.1 ".spec_bytes() + status_text(code, reason) + "\r\n".spec_bytes() + field_lines(fields)
        + "Content-Length: ".spec_bytes() + decimal(body.len()) + "\r\n\r\n".spec_bytes() + body
}

/// Appends the decimal digits of `n` to `out`.
pub fn push_decimal(out: &mut Vec<u8>, n: usize)
    ensures
        final(out)@ == old(out)@ + decimal(n as nat),
    decreases n,
{
    if n >= 10 {
        push_decimal(out, n / 10);
    }
    let d: u8 = (n % 10) as u8;
    out.push(48 + d);
    proof {
        assert(out@ =~= old(out)@ + decimal(n as nat));
    }
}

/// A response: the fields of its status line, its headers, and its body.
#[derive(Debug)]
pub struct Response<'h, 'b> {
    pub version: Option<u8>,
    pub status_code: Option<u16>,
    pub reason: Option<&'b str>,
    pub headers: &'h mut HeaderMap<'b>,
    pub body: Vec<u8>,
}

impl<'h, 'b> Response<'h, 'b> {
    /// A response with no fields set and an empty body, whose headers go into `headers`.
    pub fn new(headers: &'h mut HeaderMap<'b>) -> (r: Response<'h, 'b>)
        ensures
            r.version is None,
            r.status_code is None,
            r.reason is None,
            r.body@.len() == 0,
            *r.headers == *old(headers),
    {
        Response { version: None, status_code: None, reason: None, headers, body: Vec::new() }
    }

    /// The bytes of this response, ready to send (see `response_bytes`).
    pub fn build(&self) -> (r: Vec<u8>)
        ensures
            r@ == response_bytes(self.status_code, text_of(self.reason), old(self.headers).fields(), self.body@),
    {
        let mut out: Vec<u8> = Vec::with_capacity(1024);
        out.extend_from_slice("HTTP/1.1 ".as_bytes());
        match self.status_code {
            None => {
                out.extend_from_slice("200 OK".as_bytes());
            },
            Some(c) => {
                push_decimal(&mut out, c as usize);
                out.extend_from_slice(" ".as_bytes());
                match self.reason {
                    Some(t) => out.extend_from_slice(t.as_bytes()),
                    None => {},
                }
            },
        }
        out.extend_from_slice("\r\n".as_bytes());
        let ghost head = out@;
        self.headers.append_fields(&mut out);
        out.extend_from_slice("Content-Length: ".as_bytes());
        push_decimal(&mut out, self.body.len());
        out.extend_from_slice("\r\n\r\n".as_bytes());
        out.extend_from_slice(self.body.as_slice());
        assert(head =~= "HTTP/1.1 ".spec_bytes() + status_text(self.status_code, text_of(self.reason))
            + "\r\n".spec_bytes());
        assert(out@ =~= response_bytes(self.status_code, text_of(self.reason), self.headers.fields(), self.body@));
        out
    }

    /// Parses a response head from `bytes` (see `response_spec`).
    pub fn parse_header(&mut self, bytes: &'b [u8]) -> (r: Result<Status<()>, ParseError>)
        requires
            old(self).headers.wf(),
            !response_spec(
                bytes@,
                old(self).version,
                old(self).status_code,
                text_of(old(self).reason),
                old(self).headers@,
            ).fault,
        ensures
            ({
                let rs = response_spec(
                    bytes@,
                    old(self).version,
                    old(self).status_code,
                    text_of(old(self).reason),
                    old(self).headers@,
                );
                &&& r == rs.res
                &&& final(self).version == rs.version
                &&& final(self).status_code == rs.status_code
                &&& text_of(final(self).reason) == rs.reason
                &&& final(self).headers.wf()
                &&& final(self).headers@ == rs.headers
                &&& final(self).body == old(self).body
            }),
    {
        let mut bytes = ParseBuffer::new(bytes);
        match skip_empty_line(&mut bytes) {
            Ok(Status::Complete(_)) => {},
            Ok(Status::Partial) => return Ok(Status::Partial),
            Err(e) => return Err(e),
        }
        let version = match parse_version(&mut bytes) {
            Ok(Status::Complete(v)) => v,
            Ok(Status::Partial) => return Ok(Status::Partial),
            Err(e) => return Err(e),
        };
        self.version = Some(version);
        match bytes.next_byte() {
            Some(b) => {
                if b != SP {
                    return Err(ParseError::Version);
                }
            },
            None => return Ok(Status::Partial),
        }
        let _ = bytes.slice();
        let code = match parse_status_code(&mut bytes) {
            Ok(Status::Complete(c)) => c,
            Ok(Status::Partial) => return Ok(Status::Partial),
            Err(e) => return Err(e),
        };
        self.status_code = Some(code);
        let b = match bytes.next_byte() {
            Some(b) => b,
            None => return Ok(Status::Partial),
        };
        if b == SP {
            let _ = bytes.slice();
            let reason = match parse_reason(&mut bytes) {
                Ok(Status::Complete(r)) => r,
                Ok(Status::Partial) => return Ok(Status::Partial),
                Err(e) => return Err(e),
            };
            self.reason = Some(reason);
        } else if b == CR {
            match bytes.next_byte() {
                Some(n) => {
                    if n != LF {
                        return Err(ParseError::NewLine);
                    }
                },
                None => return Ok(Status::Partial),
            }
            let _ = bytes.slice();
            proof {
                reveal_strlit("");
            }
            self.reason = Some("");
        } else if b == LF {
            let _ = bytes.slice();
            proof {
                reveal_strlit("");
            }
            self.reason = Some("");
        } else {
            return Err(ParseError::Reason);
        }
        match parse_header_iter(&mut bytes, self.headers) {
            Ok(Status::Complete(_)) => {},
            Ok(Status::Partial) => return Ok(Status::Partial),
            Err(e) => return Err(e),
        }
        Ok(Status::Complete(()))
    }
}

/// Reading the header section never moves past the end of the buffer.
pub proof fn lemma_headers_within(buf: Seq<u8>, s0: int, s: int, c: int, m: Map<Seq<u8>, Seq<u8>>)
    requires
        0 <= c <= buf.len(),
    ensures
        c <= headers_spec(buf, s0, s, c, m).cursor <= buf.len(),
    decreases buf.len() - c,
{
    if c < buf.len() && buf[c] != CR && buf[c] != LF && header_name_byte(buf[c]) {
        let ns = name_spec(buf, s, c + 1);
        lemma_name_progress(buf, s, c + 1);
        if ns.name is Some {
            lemma_value_progress(buf, ns.start, ns.cursor);
            let vs = value_spec(buf, ns.start, ns.cursor);
            if vs.res is Ok && vs.res->Ok_0 is Complete {
                lemma_headers_within(buf, s0, vs.start, vs.cursor, m.insert(ns.name->0, trim_value(vs.res->Ok_0->Complete_0)));
            }
        }
    }
}

/// Skipping empty lines finishes only on a byte of the buffer.
pub proof fn lemma_skip_empty_done(buf: Seq<u8>, s: int, c: int)
    requires
        0 <= c,
    ensures
        done(skip_empty_line_spec(buf, s, c).res) ==> 0 <= skip_empty_line_spec(buf, s, c).cursor
            < buf.len(),
        done(skip_empty_line_spec(buf, s, c).res) ==> skip_empty_line_spec(buf, s, c).start
            == skip_empty_line_spec(buf, s, c).cursor,
        done(skip_empty_line_spec(buf, s, c).res) ==> skip_empty_line_spec(buf, s, c).cursor >= c,
        !skip_empty_line_spec(buf, s, c).fault,
    decreases buf.len() - c,
{
    if c < buf.len() {
        if buf[c] == CR && c + 1 < buf.len() && buf[c + 1] == LF {
            lemma_skip_empty_done(buf, s, c + 2);
        } else if buf[c] == LF {
            lemma_skip_empty_done(buf, s, c + 1);
        }
    }
}

/// Checking the prefix of a short version never finishes.
pub proof fn lemma_version_prefix_never_done(buf: Seq<u8>, s: int, c: int, k: int)
    ensures
        !done(version_prefix_spec(buf, s, c, k).res),
    decreases 7 - k,
{
    if !(k >= 7 || c + k >= buf.len()) && buf[c + k] == http1_prefix()[k] {
        lemma_version_prefix_never_done(buf, s, c, k + 1);
    }
}

/// A complete request head has its method, its target and its version, and takes no more bytes
/// than the buffer holds.
pub proof fn law_complete_request(
    buf: Seq<u8>,
    m0: Option<Seq<u8>>,
    u0: Option<Seq<u8>>,
    v0: Option<u8>,
    h0: Map<Seq<u8>, Seq<u8>>,
)
    requires
        buf.len() <= usize::MAX,
        request_spec(buf, m0, u0, v0, h0).res is Ok,
        request_spec(buf, m0, u0, v0, h0).res->Ok_0 is Complete,
    ensures
        ({
            let rs = request_spec(buf, m0, u0, v0, h0);
            &&& rs.method is Some
            &&& rs.uri is Some
            &&& rs.version is Some
            &&& rs.res->Ok_0->Complete_0 <= buf.len()
        }),
{
    let s1 = skip_empty_line_spec(buf, 0, 0);
    lemma_skip_empty_done(buf, 0, 0);
    let s2 = parse_method_spec(buf, s1.start, s1.cursor);
    lemma_scan_while_ge(buf, s1.cursor + 1, method_set());
    lemma_scan_while_le(buf, s1.cursor + 1, method_set());
    let s3 = parse_uri_spec(buf, s2.start, s2.cursor);
    lemma_scan_while_ge(buf, s2.cursor, url_set());
    lemma_scan_while_le(buf, s2.cursor, url_set());
    let s4 = parse_version_spec(buf, s3.start, s3.cursor);
    lemma_version_prefix_never_done(buf, s3.start, s3.cursor, 0);
    let s5 = newline_spec(buf, s4.start, s4.cursor);
    lemma_headers_within(buf, s5.start, s5.start, s5.cursor, h0);
}

/// A complete response head has its version, its status code and its reason phrase (empty when
/// the status line has none).
pub proof fn law_complete_response(
    buf: Seq<u8>,
    v0: Option<u8>,
    c0: Option<u16>,
    r0: Option<Seq<u8>>,
    h0: Map<Seq<u8>, Seq<u8>>,
)
    requires
        response_spec(buf, v0, c0, r0, h0).res == Ok::<Status<()>, ParseError>(Status::Complete(())),
    ensures
        response_spec(buf, v0, c0, r0, h0).version is Some,
        response_spec(buf, v0, c0, r0, h0).status_code is Some,
        response_spec(buf, v0, c0, r0, h0).reason is Some,
{
}

} // verus!
