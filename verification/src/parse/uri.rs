use crate::parse::iter::{bytes_eq, ParseBuffer};
use crate::parse::parse_utils::{
    get_question_mark_pos_swar, lemma_first_index_of, lemma_scan_while, lemma_scan_while_ge, lemma_scan_while_mid, scan_while,
    str_from_utf8, BLOCK_SIZE,
};
use crate::parse::tchar::{AMPERSAND, EQUALS, QUESTION};
use vstd::prelude::*;
use vstd::string::StringSliceAdditionalSpecFns;
use vstd::utf8::valid_utf8;

verus! {

/// Any byte but `v`.
pub open spec fn other_than(v: u8) -> spec_fn(u8) -> bool {
    |b: u8| b != v
}

/// The bytes when they are UTF-8, and nothing otherwise.
pub open spec fn text_or_empty(b: Seq<u8>) -> Seq<u8> {
    if valid_utf8(b) {
        b
    } else {
        Seq::empty()
    }
}

/// Adds one `key=value` pair of a query to `m` (a pair without `=` has an empty value; the
/// empty pair adds nothing; a key or value that is not UTF-8 counts as empty).
pub open spec fn add_pair(m: Map<Seq<u8>, Seq<Seq<u8>>>, pair: Seq<u8>) -> Map<Seq<u8>, Seq<Seq<u8>>> {
    if pair.len() == 0 {
        m
    } else {
        let e = scan_while(pair, 0, other_than(EQUALS));
        let key = pair.subrange(0, e);
        let value = if e < pair.len() {
            pair.subrange(e + 1, pair.len() as int)
        } else {
            Seq::empty()
        };
        let k = text_or_empty(key);
        pushed(m, k, text_or_empty(value))
    }
}

/// Adds the pairs of query `q` from index `i` on, separated by `&`, to `m`, in order.
pub open spec fn query_pairs_from(q: Seq<u8>, i: int, m: Map<Seq<u8>, Seq<Seq<u8>>>) -> Map<
    Seq<u8>,
    Seq<Seq<u8>>,
>
    decreases q.len() - i,
{
    let j = scan_while(q, i, other_than(AMPERSAND));
    let m2 = add_pair(m, q.subrange(i, j));
    if j >= q.len() || i < 0 {
        m2
    } else {
        proof {
            lemma_scan_while_ge(q, i, other_than(AMPERSAND));
        }
        query_pairs_from(q, j + 1, m2)
    }
}

/// `m` with `v` added after the values of key `k`.
pub open spec fn pushed(m: Map<Seq<u8>, Seq<Seq<u8>>>, k: Seq<u8>, v: Seq<u8>) -> Map<
    Seq<u8>,
    Seq<Seq<u8>>,
> {
    m.insert(
        k,
        (if m.contains_key(k) {
            m[k]
        } else {
            Seq::empty()
        }).push(v),
    )
}

/// The values of each key of a query, in the order they come.
pub struct QueryMap<'a> {
    entries: Vec<(&'a str, Vec<&'a str>)>,
}

/// The bytes of each text.
pub open spec fn texts(v: Seq<&str>) -> Seq<Seq<u8>> {
    v.map_values(|t: &str| t.spec_bytes())
}

impl<'a> QueryMap<'a> {
    /// No key occurs twice.
    pub closed spec fn wf(&self) -> bool {
        forall|i: int, j: int|
            #![trigger self.entries@[i], self.entries@[j]]
            0 <= i < self.entries@.len() && 0 <= j < self.entries@.len() && i != j
                ==> self.entries@[i].0.spec_bytes() != self.entries@[j].0.spec_bytes()
    }

    /// Each key, by its bytes, with the bytes of its values.
    pub closed spec fn view(&self) -> Map<Seq<u8>, Seq<Seq<u8>>> {
        Map::new(
            |k: Seq<u8>|
                exists|i: int|
                    0 <= i < self.entries@.len() && (#[trigger] self.entries@[i]).0.spec_bytes() == k,
            |k: Seq<u8>|
                texts(
                    self.entries@[choose|i: int|
                        0 <= i < self.entries@.len() && (#[trigger] self.entries@[i]).0.spec_bytes()
                            == k].1@,
                ),
        )
    }

    /// A map with no keys.
    pub fn new() -> (r: Self)
        ensures
            r.wf(),
            r@ == Map::<Seq<u8>, Seq<Seq<u8>>>::empty(),
    {
        let r = QueryMap { entries: Vec::new() };
        assert(r@ =~= Map::<Seq<u8>, Seq<Seq<u8>>>::empty());
        r
    }

    /// The index of key `k`, or the number of keys when it is absent.
    fn index_of(&self, k: &str) -> (r: usize)
        requires
            self.wf(),
        ensures
            r <= self.entries@.len(),
            r < self.entries@.len() ==> self.entries@[r as int].0.spec_bytes() == k.spec_bytes(),
            r == self.entries@.len() ==> forall|j: int|
                0 <= j < self.entries@.len() ==> (#[trigger] self.entries@[j]).0.spec_bytes()
                    != k.spec_bytes(),
    {
        let kb = k.as_bytes();
        let mut i: usize = 0;
        while i < self.entries.len()
            invariant
                i <= self.entries@.len(),
                kb@ == k.spec_bytes(),
                forall|j: int| 0 <= j < i ==> (#[trigger] self.entries@[j]).0.spec_bytes() != kb@,
            decreases self.entries@.len() - i,
        {
            if bytes_eq(self.entries[i].0.as_bytes(), kb) {
                return i;
            }
            i += 1;
        }
        i
    }

    /// The values of key `k`, in the order they came.
    pub fn get(&self, k: &str) -> (r: Option<&Vec<&'a str>>)
        requires
            self.wf(),
        ensures
            r is Some <==> self@.contains_key(k.spec_bytes()),
            r matches Some(v) ==> self@[k.spec_bytes()] == texts(v@),
    {
        let i = self.index_of(k);
        if i < self.entries.len() {
            proof {
                let j = choose|j: int|
                    0 <= j < self.entries@.len() && (#[trigger] self.entries@[j]).0.spec_bytes()
                        == k.spec_bytes();
                if j != i {
                    assert(self.entries@[j].0.spec_bytes() != self.entries@[i as int].0.spec_bytes());
                }
            }
            Some(&self.entries[i].1)
        } else {
            None
        }
    }

    /// Adds `v` after the values of key `k`.
    pub fn push_value(&mut self, k: &'a str, v: &'a str)
        requires
            old(self).wf(),
        ensures
            final(self).wf(),
            final(self)@ == pushed(old(self)@, k.spec_bytes(), v.spec_bytes()),
    {
        let i = self.index_of(k);
        let ghost e0 = self.entries@;
        let ghost kk = k.spec_bytes();
        if i < self.entries.len() {
            let mut values = Vec::new();
            std::mem::swap(&mut values, &mut self.entries[i].1);
            let ghost old_values = values@;
            values.push(v);
            self.entries[i].1 = values;
            proof {
                assert(self.entries@ =~= e0.update(i as int, (e0[i as int].0, self.entries@[i as int].1)));
                assert(self.entries@[i as int].1@ == old_values.push(v));
                assert forall|a: int, b: int|
                    0 <= a < self.entries@.len() && 0 <= b < self.entries@.len() && a != b implies
                    #[trigger] self.entries@[a].0.spec_bytes() != #[trigger] self.entries@[b].0.spec_bytes() by {
                    assert(e0[a].0.spec_bytes() != e0[b].0.spec_bytes());
                }
                let j0 = choose|j: int| 0 <= j < e0.len() && (#[trigger] e0[j]).0.spec_bytes() == kk;
                if j0 != i {
                    assert(e0[j0].0.spec_bytes() != e0[i as int].0.spec_bytes());
                }
                assert(texts(old_values.push(v)) =~= texts(old_values).push(v.spec_bytes()));
                assert forall|q: Seq<u8>| #[trigger] self@.contains_key(q) == old(self)@.contains_key(q) by {
                    if old(self)@.contains_key(q) {
                        let j = choose|j: int| 0 <= j < e0.len() && (#[trigger] e0[j]).0.spec_bytes() == q;
                        assert(self.entries@[j].0 == e0[j].0);
                    }
                    if self@.contains_key(q) {
                        let j = choose|j: int| 0 <= j < self.entries@.len() && (#[trigger] self.entries@[j]).0.spec_bytes() == q;
                        assert(self.entries@[j].0 == e0[j].0);
                    }
                }
                assert forall|q: Seq<u8>| #[trigger] self@.contains_key(q) implies self@[q] == old(self)@.insert(kk, old(self)@[kk].push(v.spec_bytes()))[q] by {
                    let j = choose|j: int| 0 <= j < self.entries@.len() && (#[trigger] self.entries@[j]).0.spec_bytes() == q;
                    let j1 = choose|j: int| 0 <= j < e0.len() && (#[trigger] e0[j]).0.spec_bytes() == q;
                    assert(self.entries@[j1].0 == e0[j1].0);
                    if j != j1 {
                        assert(self.entries@[j].0.spec_bytes() != self.entries@[j1].0.spec_bytes());
                    }
                    if q == kk {
                        if j != i {
                            assert(self.entries@[j].0.spec_bytes() != self.entries@[i as int].0.spec_bytes());
                        }
                    } else {
                        assert(j != i);
                        assert(self.entries@[j] == e0[j]);
                    }
                }
                assert(self@ =~= old(self)@.insert(kk, old(self)@[kk].push(v.spec_bytes())));
            }
        } else {
            let mut values = Vec::new();
            values.push(v);
            self.entries.push((k, values));
            proof {
                let n = e0.len() as int;
                assert(texts(values@) =~= Seq::<Seq<u8>>::empty().push(v.spec_bytes()));
                assert forall|a: int, b: int|
                    0 <= a < self.entries@.len() && 0 <= b < self.entries@.len() && a != b implies
                    #[trigger] self.entries@[a].0.spec_bytes() != #[trigger] self.entries@[b].0.spec_bytes() by {
                    if a < n && b < n {
                        assert(e0[a].0.spec_bytes() != e0[b].0.spec_bytes());
                    } else if a < n {
                        assert(e0[a].0.spec_bytes() != kk);
                    } else {
                        assert(e0[b].0.spec_bytes() != kk);
                    }
                }
                assert forall|q: Seq<u8>| #[trigger] self@.contains_key(q) == old(self)@.insert(kk, Seq::<Seq<u8>>::empty().push(v.spec_bytes())).contains_key(q) by {
                    if q == kk {
                        assert(self.entries@[n].0.spec_bytes() == q);
                    } else if old(self)@.contains_key(q) {
                        let j = choose|j: int| 0 <= j < e0.len() && (#[trigger] e0[j]).0.spec_bytes() == q;
                        assert(self.entries@[j] == e0[j]);
                    } else if self@.contains_key(q) {
                        let j = choose|j: int| 0 <= j < self.entries@.len() && (#[trigger] self.entries@[j]).0.spec_bytes() == q;
                        assert(j != n);
                        assert(self.entries@[j] == e0[j]);
                    }
                }
                assert forall|q: Seq<u8>| #[trigger] self@.contains_key(q) implies self@[q] == old(self)@.insert(kk, Seq::<Seq<u8>>::empty().push(v.spec_bytes()))[q] by {
                    let j = choose|j: int| 0 <= j < self.entries@.len() && (#[trigger] self.entries@[j]).0.spec_bytes() == q;
                    if q == kk {
                        assert(j == n);
                    } else {
                        assert(j != n);
                        assert(self.entries@[j] == e0[j]);
                        let j0 = choose|j0: int| 0 <= j0 < e0.len() && (#[trigger] e0[j0]).0.spec_bytes() == q;
                        assert(j0 == j);
                    }
                }
                assert(self@ =~= old(self)@.insert(kk, Seq::<Seq<u8>>::empty().push(v.spec_bytes())));
            }
        }
    }
}

/// The index of the first byte equal to `v` in `bytes` from `from` on, or the length when
/// there is none.
fn find_byte(bytes: &[u8], from: usize, v: u8) -> (r: usize)
    requires
        from <= bytes@.len(),
    ensures
        r == scan_while(bytes@, from as int, other_than(v)),
        from <= r <= bytes@.len(),
{
    let mut i = from;
    proof {
        lemma_scan_while(bytes@, from as int, other_than(v));
    }
    while i < bytes.len() && bytes[i] != v
        invariant
            from <= i <= bytes@.len(),
            scan_while(bytes@, from as int, other_than(v)) == scan_while(bytes@, i as int, other_than(v)),
        decreases bytes@.len() - i,
    {
        i += 1;
    }
    i
}

/// A request target split into its path and its query, and the query into its pairs.
pub struct Uri<'a> {
    pub raw: ParseBuffer<'a>,
    pub path: Option<&'a [u8]>,
    pub query: Option<&'a [u8]>,
    pub query_map: QueryMap<'a>,
}

impl<'a> Uri<'a> {
    /// The bytes of the target.
    pub open spec fn bytes(&self) -> Seq<u8> {
        self.raw.buf@
    }

    /// Where the part not yet handed out as path or query begins.
    pub open spec fn start(&self) -> int {
        self.raw.start as int
    }

    /// Where the search for `?` goes on.
    pub open spec fn cursor(&self) -> int {
        self.raw.cursor as int
    }

    /// The positions lie within the target, and the query map has each key once.
    pub open spec fn wf(&self) -> bool {
        &&& self.raw.wf()
        &&& self.query_map.wf()
    }

    /// A target not split yet.
    pub fn new(u8_raw: &'a [u8]) -> (r: Self)
        ensures
            r.wf(),
            r.bytes() == u8_raw@,
            r.start() == 0,
            r.cursor() == 0,
            r.path is None,
            r.query is None,
            r.query_map@ == Map::<Seq<u8>, Seq<Seq<u8>>>::empty(),
    {
        Uri { raw: ParseBuffer::new(u8_raw), path: None, query: None, query_map: QueryMap::new() }
    }

    /// Splits the target at its first `?` (searched for from the cursor on): the path is
    /// what comes before it and the query what comes after it; with no `?`, the path is the
    /// rest of the target and there is no query.
    pub fn split(&mut self)
        requires
            old(self).wf(),
        ensures
            final(self).wf(),
            final(self).bytes() == old(self).bytes(),
            final(self).start() == old(self).bytes().len(),
            final(self).cursor() == old(self).bytes().len(),
            final(self).query_map == old(self).query_map,
            ({
                let b = old(self).bytes();
                let q = scan_while(b, old(self).cursor(), other_than(QUESTION));
                if q < b.len() {
                    &&& final(self).path matches Some(p) && p@ == b.subrange(old(self).start(), q)
                    &&& final(self).query matches Some(t) && t@ == b.subrange(q + 1, b.len() as int)
                } else {
                    &&& final(self).path matches Some(p) && p@ == b.subrange(old(self).start(), b.len() as int)
                    &&& final(self).query is None
                }
            }),
    {
        let ghost b = self.raw.buf@;
        let ghost s0 = self.raw.start as int;
        let ghost c0 = self.raw.cursor as int;
        let ghost q = scan_while(b, c0, other_than(QUESTION));
        proof {
            lemma_scan_while(b, c0, other_than(QUESTION));
        }
        loop
            invariant_except_break
                self.raw.buf@ == b,
                self.raw.start == s0,
                c0 <= self.raw.cursor <= q,
                q == scan_while(b, c0, other_than(QUESTION)),
                c0 <= q <= b.len(),
                q < b.len() ==> b[q] == QUESTION,
                forall|i: int| c0 <= i < q ==> b[i] != QUESTION,
                self.raw.wf(),
                self.query_map == old(self).query_map,
            ensures
                self.raw.buf@ == b,
                self.raw.start == b.len(),
                self.raw.cursor == b.len(),
                self.query_map == old(self).query_map,
                q < b.len() ==> (self.path matches Some(p) && p@ == b.subrange(s0, q)) && (
                self.query matches Some(t) && t@ == b.subrange(q + 1, b.len() as int)),
                q >= b.len() ==> (self.path matches Some(p) && p@ == b.subrange(s0, b.len() as int))
                    && self.query is None,
            decreases b.len() - self.raw.cursor,
        {
            if let Some(b8) = self.raw.peek_after_cursor::<BLOCK_SIZE>() {
                let n = get_question_mark_pos_swar(b8);
                proof {
                    lemma_first_index_of(b8@, QUESTION, 0);
                    let c = self.raw.cursor as int;
                    assert forall|i: int| c <= i < c + n implies b[i] != QUESTION by {
                        assert(b8@[i - c] == b[i]);
                    }
                    if n < 8 {
                        assert(b8@[n as int] == b[c + n]);
                    }
                }
                self.raw.advance(n);
                if n == BLOCK_SIZE {
                    continue;
                }
            }
            match self.raw.peek() {
                Some(0x3F) => {
                    self.path = self.raw.slice();
                    self.raw.advance(1);
                    self.raw.commit();
                    self.raw.go_the_tail();
                    self.query = self.raw.slice();
                    break;
                },
                Some(_) => {
                    self.raw.advance(1);
                    continue;
                },
                None => {
                    self.raw.go_the_tail();
                    self.path = self.raw.slice();
                    self.query = None;
                },
            }
            break;
        }
    }

    /// Adds each pair of the query, in order, to the query map: pairs are separated by `&`,
    /// a key from its value by the first `=`; nothing happens when there is no query.
    pub fn split_query_string(&mut self)
        requires
            old(self).wf(),
        ensures
            final(self).wf(),
            final(self).bytes() == old(self).bytes(),
            final(self).start() == old(self).start(),
            final(self).cursor() == old(self).cursor(),
            final(self).path == old(self).path,
            final(self).query == old(self).query,
            final(self).query_map@ == (match old(self).query {
                Some(q) => query_pairs_from(q@, 0, old(self).query_map@),
                None => old(self).query_map@,
            }),
    {
        let query = match self.query {
            Some(q) => q,
            None => return ,
        };
        let ghost target = query_pairs_from(query@, 0, self.query_map@);
        let mut i: usize = 0;
        loop
            invariant_except_break
                i <= query@.len(),
                query_pairs_from(query@, i as int, self.query_map@) == target,
                self.query_map.wf(),
                self.raw == old(self).raw,
                self.path == old(self).path,
                self.query == old(self).query,
                self.query == Some(query),
            ensures
                self.query_map@ == target,
                self.query_map.wf(),
                self.raw == old(self).raw,
                self.path == old(self).path,
                self.query == old(self).query,
            decreases query@.len() - i,
        {
            let j = find_byte(query, i, AMPERSAND);
            let pair = &query[i..j];
            let ghost m0 = self.query_map@;
            if pair.len() > 0 {
                let e = find_byte(pair, 0, EQUALS);
                let key = &pair[0..e];
                let val: &[u8] = if e < pair.len() {
                    &pair[e + 1..pair.len()]
                } else {
                    &pair[0..0]
                };
                let k: &str = match str_from_utf8(key) {
                    Some(k) => k,
                    None => "",
                };
                let v: &str = match str_from_utf8(val) {
                    Some(v) => v,
                    None => "",
                };
                proof {
                    reveal_strlit("");
                    assert(k.spec_bytes() == text_or_empty(key@));
                    assert(v.spec_bytes() == text_or_empty(if e < pair@.len() {
                        pair@.subrange(e + 1, pair@.len() as int)
                    } else {
                        Seq::<u8>::empty()
                    }));
                }
                self.query_map.push_value(k, v);
            }
            proof {
                assert(pair@ == query@.subrange(i as int, j as int));
                assert(self.query_map@ == add_pair(m0, query@.subrange(i as int, j as int)));
            }
            if j >= query.len() {
                break;
            }
            i = j + 1;
        }
    }
}

/// Splitting a target at its first `?`: the path holds no `?`, and the path, the `?` and the
/// query put back together give the target; with no `?` the path is the whole target.
pub proof fn law_split_recompose(t: Seq<u8>)
    ensures
        ({
            let q = scan_while(t, 0, other_than(QUESTION));
            &&& 0 <= q <= t.len()
            &&& forall|i: int| 0 <= i < q ==> t[i] != QUESTION
            &&& q < t.len() ==> t.subrange(0, q) + seq![QUESTION] + t.subrange(q + 1, t.len() as int) == t
            &&& q >= t.len() ==> t.subrange(0, q) == t
        }),
{
    lemma_scan_while(t, 0, other_than(QUESTION));
    let q = scan_while(t, 0, other_than(QUESTION));
    if q < t.len() {
        assert(t.subrange(0, q) + seq![QUESTION] + t.subrange(q + 1, t.len() as int) =~= t);
    } else {
        assert(t.subrange(0, q) =~= t);
    }
}

/// A query of one pair `key=value` (with no `&` in it) maps its key to that one value, when
/// both are UTF-8.
pub proof fn law_single_pair(key: Seq<u8>, value: Seq<u8>)
    requires
        key.len() > 0,
        forall|i: int| 0 <= i < key.len() ==> key[i] != EQUALS && key[i] != AMPERSAND,
        forall|i: int| 0 <= i < value.len() ==> value[i] != AMPERSAND,
        valid_utf8(key),
        valid_utf8(value),
    ensures
        query_pairs_from(key + seq![EQUALS] + value, 0, Map::empty()) == Map::<Seq<u8>, Seq<Seq<u8>>>::empty().insert(
            key,
            seq![value],
        ),
{
    let q = key + seq![EQUALS] + value;
    assert forall|i: int| 0 <= i < q.len() implies q[i] != AMPERSAND by {
        if i < key.len() {
            assert(q[i] == key[i]);
        } else if i > key.len() {
            assert(q[i] == value[i - key.len() - 1]);
        }
    }
    lemma_scan_while_mid(q, 0, q.len() as int, other_than(AMPERSAND));
    assert(scan_while(q, 0, other_than(AMPERSAND)) == q.len());
    assert(q.subrange(0, q.len() as int) =~= q);
    assert forall|i: int| 0 <= i < key.len() implies q[i] != EQUALS by {
        assert(q[i] == key[i]);
    }
    lemma_scan_while_mid(q, 0, key.len() as int, other_than(EQUALS));
    assert(q[key.len() as int] == EQUALS);
    assert(scan_while(q, key.len() as int, other_than(EQUALS)) == key.len());
    assert(q.subrange(0, key.len() as int) =~= key);
    assert(q.subrange(key.len() as int + 1, q.len() as int) =~= value);
    assert(Seq::<Seq<u8>>::empty().push(value) =~= seq![value]);
}

/// The values added to a key come out in the order they were added, and other keys keep theirs.
pub proof fn law_push_order(m: Map<Seq<u8>, Seq<Seq<u8>>>, k: Seq<u8>, a: Seq<u8>, b: Seq<u8>, k2: Seq<u8>)
    requires
        k2 != k,
    ensures
        pushed(pushed(m, k, a), k, b)[k] == (if m.contains_key(k) {
            m[k]
        } else {
            Seq::empty()
        }) + seq![a, b],
        pushed(pushed(m, k, a), k, b).contains_key(k2) == m.contains_key(k2),
        m.contains_key(k2) ==> pushed(pushed(m, k, a), k, b)[k2] == m[k2],
{
    let old_values = if m.contains_key(k) {
        m[k]
    } else {
        Seq::empty()
    };
    assert(old_values.push(a).push(b) =~= old_values + seq![a, b]);
}

} // verus!
