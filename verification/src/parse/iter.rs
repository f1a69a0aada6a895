use vstd::prelude::*;

verus! {

/// The byte at index `i` of `buf`, if there is one.
pub open spec fn byte_at(buf: Seq<u8>, i: int) -> Option<u8> {
    if 0 <= i < buf.len() {
        Some(buf[i])
    } else {
        None
    }
}

/// Whether two byte slices hold the same bytes.
pub fn bytes_eq(a: &[u8], b: &[u8]) -> (r: bool)
    ensures
        r == (a@ == b@),
{
    if a.len() != b.len() {
        return false;
    }
    let mut i: usize = 0;
    while i < a.len()
        invariant
            i <= a.len(),
            a.len() == b.len(),
            forall|j: int| 0 <= j < i ==> a@[j] == b@[j],
        decreases a.len() - i,
    {
        if a[i] != b[i] {
            return false;
        }
        i += 1;
    }
    assert(a@ =~= b@);
    true
}

/// A cursor over a borrowed byte buffer.
///
/// `cursor` is the next byte to read; `start` marks where the slice that
/// `slice` and `sub_slice` hand out begins.
pub struct ParseBuffer<'a> {
    pub buf: &'a [u8],
    pub start: usize,
    pub cursor: usize,
}

impl<'a> ParseBuffer<'a> {
    /// The state that every operation of the parser keeps: `start <= cursor <= buf.len()`.
    pub open spec fn wf(&self) -> bool {
        self.start <= self.cursor <= self.buf@.len()
    }

    /// A buffer positioned at the first byte of `buf`.
    pub fn new(buf: &'a [u8]) -> (r: Self)
        ensures
            r.buf == buf,
            r.start == 0,
            r.cursor == 0,
            r.wf(),
    {
        Self { buf, start: 0, cursor: 0 }
    }

    /// The byte under the cursor, without moving it.
    pub fn peek(&self) -> (r: Option<u8>)
        ensures
            r == byte_at(self.buf@, self.cursor as int),
    {
        if self.cursor < self.buf.len() {
            Some(self.buf[self.cursor])
        } else {
            None
        }
    }

    /// The byte `n` places after the cursor, without moving it.
    pub fn peek_pos_n(&self, n: usize) -> (r: Option<u8>)
        ensures
            r == byte_at(self.buf@, self.cursor + n),
    {
        let len = self.buf.len();
        let n = match self.cursor.checked_add(n) {
            Some(n) => n,
            None => return None,
        };
        if n < self.buf.len() {
            Some(self.buf[n])
        } else {
            None
        }
    }

    /// The `N` bytes from the cursor on, without moving it; `None` when fewer remain.
    pub fn peek_after_cursor<const N: usize>(&self) -> (r: Option<[u8; N]>)
        ensures
            r is Some <==> self.cursor + N <= self.buf@.len(),
            r matches Some(a) ==> a@ == self.buf@.subrange(self.cursor as int, self.cursor + N),
    {
        let len = self.buf.len();
        let end = match self.cursor.checked_add(N) {
            Some(end) => end,
            None => return None,
        };
        if end > self.buf.len() {
            return None;
        }
        let mut a = [0u8; N];
        let mut i: usize = 0;
        while i < N
            invariant
                i <= N,
                end == self.cursor + N,
                end <= self.buf.len(),
                forall|j: int| 0 <= j < i ==> a@[j] == self.buf@[self.cursor + j],
            decreases N - i,
        {
            a[i] = self.buf[self.cursor + i];
            i += 1;
        }
        assert(a@ =~= self.buf@.subrange(self.cursor as int, self.cursor + N));
        Some(a)
    }

    /// Moves the cursor `n` bytes on; `None`, with nothing moved, when fewer than `n` remain
    /// (more bytes are needed).
    pub fn advance(&mut self, n: usize) -> (r: Option<()>)
        ensures
            r is Some <==> old(self).cursor + n <= old(self).buf@.len(),
            final(self).buf == old(self).buf,
            final(self).start == old(self).start,
            final(self).cursor == (if r is Some {
                old(self).cursor + n
            } else {
                old(self).cursor as int
            }),
    {
        let len = self.buf.len();
        let advance_cursor = match self.cursor.checked_add(n) {
            Some(c) => c,
            None => return None,
        };
        if advance_cursor > self.buf.len() {
            return None;
        }
        self.cursor = advance_cursor;
        Some(())
    }

    /// Moves the cursor to the end of the buffer.
    pub fn go_the_tail(&mut self)
        ensures
            final(self).buf == old(self).buf,
            final(self).start == old(self).start,
            final(self).cursor == old(self).buf@.len(),
    {
        self.cursor = self.buf.len();
    }

    /// The number of bytes from the cursor to the end.
    pub fn len_remain(&self) -> (r: usize)
        requires
            self.cursor <= self.buf@.len(),
        ensures
            r == self.buf@.len() - self.cursor,
    {
        self.buf.len() - self.cursor
    }

    /// Starts the next slice at the cursor.
    pub fn commit(&mut self)
        ensures
            final(self).buf == old(self).buf,
            final(self).cursor == old(self).cursor,
            final(self).start == old(self).cursor,
    {
        self.start = self.cursor;
    }

    /// The bytes from `start` up to the cursor; the next slice starts at the cursor.
    pub fn slice(&mut self) -> (r: Option<&'a [u8]>)
        requires
            old(self).wf(),
        ensures
            r matches Some(s) && s@ == old(self).buf@.subrange(
                old(self).start as int,
                old(self).cursor as int,
            ),
            final(self).buf == old(self).buf,
            final(self).cursor == old(self).cursor,
            final(self).start == old(self).cursor,
    {
        let s = &self.buf[self.start..self.cursor];
        self.start = self.cursor;
        Some(s)
    }

    /// The bytes from `start` up to `sub_n` bytes before the cursor, the next slice starting
    /// at the cursor; `None`, with nothing changed, when that range is empty of meaning
    /// (the cursor is fewer than `sub_n` bytes past `start`).
    pub fn sub_slice(&mut self, sub_n: usize) -> (r: Option<&'a [u8]>)
        requires
            old(self).wf(),
        ensures
            r is Some <==> old(self).start + sub_n <= old(self).cursor,
            r matches Some(s) ==> s@ == old(self).buf@.subrange(
                old(self).start as int,
                old(self).cursor - sub_n,
            ),
            final(self).buf == old(self).buf,
            final(self).cursor == old(self).cursor,
            final(self).start == (if r is Some {
                old(self).cursor
            } else {
                old(self).start
            }),
    {
        let end = match self.cursor.checked_sub(sub_n) {
            Some(end) => end,
            None => return None,
        };
        if self.start > end {
            return None;
        }
        let s = &self.buf[self.start..end];
        self.start = self.cursor;
        Some(s)
    }

    /// The byte under the cursor, moving the cursor past it.
    pub fn next_byte(&mut self) -> (r: Option<u8>)
        ensures
            r == byte_at(old(self).buf@, old(self).cursor as int),
            final(self).buf == old(self).buf,
            final(self).start == old(self).start,
            final(self).cursor == (if r is Some {
                old(self).cursor + 1
            } else {
                old(self).cursor as int
            }),
    {
        if self.cursor < self.buf.len() {
            let b = self.buf[self.cursor];
            self.cursor = self.cursor + 1;
            Some(b)
        } else {
            None
        }
    }

    /// The bytes from `start` up to the cursor, or nothing when that range lies outside the buffer.
    pub fn as_ref(&self) -> (r: &'a [u8])
        ensures
            r@ == (if self.wf() {
                self.buf@.subrange(self.start as int, self.cursor as int)
            } else {
                Seq::<u8>::empty()
            }),
    {
        if self.start <= self.cursor && self.cursor <= self.buf.len() {
            &self.buf[self.start..self.cursor]
        } else {
            &self.buf[0..0]
        }
    }
}

/// Slices taken one after the other tile the buffer: each begins where the one before it ended
/// (`slice` starts the next slice at the cursor), so together they hold the bytes from where the
/// first began to where the last ended.
pub proof fn law_slices_join(buf: Seq<u8>, s: int, c1: int, c2: int)
    requires
        0 <= s <= c1 <= c2 <= buf.len(),
    ensures
        buf.subrange(s, c1) + buf.subrange(c1, c2) == buf.subrange(s, c2),
        buf.subrange(c1, c1).len() == 0,
{
    assert(buf.subrange(s, c1) + buf.subrange(c1, c2) =~= buf.subrange(s, c2));
}

} // verus!
