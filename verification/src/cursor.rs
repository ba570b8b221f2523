//! An in-memory byte buffer with a read position.

use vstd::prelude::*;
use crate::source::Source;

verus! {

/// What a [`Cursor`] stands for: its bytes and how many of them were read.
pub struct CursorView {
    pub data: Seq<u8>,
    pub pos: nat,
}

impl CursorView {
    /// The bytes that are still to be read.
    pub open spec fn rest(self) -> Seq<u8> {
        self.data.skip(self.pos as int)
    }

    /// Nothing is left to read.
    pub open spec fn at_end(self) -> bool {
        self.pos == self.data.len()
    }

    /// The position lies within the bytes.
    pub open spec fn wf(self) -> bool {
        self.pos <= self.data.len()
    }
}

/// The smaller of two lengths.
pub open spec fn min_len(a: int, b: int) -> int {
    if a <= b {
        a
    } else {
        b
    }
}

/// A byte buffer that is read once, front to back.
pub struct Cursor {
    data: Vec<u8>,
    pos: usize,
}

impl View for Cursor {
    type V = CursorView;

    closed spec fn view(&self) -> CursorView {
        CursorView { data: self.data@, pos: self.pos as nat }
    }
}

impl Cursor {
    #[verifier::type_invariant]
    spec fn in_bounds(&self) -> bool {
        self.pos <= self.data@.len()
    }

    /// A cursor at the start of `data`.
    pub fn new(data: Vec<u8>) -> (cursor: Cursor)
        ensures
            cursor@.data == data@,
            cursor@.pos == 0,
    {
        Cursor { data, pos: 0 }
    }
}

/// A cursor is a payload held in memory: it never fails, and hands out its
/// bytes in order, as many at a time as the buffer takes.
impl Source for Cursor {
    fn read(&mut self, buf: &mut [u8]) -> (r: Result<usize, std::io::Error>)
        ensures
            old(self)@.wf(),
            r matches Ok(n) && {
                &&& n == min_len(old(buf)@.len() as int, old(self)@.rest().len() as int)
                &&& final(buf)@ == old(self)@.rest().take(n as int) + old(buf)@.skip(n as int)
                &&& final(self)@.data == old(self)@.data
                &&& final(self)@.pos == old(self)@.pos + n
            },
    {
        proof {
            use_type_invariant(&*self);
        }
        let avail: usize = self.data.len() - self.pos;
        let mut n: usize = 0;
        while n < buf.len() && n < avail
            invariant
                *self == *old(self),
                self.pos + avail == self.data@.len(),
                self.data@.len() <= usize::MAX,
                n <= avail,
                n <= buf@.len(),
                buf@.len() == old(buf)@.len(),
                buf@ == old(self)@.rest().take(n as int) + old(buf)@.skip(n as int),
            decreases buf@.len() - n,
        {
            buf[n] = self.data[self.pos + n];
            n = n + 1;
        }
        self.pos = self.pos + n;
        Ok(n)
    }
}

/// Whether `cursor` has been read to its end.
pub fn cursor_at_end(cursor: &Cursor) -> (at_end: bool)
    ensures
        cursor@.wf(),
        at_end == cursor@.at_end(),
{
    proof {
        use_type_invariant(cursor);
    }
    cursor.pos == cursor.data.len()
}

} // verus!
