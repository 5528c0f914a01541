//! A positioned writer over an in-memory segment.
//!
//! The engine appends records through this type; `pos` always names the
//! byte offset at which the next write lands, which is how log pointers are
//! derived.  Unverified callers persist the accumulated bytes to the real
//! `<id>.log` file.

use vstd::prelude::*;

verus! {

/// An append-only byte sink that tracks the absolute offset after every
/// write, as a buffered file writer opened in append mode would.
#[derive(Debug)]
pub struct BufWriterWithPos {
    /// The bytes written so far (the segment's whole contents).
    pub data: Vec<u8>,
    /// The current absolute byte offset: always the end of `data`.
    pub pos: u64,
}

impl View for BufWriterWithPos {
    type V = Seq<u8>;

    open spec fn view(&self) -> Seq<u8> {
        self.data@
    }
}

impl BufWriterWithPos {
    /// `pos` names the true end-of-data offset, so appends extend the data.
    pub open spec fn wf(&self) -> bool {
        self.pos == self@.len()
    }

    /// Opens a writer on existing contents; the position starts at the end,
    /// so every write is an append.
    pub fn new(data: Vec<u8>) -> (w: BufWriterWithPos)
        ensures
            w@ == data@,
            w.wf(),
    {
        let pos = data.len() as u64;
        BufWriterWithPos { data, pos }
    }

    /// Appends `buf` and advances the position by its length.
    pub fn write_all(&mut self, buf: &Vec<u8>)
        requires
            old(self).wf(),
            old(self)@.len() + buf@.len() <= u64::MAX,
        ensures
            final(self).wf(),
            final(self)@ == old(self)@ + buf@,
    {
        let mut i: usize = 0;
        while i < buf.len()
            invariant
                i <= buf@.len(),
                self.data@ == old(self)@ + buf@.take(i as int),
                self.pos == old(self).pos,
            decreases buf@.len() - i,
        {
            self.data.push(buf[i]);
            proof {
                assert(buf@.take(i + 1) =~= buf@.take(i as int).push(buf@[i as int]));
            }
            i = i + 1;
        }
        proof {
            assert(buf@.take(buf@.len() as int) =~= buf@);
        }
        self.pos = self.pos + buf.len() as u64;
    }

    /// Makes buffered bytes durable before a pointer derived from `pos` is
    /// recorded.  The in-memory model holds everything already, so this
    /// changes nothing.
    pub fn flush(&mut self)
        ensures
            *final(self) == *old(self),
    {
    }

    /// Hands the accumulated segment contents out.
    pub fn into_data(self) -> (v: Vec<u8>)
        ensures
            v@ == self@,
    {
        self.data
    }
}

} // verus!
