//! A positioned reader over an in-memory segment.
//!
//! Replay and point lookups decode records through this type; `pos` always
//! names the absolute byte offset at which the next record begins.

use vstd::prelude::*;
use crate::codec::{decode_record, parse_one, rec_of, rec_utf8};
use crate::commands::Command;
use crate::errors::KvsError;

verus! {

/// A byte source that tracks the absolute offset after every read or seek,
/// as a buffered file reader would.
#[derive(Debug)]
pub struct BufReaderWithPos {
    /// The whole contents of the segment being read.
    pub data: Vec<u8>,
    /// The current absolute byte offset into `data`.
    pub pos: u64,
}

impl View for BufReaderWithPos {
    type V = Seq<u8>;

    open spec fn view(&self) -> Seq<u8> {
        self.data@
    }
}

impl BufReaderWithPos {
    /// The position stays inside the data.
    pub open spec fn wf(&self) -> bool {
        self.pos <= self@.len()
    }

    /// Opens a reader on the given contents, positioned at the start.
    pub fn new(data: Vec<u8>) -> (r: BufReaderWithPos)
        ensures
            r@ == data@,
            r.pos == 0,
            r.wf(),
    {
        BufReaderWithPos { data, pos: 0 }
    }

    /// Moves the position to the absolute offset `pos`.
    pub fn seek(&mut self, pos: u64)
        requires
            pos <= old(self)@.len(),
        ensures
            final(self)@ == old(self)@,
            final(self).pos == pos,
            final(self).wf(),
    {
        self.pos = pos;
    }

    /// Hands the underlying contents back out.
    pub fn into_data(self) -> (v: Vec<u8>)
        ensures
            v@ == self@,
    {
        self.data
    }

    /// Decodes one record at the current position and advances the position
    /// to the offset at which the next record begins; that offset is also
    /// returned, which is what lets replay build log pointers.  The
    /// position does not move on failure.
    pub fn read_record(&mut self) -> (r: Result<(Command, u64), KvsError>)
        requires
            old(self).wf(),
        ensures
            final(self)@ == old(self)@,
            final(self).wf(),
            match parse_one(old(self)@, old(self).pos as int) {
                Some(re) => {
                    if rec_utf8(re.0) {
                        r matches Ok(p) && rec_of(p.0) == re.0 && p.1 as int == re.1
                            && final(self).pos as int == re.1 && old(self).pos < p.1
                    } else {
                        r matches Err(e) && e is SerializationError && *final(self) == *old(self)
                    }
                },
                None => r matches Err(e) && e is SerializationError && *final(self) == *old(self),
            },
    {
        let len = self.data.len();
        let start = self.pos as usize;
        match decode_record(&self.data, start) {
            Ok(p) => {
                proof {
                    if let Some(re) = parse_one(self@, self.pos as int) {
                        crate::codec::lemma_parse_sound(self@, self.pos as int, re.0, re.1);
                    }
                }
                self.pos = p.1 as u64;
                Ok((p.0, p.1 as u64))
            },
            Err(e) => Err(e),
        }
    }
}

} // verus!
