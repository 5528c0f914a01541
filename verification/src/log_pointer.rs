//! The compact descriptor of one record's location in the log.

use vstd::prelude::*;

verus! {

/// Where one encoded record lives: the id of its segment file, the byte
/// offset of its first byte inside that segment, and its length in bytes.
///
/// `start_position + len` is the offset of the first byte after the record.
#[derive(Clone, Copy, Debug)]
pub struct LogPointer {
    /// Id of the segment file (the stem of `<id>.log`) holding the record.
    pub log_file_id: u64,
    /// Byte offset of the record's first byte inside that segment.
    pub start_position: u64,
    /// Length of the encoded record in bytes.
    pub len: u64,
}

impl LogPointer {
    /// Builds the pointer for the record occupying `start..end` of segment
    /// `id`, storing the range's length.
    pub fn from_range(id: u64, start: u64, end: u64) -> (p: LogPointer)
        requires
            start <= end,
        ensures
            p.log_file_id == id,
            p.start_position == start,
            p.len == end - start,
    {
        LogPointer { log_file_id: id, start_position: start, len: end - start }
    }
}

} // verus!
