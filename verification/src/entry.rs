//! The index entry codec: the absolute offset/position mapping kept in
//! memory, and its fixed-width relative form stored in index slots.
use vstd::prelude::*;
use crate::Offset;

verus! {

/// Width in bytes of one index slot: two big-endian `u32` fields.
pub const ENTRY_WIDTH: u32 = 8;

/// The absolute mapping of one record: its logical offset and the byte
/// position of its frame within its segment's log file.
#[derive(Debug, PartialEq, Eq, Structural, Clone, Copy)]
pub struct Entry {
    pub offset: Offset,
    pub position: Offset,
}

impl Entry {
    pub fn new(offset: Offset, position: Offset) -> (e: Entry)
        ensures
            e == (Entry { offset, position }),
    {
        Entry { offset, position }
    }
}

/// The on-disk form of an entry: the offset as a delta against the
/// segment's base offset, and the position, four bytes each.
#[derive(Debug, PartialEq, Eq, Structural, Clone, Copy)]
pub struct RelativeEntry {
    pub offset: u32,
    pub position: u32,
}

impl RelativeEntry {
    /// Relative encoding of `entry` against `base_offset`.  The entry
    /// must lie at or after the base, within the segment's reach of
    /// 2^32 records, at a position below 2^32.
    pub fn new(entry: Entry, base_offset: Offset) -> (r: RelativeEntry)
        requires
            entry.offset >= base_offset,
            entry.offset - base_offset < 0x1_0000_0000,
            entry.position < 0x1_0000_0000,
        ensures
            r.offset == entry.offset - base_offset,
            r.position == entry.position,
    {
        RelativeEntry { offset: (entry.offset - base_offset) as u32, position: entry.position as u32 }
    }

    /// Reconstructs the absolute entry into `entry`; lossless inverse
    /// of `new` for the same base.
    pub fn fill(&mut self, entry: &mut Entry, base_offset: Offset)
        requires
            base_offset + old(self).offset <= u64::MAX,
        ensures
            *final(self) == *old(self),
            final(entry).offset == base_offset + old(self).offset,
            final(entry).position == old(self).position,
    {
        entry.offset = base_offset + self.offset as u64;
        entry.position = self.position as u64;
    }
}

} // verus!
