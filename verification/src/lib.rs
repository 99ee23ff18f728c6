//! Core of a partition-oriented commit log: an append-only sequence of
//! opaque byte payloads addressed by monotonically increasing 64-bit
//! offsets, stored as a directory of bounded segment files, each a pair of
//! a framed message log and a fixed-width offset index.
//!
//! The library models the persistent state as plain values: a file is a
//! name and its bytes.  Callers read directories and files, hand their
//! contents in, and write the returned bytes back out.
use vstd::prelude::*;

pub mod cluster;
pub mod codec;
pub mod entry;
pub mod index;
pub mod message;
pub mod names;
pub mod partition;
pub mod reader;
pub mod segment;

verus! {

/// Identifier of a single record within a partition, starting at 0 and
/// increasing by one with every append.
pub type Offset = u64;

/// Failures the log core distinguishes.  I/O failures do not arise
/// here: the caller owns the files and hands their bytes in and out.
#[derive(Debug, PartialEq, Eq, Structural, Clone, Copy)]
pub enum LogError {
    /// An index size that is not a multiple of the slot width.
    IndexSizeUnaligned,
    /// An index size below the 16-byte minimum.
    IndexSizeTooSmall,
    /// An index size beyond what fits in memory.
    IndexSizeTooLarge,
    /// An index slot beyond the mapped range: the segment holds more
    /// records than its index was sized for.
    SlotOutOfRange,
}

} // verus!
