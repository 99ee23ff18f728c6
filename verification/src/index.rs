//! The offset index of one segment: a fixed-size map of 8-byte slots,
//! dense by relative offset.  Slot `k` holds the relative entry for
//! absolute offset `base_offset + k`, or zero bytes if that record was
//! never written.  On disk this is the memory-mapped `.index` file; the
//! caller hands the mapped bytes in and writes them back out.
use vstd::prelude::*;
use crate::codec::{be32_at, be32_bytes, be32_val, write_be32_at, lemma_be32_roundtrip};
use crate::entry::{Entry, RelativeEntry};
use crate::{LogError, Offset};

verus! {

/// Greatest base offset an index may carry: any stored delta decoded
/// against it must stay within `u64`.
pub const BASE_OFFSET_MAX: u64 = u64::MAX - 0x1_0000_0000;

/// The slot map of one segment.
#[derive(Debug)]
pub struct Index {
    /// First offset of the owning segment; slot `k` speaks of
    /// `base_offset + k`.
    pub base_offset: Offset,
    /// The size the index file is created with.
    pub max_bytes: u64,
    /// The bytes of the index file.
    pub data: Vec<u8>,
}

impl Index {
    /// Structural soundness: the base leaves room for every decodable
    /// delta, and the map holds a whole number of slots, at least two.
    pub open spec fn wf(self) -> bool {
        &&& self.base_offset <= BASE_OFFSET_MAX
        &&& self.data@.len() >= 16
        &&& self.data@.len() % 8 == 0
    }

    /// Number of slots in the map.
    pub open spec fn slot_count(self) -> int {
        self.data@.len() as int / 8
    }

    /// The entry slot `k` decodes to against the base offset.
    pub open spec fn entry_at(self, k: int) -> Entry
        recommends
            self.wf(),
            0 <= k < self.slot_count(),
    {
        Entry {
            offset: (self.base_offset + be32_val(self.data@, 8 * k)) as u64,
            position: be32_val(self.data@, 8 * k + 4) as u64,
        }
    }

    /// The fold the latest-entry scan computes: the stored entry with
    /// the greatest offset, later slots winning ties; zero when `k` is.
    pub open spec fn latest_upto(self, k: int) -> Entry
        decreases k,
    {
        if k <= 0 {
            Entry { offset: 0, position: 0 }
        } else {
            let prev = self.latest_upto(k - 1);
            let e = self.entry_at(k - 1);
            if e.offset >= prev.offset {
                e
            } else {
                prev
            }
        }
    }

    /// The stored entry with the greatest offset, over the whole map.
    pub open spec fn latest_entry(self) -> Entry {
        self.latest_upto(self.slot_count())
    }

    /// Whether the first two slots are all zero — the heuristic that
    /// tells a never-written index apart from one with stored entries.
    pub open spec fn empty_prefix(self) -> bool {
        forall|i: int| 0 <= i < 16 ==> self.data@[i] == 0
    }

    /// The map bytes with slot `k` replaced by the encoding of a
    /// relative entry.
    pub open spec fn with_slot(self, k: int, delta: u32, pos: u32) -> Seq<u8>
        recommends
            0 <= k,
            8 * k + 8 <= self.data@.len(),
    {
        self.data@.subrange(0, 8 * k) + be32_bytes(delta) + be32_bytes(pos)
            + self.data@.subrange(8 * k + 8, self.data@.len() as int)
    }

    /// Creates a fresh zero-filled index of `max_bytes` bytes.  The
    /// size must be a multiple of the slot width, at least 16 bytes,
    /// and must fit in memory.
    pub fn new(base_offset: Offset, max_bytes: u64) -> (r: Result<Index, LogError>)
        requires
            base_offset <= BASE_OFFSET_MAX,
        ensures
            max_bytes % 8 != 0 ==> r == Err::<Index, LogError>(LogError::IndexSizeUnaligned),
            max_bytes % 8 == 0 && max_bytes < 16 ==> r == Err::<Index, LogError>(
                LogError::IndexSizeTooSmall,
            ),
            max_bytes % 8 == 0 && max_bytes >= 16 && max_bytes > usize::MAX ==> r == Err::<
                Index,
                LogError,
            >(LogError::IndexSizeTooLarge),
            max_bytes % 8 == 0 && 16 <= max_bytes <= usize::MAX ==> {
                &&& r is Ok
                &&& r->Ok_0.wf()
                &&& r->Ok_0.base_offset == base_offset
                &&& r->Ok_0.max_bytes == max_bytes
                &&& r->Ok_0.data@ =~= Seq::new(max_bytes as nat, |i: int| 0u8)
            },
    {
        if max_bytes % 8 != 0 {
            return Err(LogError::IndexSizeUnaligned);
        }
        if max_bytes < 16 {
            return Err(LogError::IndexSizeTooSmall);
        }
        if max_bytes > usize::MAX as u64 {
            return Err(LogError::IndexSizeTooLarge);
        }
        let n: usize = max_bytes as usize;
        let mut data: Vec<u8> = Vec::new();
        let mut i: usize = 0;
        while i < n
            invariant
                0 <= i <= n,
                data@.len() == i,
                forall|j: int| 0 <= j < i ==> data@[j] == 0u8,
            decreases n - i,
        {
            data.push(0u8);
            i = i + 1;
        }
        assert(data@ =~= Seq::new(max_bytes as nat, |i: int| 0u8));
        Ok(Index { base_offset, max_bytes, data })
    }

    /// Adopts the bytes of an existing index file.  An empty file gets
    /// the fresh zero map a new segment would create; bytes that do not
    /// form a whole number of slots, or fewer than two slots, are
    /// rejected as unreadable.
    pub fn open(bytes: Vec<u8>, base_offset: Offset, max_bytes: u64) -> (r: Option<Index>)
        requires
            base_offset <= BASE_OFFSET_MAX,
        ensures
            r is Some <==> (bytes@.len() == 0 && max_bytes % 8 == 0 && 16 <= max_bytes
                <= usize::MAX) || (bytes@.len() > 0 && bytes@.len() % 8 == 0 && bytes@.len() >= 16),
            r matches Some(index) ==> {
                &&& index.wf()
                &&& index.base_offset == base_offset
                &&& index.max_bytes == max_bytes
                &&& index.data@ == if bytes@.len() == 0 {
                    Seq::new(max_bytes as nat, |i: int| 0u8)
                } else {
                    bytes@
                }
            },
    {
        if bytes.len() == 0 {
            match Index::new(base_offset, max_bytes) {
                Ok(index) => Some(index),
                Err(_) => None,
            }
        } else if bytes.len() % 8 == 0 && bytes.len() >= 16 {
            Some(Index { base_offset, max_bytes, data: bytes })
        } else {
            None
        }
    }

    /// Size of the map in bytes; constant from creation on.
    pub fn len(&self) -> (n: usize)
        ensures
            n == self.data@.len(),
    {
        self.data.len()
    }

    /// Whether the first two slots are all zero.
    pub fn is_empty(&self) -> (r: bool)
        requires
            self.wf(),
        ensures
            r == self.empty_prefix(),
    {
        let mut i: usize = 0;
        while i < 16
            invariant
                self.wf(),
                0 <= i <= 16,
                forall|j: int| 0 <= j < i ==> self.data@[j] == 0,
            decreases 16 - i,
        {
            if self.data[i] != 0 {
                return false;
            }
            i = i + 1;
        }
        true
    }

    /// Writes the eight bytes of `relative_entry` at byte position
    /// `offset` of the map; fails if they would not fit.
    pub fn write_at(&mut self, relative_entry: RelativeEntry, offset: u64) -> (r: Result<
        (),
        LogError,
    >)
        requires
            old(self).wf(),
        ensures
            final(self).wf(),
            final(self).base_offset == old(self).base_offset,
            final(self).max_bytes == old(self).max_bytes,
            final(self).data@.len() == old(self).data@.len(),
            r is Ok <==> offset + 8 <= old(self).data@.len(),
            r is Ok ==> final(self).data@ == old(self).data@.subrange(0, offset as int)
                + be32_bytes(relative_entry.offset) + be32_bytes(relative_entry.position) + old(
                self,
            ).data@.subrange(offset as int + 8, old(self).data@.len() as int),
            r is Err ==> *final(self) == *old(self) && r->Err_0 == LogError::SlotOutOfRange,
    {
        let n: usize = self.data.len();
        if offset > (n - 8) as u64 {
            return Err(LogError::SlotOutOfRange);
        }
        let at: usize = offset as usize;
        write_be32_at(&mut self.data, at, relative_entry.offset);
        write_be32_at(&mut self.data, at + 4, relative_entry.position);
        assert(self.data@ =~= old(self).data@.subrange(0, at as int) + be32_bytes(
            relative_entry.offset,
        ) + be32_bytes(relative_entry.position) + old(self).data@.subrange(
            at as int + 8,
            old(self).data@.len() as int,
        ));
        Ok(())
    }

    /// Stores `entry` at the slot given by its offset delta against
    /// the base.  Fails if that slot lies beyond the mapped range.
    pub fn write_entry(&mut self, entry: Entry) -> (r: Result<(), LogError>)
        requires
            old(self).wf(),
            entry.offset >= old(self).base_offset,
            entry.position < 0x1_0000_0000,
        ensures
            final(self).wf(),
            final(self).base_offset == old(self).base_offset,
            final(self).max_bytes == old(self).max_bytes,
            final(self).data@.len() == old(self).data@.len(),
            r is Ok <==> entry.offset - old(self).base_offset < 0x1_0000_0000 && 8 * (entry.offset
                - old(self).base_offset) + 8 <= old(self).data@.len(),
            r is Ok ==> final(self).data@ == old(self).with_slot(
                entry.offset - old(self).base_offset,
                (entry.offset - old(self).base_offset) as u32,
                entry.position as u32,
            ),
            r is Err ==> *final(self) == *old(self) && r->Err_0 == LogError::SlotOutOfRange,
    {
        let delta = entry.offset - self.base_offset;
        if delta >= 0x1_0000_0000 {
            return Err(LogError::SlotOutOfRange);
        }
        let relative_entry = RelativeEntry::new(entry, self.base_offset);
        match self.write_at(relative_entry, delta * 8) {
            Ok(()) => Ok(()),
            Err(e) => Err(e),
        }
    }

    /// Reads the entry encoded at byte position `offset` of the map,
    /// decoded against the base offset; fails beyond the mapped range.
    pub fn read_entry(&self, offset: u64) -> (r: Result<Entry, LogError>)
        requires
            self.wf(),
        ensures
            r is Ok <==> offset + 8 <= self.data@.len(),
            r is Ok ==> r->Ok_0 == (Entry {
                offset: (self.base_offset + be32_val(self.data@, offset as int)) as u64,
                position: be32_val(self.data@, offset as int + 4) as u64,
            }),
            r is Err ==> r->Err_0 == LogError::SlotOutOfRange,
    {
        let n: usize = self.data.len();
        if offset > (n - 8) as u64 {
            return Err(LogError::SlotOutOfRange);
        }
        let at: usize = offset as usize;
        let delta = be32_at(&self.data, at);
        let position = be32_at(&self.data, at + 4);
        Ok(Entry { offset: self.base_offset + delta as u64, position: position as u64 })
    }

    /// Reads the entry of slot `offset`: the record whose absolute
    /// offset is `base_offset + offset`.
    pub fn read_log_entry(&self, offset: u64) -> (r: Result<Entry, LogError>)
        requires
            self.wf(),
        ensures
            r is Ok <==> 8 * offset + 8 <= self.data@.len(),
            r is Ok ==> r->Ok_0 == self.entry_at(offset as int),
            r is Err ==> r->Err_0 == LogError::SlotOutOfRange,
    {
        let n: usize = self.data.len();
        if offset > u64::MAX / 8 {
            return Err(LogError::SlotOutOfRange);
        }
        self.read_entry(offset * 8)
    }

    /// Scans every slot and returns the stored entry with the greatest
    /// offset; the zero entry when nothing beats it.
    pub fn find_latest_entry(&self) -> (e: Entry)
        requires
            self.wf(),
        ensures
            e == self.latest_entry(),
    {
        let n: usize = self.data.len();
        let count: usize = n / 8;
        let mut latest = Entry { offset: 0, position: 0 };
        let mut x: usize = 0;
        while x < count
            invariant
                self.wf(),
                count == self.slot_count(),
                8 * count <= self.data@.len(),
                count <= usize::MAX / 8,
                0 <= x <= count,
                latest == self.latest_upto(x as int),
            decreases count - x,
        {
            let delta = be32_at(&self.data, 8 * x);
            let position = be32_at(&self.data, 8 * x + 4);
            let e = Entry { offset: self.base_offset + delta as u64, position: position as u64 };
            assert(e == self.entry_at(x as int));
            if e.offset >= latest.offset {
                latest = e;
            }
            x = x + 1;
        }
        latest
    }
}

/// Two index values over the same base and the same bytes agree on
/// everything the scan reads from them.
pub proof fn lemma_same_view_same_latest(i1: Index, i2: Index, k: int)
    requires
        i1.base_offset == i2.base_offset,
        i1.data@ == i2.data@,
        0 <= k,
    ensures
        i1.slot_count() == i2.slot_count(),
        i1.latest_upto(k) == i2.latest_upto(k),
        i1.empty_prefix() == i2.empty_prefix(),
    decreases k,
{
    if k > 0 {
        lemma_same_view_same_latest(i1, i2, k - 1);
        assert(i1.entry_at(k - 1) == i2.entry_at(k - 1));
    }
}

/// Writing an entry stores exactly that entry at its slot and touches
/// no other slot: reading the slot back gives the entry.
pub proof fn lemma_index_write_read(pre: Index, post: Index, e: Entry)
    requires
        pre.wf(),
        e.offset >= pre.base_offset,
        e.offset - pre.base_offset < 0x1_0000_0000,
        e.position < 0x1_0000_0000,
        8 * (e.offset - pre.base_offset) + 8 <= pre.data@.len(),
        post.base_offset == pre.base_offset,
        post.data@ == pre.with_slot(
            e.offset - pre.base_offset,
            (e.offset - pre.base_offset) as u32,
            e.position as u32,
        ),
    ensures
        post.wf(),
        post.slot_count() == pre.slot_count(),
        post.entry_at(e.offset - pre.base_offset) == e,
        forall|j: int|
            0 <= j < pre.slot_count() && j != e.offset - pre.base_offset ==> post.entry_at(j)
                == pre.entry_at(j),
{
    let k = e.offset - pre.base_offset;
    let delta = k as u32;
    let pos = e.position as u32;
    assert(post.data@.len() == pre.data@.len());
    assert forall|i: int| 0 <= i < 4 implies post.data@[8 * k + i] == be32_bytes(delta)[i]
        && post.data@[8 * k + 4 + i] == be32_bytes(pos)[i] by {}
    lemma_be32_roundtrip(delta);
    lemma_be32_roundtrip(pos);
    assert(be32_val(post.data@, 8 * k) == delta);
    assert(be32_val(post.data@, 8 * k + 4) == pos);
    assert(post.entry_at(k) == e);
    assert forall|j: int| 0 <= j < pre.slot_count() && j != k implies post.entry_at(j)
        == pre.entry_at(j) by {
        assert forall|i: int| 8 * j <= i < 8 * j + 8 implies post.data@[i] == pre.data@[i] by {}
    }
}

} // verus!
