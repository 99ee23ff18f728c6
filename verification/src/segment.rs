//! One segment of a partition: the pair of a `<base>.log` message file
//! and a `<base>.index` offset index sharing the 20-digit base-offset
//! stem.  The segment appends framed records to the log, records their
//! positions in the index, and counts as full once the log reaches its
//! byte cap.
use vstd::prelude::*;
use crate::entry::Entry;
use crate::index::{Index, BASE_OFFSET_MAX};
use crate::names::{is_log_name, log_base};
use crate::names::parse_log_name;
use crate::{LogError, Offset};

verus! {

/// Segment bounds: the log size at which a segment counts as full,
/// and the size index files are created with.
#[derive(Debug, PartialEq, Eq, Structural, Clone, Copy)]
pub struct MaxBytes(pub u64, pub u64);

impl MaxBytes {
    /// Bounds the core can operate with: a positive roll-over
    /// threshold (base offsets must strictly increase across
    /// rotations) no larger than every position the index's 32-bit
    /// field can hold, and an index of a whole number of slots, at
    /// least two, that fits in memory.
    pub open spec fn valid(self) -> bool {
        &&& 0 < self.0 <= 0x1_0000_0000
        &&& self.1 % 8 == 0
        &&& 16 <= self.1 <= usize::MAX
    }

    /// Checks `valid` at run time, for callers that take bounds in.
    pub fn is_valid(&self) -> (r: bool)
        ensures
            r == self.valid(),
    {
        0 < self.0 && self.0 <= 0x1_0000_0000 && self.1 % 8 == 0 && 16 <= self.1 && self.1
            <= usize::MAX as u64
    }
}

/// Whether slot `k` of `index` holds only zero bytes.
pub open spec fn slot_zero(index: Index, k: int) -> bool {
    forall|i: int| 8 * k <= i < 8 * k + 8 ==> index.data@[i] == 0
}

/// One segment.  The log bytes stand for the `.log` file and the index
/// for the mapped `.index` file; a sealed segment is one the partition
/// no longer writes.
pub struct SegmentMeta {
    /// First offset this segment may store; fixed at creation.
    pub base_offset: Offset,

    /// Offset the next write to this segment will record.
    pub next_offset: Offset,

    /// The bounds the segment was created with.
    pub max_bytes: MaxBytes,

    /// Bytes of the log file.
    pub log: Vec<u8>,

    /// The offset index over the log.
    pub index: Index,

    /// Byte positions in `log` at which the records written through
    /// this segment start, in offset order — the abstract content the
    /// invariants speak of.
    pub recs: Ghost<Seq<u64>>,
}

impl SegmentMeta {
    /// Current write position: the size of the log.
    pub open spec fn position_spec(self) -> int {
        self.log@.len() as int
    }

    /// Number of records between base and next offset.
    pub open spec fn rec_count(self) -> int {
        self.next_offset - self.base_offset
    }

    /// Structural soundness: valid bounds, an index based where the
    /// segment is, and a next offset within the segment's reach.
    pub open spec fn wf(self) -> bool {
        &&& self.max_bytes.valid()
        &&& self.index.wf()
        &&& self.index.base_offset == self.base_offset
        &&& self.index.max_bytes == self.max_bytes.1
        &&& self.base_offset <= self.next_offset
        &&& self.next_offset - self.base_offset <= 0x1_0000_0000
    }

    /// Full accounting of a segment the core itself wrote: record `k`
    /// starts at `recs[k]`, the first at zero, each at least a header
    /// apart from the next; slot `k` of the index maps offset
    /// `base + k` to that position; slots past the last record are
    /// untouched.
    pub open spec fn synced(self) -> bool {
        let n = self.recs@.len() as int;
        &&& self.wf()
        &&& n == self.rec_count()
        &&& n <= self.index.slot_count()
        &&& (n > 0 ==> self.recs@[0] == 0)
        &&& (forall|k: int| 0 <= k < n - 1 ==> #[trigger] self.recs@[k] + 12 <= self.recs@[k + 1])
        &&& (n > 0 ==> self.recs@[n - 1] + 12 <= self.log@.len())
        &&& (forall|k: int| 0 <= k < n ==> #[trigger] self.recs@[k] < 0x1_0000_0000)
        &&& (forall|k: int|
            0 <= k < n ==> #[trigger] self.index.entry_at(k) == (Entry {
                offset: (self.base_offset + k) as u64,
                position: self.recs@[k] as u64,
            }))
        &&& (forall|k: int| n <= k < self.index.slot_count() ==> #[trigger] slot_zero(self.index, k))
        &&& (n == 0 ==> self.log@.len() == 0)
    }

    /// Creates a fresh segment based at `base_offset`: empty log, zero
    /// index of the configured size, next offset at the base.
    pub fn new(base_offset: Offset, max_bytes: MaxBytes) -> (s: SegmentMeta)
        requires
            max_bytes.valid(),
            base_offset <= BASE_OFFSET_MAX,
        ensures
            s.synced(),
            s.base_offset == base_offset,
            s.next_offset == base_offset,
            s.max_bytes == max_bytes,
            s.log@ == Seq::<u8>::empty(),
            s.recs@ == Seq::<u64>::empty(),
            s.index.data@ == Seq::new(max_bytes.1 as nat, |i: int| 0u8),
    {
        let index = match Index::new(base_offset, max_bytes.1) {
            Ok(index) => index,
            Err(_) => vstd::pervasive::unreached(),
        };
        let s = SegmentMeta {
            base_offset,
            next_offset: base_offset,
            max_bytes,
            log: Vec::new(),
            index,
            recs: Ghost(Seq::empty()),
        };
        proof {
            assert forall|k: int| 0 <= k < s.index.slot_count() implies #[trigger] slot_zero(
                s.index,
                k,
            ) by {
                assert forall|i: int| 8 * k <= i < 8 * k + 8 implies s.index.data@[i] == 0 by {
                    assert(s.index.data@[i] == 0);
                }
            }
        }
        s
    }

    /// Rebuilds a segment from the files found on disk: the log file's
    /// name and bytes, and the bytes of the index file beside it (empty
    /// if there was none).  Names that do not carry a `.log` extension
    /// and a decimal stem are not segments; neither are stems too large
    /// to index against, nor index bytes that hold no whole slots.  The
    /// next offset is recovered from the index: the base for a
    /// never-written index, one past the latest stored entry otherwise.
    pub fn load(name: &str, log_bytes: Vec<u8>, index_bytes: Vec<u8>, max_bytes: MaxBytes) -> (r:
        Option<SegmentMeta>)
        requires
            max_bytes.valid(),
        ensures
            r is Some <==> is_log_name(name@) && log_base(name@) <= BASE_OFFSET_MAX && (
            index_bytes@.len() == 0 || (index_bytes@.len() % 8 == 0 && index_bytes@.len() >= 16)),
            r matches Some(s) ==> {
                &&& s.wf()
                &&& s.base_offset == log_base(name@)
                &&& s.max_bytes == max_bytes
                &&& s.log@ == log_bytes@
                &&& s.index.data@ == if index_bytes@.len() == 0 {
                    Seq::new(max_bytes.1 as nat, |i: int| 0u8)
                } else {
                    index_bytes@
                }
                &&& s.next_offset == if s.index.empty_prefix() {
                    s.base_offset as int
                } else {
                    s.index.latest_entry().offset + 1
                }
                &&& s.recs@ == Seq::<u64>::empty()
            },
    {
        let base_offset = match parse_log_name(name) {
            Some(base) => base,
            None => {
                return None;
            },
        };
        if base_offset > BASE_OFFSET_MAX {
            return None;
        }
        let index = match Index::open(index_bytes, base_offset, max_bytes.1) {
            Some(index) => index,
            None => {
                return None;
            },
        };
        let next_offset = if index.is_empty() {
            base_offset
        } else {
            let latest = index.find_latest_entry();
            proof {
                lemma_latest_upto_bounds(index, index.slot_count());
            }
            latest.offset + 1
        };
        Some(
            SegmentMeta {
                base_offset,
                next_offset,
                max_bytes,
                log: log_bytes,
                index,
                recs: Ghost(Seq::empty()),
            },
        )
    }

    /// Size of the log in bytes.
    pub fn size(&self) -> (n: u64)
        ensures
            n == self.log@.len(),
    {
        self.log.len() as u64
    }

    /// Appends `buf` to the log in one call, advancing the position by
    /// the buffer's size and the next offset by one: the partition
    /// frames exactly one record per call.
    pub fn write(&mut self, buf: &[u8]) -> (r: Result<usize, LogError>)
        requires
            old(self).wf(),
            old(self).next_offset - old(self).base_offset < 0x1_0000_0000,
            old(self).log@.len() + buf@.len() <= usize::MAX,
        ensures
            final(self).wf(),
            r is Ok && r->Ok_0 == buf@.len(),
            final(self).log@ == old(self).log@ + buf@,
            final(self).next_offset == old(self).next_offset + 1,
            final(self).base_offset == old(self).base_offset,
            final(self).max_bytes == old(self).max_bytes,
            final(self).index == old(self).index,
            final(self).recs == old(self).recs,
    {
        let n: usize = buf.len();
        let mut tail = vstd::slice::slice_to_vec(buf);
        self.log.append(&mut tail);
        self.next_offset = self.next_offset + 1;
        Ok(n)
    }

    /// Stores an index entry for a record of this segment.
    pub fn write_index_entry(&mut self, entry: Entry) -> (r: Result<(), LogError>)
        requires
            old(self).wf(),
            entry.offset >= old(self).base_offset,
            entry.position < 0x1_0000_0000,
        ensures
            final(self).wf(),
            final(self).base_offset == old(self).base_offset,
            final(self).next_offset == old(self).next_offset,
            final(self).max_bytes == old(self).max_bytes,
            final(self).log == old(self).log,
            final(self).recs == old(self).recs,
            final(self).index.base_offset == old(self).index.base_offset,
            final(self).index.max_bytes == old(self).index.max_bytes,
            final(self).index.data@.len() == old(self).index.data@.len(),
            r is Ok <==> entry.offset - old(self).base_offset < 0x1_0000_0000 && 8 * (entry.offset
                - old(self).base_offset) + 8 <= old(self).index.data@.len(),
            r is Ok ==> final(self).index.data@ == old(self).index.with_slot(
                entry.offset - old(self).base_offset,
                (entry.offset - old(self).base_offset) as u32,
                entry.position as u32,
            ),
            r is Err ==> *final(self) == *old(self) && r->Err_0 == LogError::SlotOutOfRange,
    {
        self.index.write_entry(entry)
    }

    /// Whether the log has reached its byte cap (the cap itself
    /// counts); a full segment takes no further appends.
    pub fn is_full(&self) -> (r: bool)
        ensures
            r == (self.log@.len() >= self.max_bytes.0),
    {
        self.log.len() as u64 >= self.max_bytes.0
    }

    /// The offset the next write will record.
    pub fn newest_offset(&self) -> (r: Offset)
        ensures
            r == self.next_offset,
    {
        self.next_offset
    }

    /// The byte position the next write will start at.
    pub fn current_position(&self) -> (r: u64)
        ensures
            r == self.log@.len(),
    {
        self.log.len() as u64
    }
}

/// The latest-entry fold never reaches past the greatest decodable
/// offset, and sees at least the base once one slot was scanned.
pub proof fn lemma_latest_upto_bounds(index: Index, k: int)
    requires
        index.wf(),
        0 <= k <= index.slot_count(),
    ensures
        index.latest_upto(k).offset <= index.base_offset + 0xFFFF_FFFF,
        k > 0 ==> index.latest_upto(k).offset >= index.base_offset,
    decreases k,
{
    if k > 0 {
        lemma_latest_upto_bounds(index, k - 1);
    }
}

/// Appending one record of `payload_len` payload bytes to a fully
/// accounted segment — one log write, one index slot, the ghost
/// position pushed — leaves it fully accounted.
#[verifier::rlimit(100)]
pub proof fn lemma_synced_after_append(pre: SegmentMeta, post: SegmentMeta, payload_len: int)
    requires
        pre.synced(),
        payload_len >= 0,
        pre.rec_count() < 0x1_0000_0000,
        pre.log@.len() < 0x1_0000_0000,
        8 * pre.rec_count() + 8 <= pre.index.data@.len(),
        post.base_offset == pre.base_offset,
        post.next_offset == pre.next_offset + 1,
        post.max_bytes == pre.max_bytes,
        post.log@.len() == pre.log@.len() + 12 + payload_len,
        post.recs@ == pre.recs@.push(pre.log@.len() as u64),
        post.index.base_offset == pre.index.base_offset,
        post.index.max_bytes == pre.index.max_bytes,
        post.index.data@ == pre.index.with_slot(
            pre.rec_count(),
            pre.rec_count() as u32,
            pre.log@.len() as u32,
        ),
    ensures
        post.synced(),
{
    let n = pre.rec_count();
    let e = Entry { offset: pre.next_offset, position: pre.log@.len() as u64 };
    assert(e.offset - pre.index.base_offset == n);
    crate::index::lemma_index_write_read(pre.index, post.index, e);
    assert(post.rec_count() == n + 1);
    assert(post.recs@.len() == n + 1);
    assert forall|i: int|
        (0 <= i < 8 * n || 8 * n + 8 <= i < post.index.data@.len()) implies post.index.data@[i]
        == pre.index.data@[i] by {}
    assert forall|k: int| n + 1 <= k < post.index.slot_count() implies #[trigger] slot_zero(
        post.index,
        k,
    ) by {
        assert(slot_zero(pre.index, k));
        assert forall|i: int| 8 * k <= i < 8 * k + 8 implies post.index.data@[i] == 0 by {
            assert(post.index.data@[i] == pre.index.data@[i]);
        }
    }
    assert forall|k: int|
        0 <= k < n + 1 implies #[trigger] post.index.entry_at(k) == (Entry {
        offset: (post.base_offset + k) as u64,
        position: post.recs@[k] as u64,
    }) by {
        if k < n {
            assert(post.index.entry_at(k) == pre.index.entry_at(k));
            assert(post.recs@[k] == pre.recs@[k]);
        } else {
            assert(post.index.entry_at(n) == e);
        }
    }
    if n > 0 {
        assert(post.recs@[n - 1] == pre.recs@[n - 1]);
        assert(pre.recs@[n - 1] + 12 <= pre.log@.len());
    }
    assert forall|k: int| 0 <= k < n implies #[trigger] post.recs@[k] + 12 <= post.recs@[k
        + 1] by {
        if k < n - 1 {
            assert(pre.recs@[k] + 12 <= pre.recs@[k + 1]);
        }
    }
}

/// Positions strictly increase with offsets inside one fully
/// accounted segment: the index entry of a later record points
/// strictly further into the log than that of an earlier one.
pub proof fn lemma_positions_increase(s: SegmentMeta, k1: int, k2: int)
    requires
        s.synced(),
        0 <= k1 < k2 < s.rec_count(),
    ensures
        s.index.entry_at(k1).position < s.index.entry_at(k2).position,
        s.recs@[k1] < s.recs@[k2],
    decreases k2 - k1,
{
    if k1 + 1 == k2 {
        assert(s.recs@[k1] + 12 <= s.recs@[k2]);
    } else {
        lemma_positions_increase(s, k1, k2 - 1);
        assert(s.recs@[k2 - 1] + 12 <= s.recs@[k2]);
    }
}

/// On a fully accounted segment the latest-entry scan finds the last
/// record: offset `next - 1` and its log position.
pub proof fn lemma_latest_of_synced(s: SegmentMeta)
    requires
        s.synced(),
        s.rec_count() >= 1,
    ensures
        s.index.latest_entry() == (Entry {
            offset: (s.next_offset - 1) as u64,
            position: s.recs@[s.rec_count() - 1] as u64,
        }),
{
    lemma_latest_of_synced_upto(s, s.index.slot_count());
}

proof fn lemma_latest_of_synced_upto(s: SegmentMeta, k: int)
    requires
        s.synced(),
        s.rec_count() >= 1,
        1 <= k <= s.index.slot_count(),
    ensures
        s.index.latest_upto(k) == (Entry {
            offset: (s.base_offset + if k <= s.rec_count() {
                k - 1
            } else {
                s.rec_count() - 1
            }) as u64,
            position: s.recs@[if k <= s.rec_count() {
                k - 1
            } else {
                s.rec_count() - 1
            }] as u64,
        }),
    decreases k,
{
    let n = s.rec_count();
    assert(s.base_offset + n <= u64::MAX);
    if k == 1 {
        assert(s.index.entry_at(0) == (Entry {
            offset: (s.base_offset + 0) as u64,
            position: s.recs@[0] as u64,
        }));
        assert(s.recs@[0] == 0);
        assert((s.base_offset + 0) as u64 == s.base_offset);
        assert(s.index.latest_upto(0) == (Entry { offset: 0u64, position: 0u64 }));
        assert(s.index.latest_upto(1) == s.index.entry_at(0));
    } else {
        lemma_latest_of_synced_upto(s, k - 1);
        let prev = s.index.latest_upto(k - 1);
        let e = s.index.entry_at(k - 1);
        if k <= n {
            assert(e == (Entry {
                offset: (s.base_offset + (k - 1)) as u64,
                position: s.recs@[k - 1] as u64,
            }));
            assert(prev.offset == (s.base_offset + (k - 2)) as u64);
            assert((s.base_offset + (k - 1)) as u64 == s.base_offset + (k - 1));
            assert((s.base_offset + (k - 2)) as u64 == s.base_offset + (k - 2));
            assert(e.offset >= prev.offset);
            assert(s.index.latest_upto(k) == e);
        } else {
            assert(slot_zero(s.index, k - 1));
            assert(s.index.data@[8 * (k - 1)] == 0 && s.index.data@[8 * (k - 1) + 1] == 0
                && s.index.data@[8 * (k - 1) + 2] == 0 && s.index.data@[8 * (k - 1) + 3] == 0);
            assert(s.index.data@[8 * (k - 1) + 4] == 0 && s.index.data@[8 * (k - 1) + 5] == 0
                && s.index.data@[8 * (k - 1) + 6] == 0 && s.index.data@[8 * (k - 1) + 7] == 0);
            crate::codec::lemma_be32_val_zero(s.index.data@, 8 * (k - 1));
            crate::codec::lemma_be32_val_zero(s.index.data@, 8 * (k - 1) + 4);
            assert(e == (Entry { offset: (s.base_offset + 0) as u64, position: 0u64 }));
            assert(prev.offset == (s.base_offset + (n - 1)) as u64);
            assert((s.base_offset + (n - 1)) as u64 == s.base_offset + (n - 1));
            if n == 1 {
                assert(s.recs@[0] == 0);
                assert(e.offset >= prev.offset);
                assert(e == prev);
                assert(s.index.latest_upto(k) == e);
            } else {
                assert(e.offset < prev.offset);
                assert(s.index.latest_upto(k) == prev);
            }
        }
    }
}

/// What loading recovers: on a fully accounted segment whose record
/// count is not exactly one, the next offset a fresh load of the same
/// files computes — the base for an all-zero index prefix, one past
/// the latest stored entry otherwise — is the segment's own next
/// offset.  (A single record leaves slot 0 holding a genuine zero
/// entry that the all-zero heuristic cannot tell from an unwritten
/// one, so its segment reloads short by one.)
pub proof fn lemma_load_recovers_next(s: SegmentMeta)
    requires
        s.synced(),
        s.rec_count() != 1,
    ensures
        s.index.empty_prefix() <==> s.rec_count() == 0,
        (if s.index.empty_prefix() {
            s.base_offset as int
        } else {
            s.index.latest_entry().offset + 1
        }) == s.next_offset,
{
    let n = s.rec_count();
    if n == 0 {
        assert(slot_zero(s.index, 0));
        assert(slot_zero(s.index, 1));
        assert forall|i: int| 0 <= i < 16 implies s.index.data@[i] == 0 by {
            if i < 8 {
                assert(slot_zero(s.index, 0));
            } else {
                assert(slot_zero(s.index, 1));
            }
        }
    } else {
        assert(n >= 2);
        if s.index.empty_prefix() {
            crate::codec::lemma_be32_val_zero(s.index.data@, 8);
            assert(s.index.entry_at(1).offset == s.base_offset);
            assert(s.index.entry_at(1) == (Entry {
                offset: (s.base_offset + 1) as u64,
                position: s.recs@[1] as u64,
            }));
            assert(false);
        }
        lemma_latest_of_synced(s);
    }
}

} // verus!
