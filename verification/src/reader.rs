//! A positioned cursor over a partition.  A reader starts at a chosen
//! logical offset: it picks the last segment whose base does not
//! exceed that offset, looks the offset up in the segment's index,
//! and from there yields the partition as one continuous byte stream,
//! crossing segment boundaries inside a single read.  The stream is
//! raw: the 12-byte frame headers come with the payloads, and parsing
//! records back out is the consumer's business.
use vstd::prelude::*;
use crate::segment::{MaxBytes, SegmentMeta};
use crate::Offset;

verus! {

/// Concatenation of the log bytes of a row of segments.
pub open spec fn concat_logs(segs: Seq<SegmentMeta>) -> Seq<u8>
    decreases segs.len(),
{
    if segs.len() == 0 {
        Seq::empty()
    } else {
        segs.first().log@ + concat_logs(segs.drop_first())
    }
}

/// The last position whose segment starts at or before `offset`;
/// negative if every segment starts past it (or there is none).
pub open spec fn cursor_of(segs: Seq<SegmentMeta>, offset: u64) -> int
    decreases segs.len(),
{
    if segs.len() == 0 {
        -1
    } else if segs.last().base_offset <= offset {
        segs.len() - 1
    } else {
        cursor_of(segs.drop_last(), offset)
    }
}

/// A reader: the segment its cursor stands in, the byte position of
/// the cursor within that segment's log, and the segments still ahead.
pub struct Reader {
    /// Segments after the active one, in reading order.
    pub segments: Vec<SegmentMeta>,
    /// The segment the cursor stands in.
    pub active_segment: SegmentMeta,
    /// The bounds the partition was scanned with.
    pub max_bytes: MaxBytes,
    /// The logical offset the reader was opened at.
    pub offset: Offset,
    /// Byte position of the cursor within the active segment's log.
    pub relative_position: u64,
}

impl Reader {
    /// The cursor never stands past the end of the active log.
    pub open spec fn wf(self) -> bool {
        self.relative_position <= self.active_segment.log@.len()
    }

    /// The byte stream still ahead of the cursor: the rest of the
    /// active segment's log, then the remaining logs whole.
    pub open spec fn remaining(self) -> Seq<u8> {
        self.active_segment.log@.skip(self.relative_position as int) + concat_logs(self.segments@)
    }

    /// Opens a reader at `offset` over a scanned row of segments,
    /// ordered by base offset.  The cursor lands in the last segment
    /// whose base does not exceed `offset`, at the log position the
    /// segment's index stores for it (held inside the log's bounds);
    /// the segments after it are kept for continuation, those before
    /// it are dropped.  There is no reader for an offset before every
    /// segment — in particular over an empty row — nor for one whose
    /// index slot lies outside the mapped range.
    pub fn new(offset: Offset, segments: Vec<SegmentMeta>, max_bytes: MaxBytes) -> (r: Option<Reader>)
        requires
            forall|k: int| 0 <= k < segments@.len() ==> (#[trigger] segments@[k]).wf(),
        ensures
            r is Some <==> cursor_of(segments@, offset) >= 0 && 8 * (offset - segments@[cursor_of(
                segments@,
                offset,
            )].base_offset) + 8 <= segments@[cursor_of(segments@, offset)].index.data@.len(),
            r matches Some(reader) ==> ({
                let c = cursor_of(segments@, offset);
                let s = segments@[c];
                let e = s.index.entry_at(offset - s.base_offset);
                &&& reader.wf()
                &&& reader.active_segment == s
                &&& reader.segments@ == segments@.skip(c + 1)
                &&& reader.max_bytes == max_bytes
                &&& reader.offset == offset
                &&& reader.relative_position == if e.position <= s.log@.len() {
                    e.position as int
                } else {
                    s.log@.len() as int
                }
            }),
    {
        let mut segments = segments;
        let n: usize = segments.len();
        let mut k: usize = n;
        assert(segments@.take(n as int) =~= segments@);
        while k > 0 && segments[k - 1].base_offset > offset
            invariant
                0 <= k <= n == segments@.len(),
                cursor_of(segments@, offset) == cursor_of(segments@.take(k as int), offset),
            decreases k,
        {
            assert(segments@.take(k as int).drop_last() =~= segments@.take(k as int - 1));
            k = k - 1;
        }
        if k == 0 {
            return None;
        }
        assert(segments@.take(k as int).drop_last() =~= segments@.take(k as int - 1));
        let c = k - 1;
        assert(cursor_of(segments@, offset) == c);
        let ghost all = segments@;
        let queue = segments.split_off(c + 1);
        let active = match segments.pop() {
            Some(seg) => seg,
            None => vstd::pervasive::unreached(),
        };
        assert(active == all[c as int]);
        assert(queue@ == all.skip(c as int + 1));
        let slot = offset - active.base_offset;
        let entry = match active.index.read_log_entry(slot) {
            Ok(entry) => entry,
            Err(_) => {
                return None;
            },
        };
        let log_len = active.log.len() as u64;
        let relative_position = if entry.position <= log_len {
            entry.position
        } else {
            log_len
        };
        Some(
            Reader {
                segments: queue,
                active_segment: active,
                max_bytes,
                offset,
                relative_position,
            },
        )
    }

    /// Fills `buf` from the stream: bytes come from the active
    /// segment's log at the cursor; at the end of a segment the
    /// reader advances into the next one and goes on filling the same
    /// buffer.  Stops when the buffer is full or the stream is dry,
    /// and returns how many bytes were placed; the rest of the buffer
    /// keeps its old contents.
    pub fn read(&mut self, buf: &mut Vec<u8>) -> (n: usize)
        requires
            old(self).wf(),
        ensures
            final(self).wf(),
            final(self).max_bytes == old(self).max_bytes,
            final(self).offset == old(self).offset,
            final(buf)@.len() == old(buf)@.len(),
            n == if old(buf)@.len() <= old(self).remaining().len() {
                old(buf)@.len() as int
            } else {
                old(self).remaining().len() as int
            },
            final(buf)@ == old(self).remaining().take(n as int) + old(buf)@.skip(n as int),
            final(self).remaining() == old(self).remaining().skip(n as int),
    {
        let buf_len: usize = buf.len();
        let mut written: usize = 0;
        proof {
            assert(old(self).remaining().take(0) =~= Seq::<u8>::empty());
            assert(old(buf)@.skip(0) =~= old(buf)@);
            assert(Seq::<u8>::empty() + old(buf)@ =~= old(buf)@);
            assert(old(self).remaining().skip(0) =~= old(self).remaining());
        }
        while written < buf_len && (self.relative_position < self.active_segment.log.len() as u64
            || self.segments.len() > 0)
            invariant
                self.wf(),
                0 <= written <= buf_len == buf@.len() == old(buf)@.len(),
                written <= old(self).remaining().len(),
                self.max_bytes == old(self).max_bytes,
                self.offset == old(self).offset,
                buf@ == old(self).remaining().take(written as int) + old(buf)@.skip(written as int),
                self.remaining() == old(self).remaining().skip(written as int),
            decreases buf_len - written, self.segments@.len(),
        {
            let log_len: usize = self.active_segment.log.len();
            if self.relative_position >= log_len as u64 {
                assert(self.active_segment.log@.skip(self.relative_position as int)
                    =~= Seq::<u8>::empty());
                let ghost queue = self.segments@;
                let next = self.segments.remove(0);
                self.active_segment = next;
                self.relative_position = 0;
                proof {
                    assert(queue.first() == next);
                    assert(queue.drop_first() =~= self.segments@);
                    assert(next.log@.skip(0) =~= next.log@);
                    assert(self.remaining() =~= concat_logs(queue));
                    assert(Seq::<u8>::empty() + concat_logs(queue) =~= concat_logs(queue));
                }
            } else {
                let ghost rem = self.remaining();
                let b = self.active_segment.log[self.relative_position as usize];
                assert(rem[0] == self.active_segment.log@[self.relative_position as int]);
                buf[written] = b;
                written = written + 1;
                self.relative_position = self.relative_position + 1;
                proof {
                    let all = old(self).remaining();
                    assert(rem == all.skip(written - 1));
                    assert(all[written - 1] == rem[0]);
                    assert(buf@ =~= all.take(written as int) + old(buf)@.skip(written as int));
                    assert(self.remaining() =~= rem.skip(1));
                    assert(rem.skip(1) =~= all.skip(written as int));
                }
            }
        }
        proof {
            let all = old(self).remaining();
            if written < buf_len {
                assert(self.active_segment.log@.skip(self.relative_position as int)
                    =~= Seq::<u8>::empty());
                assert(self.remaining() =~= Seq::<u8>::empty());
                assert(all.skip(written as int).len() == 0);
                assert(written == all.len());
            }
        }
        written
    }
}

/// The byte length of a row of logs is the sum of the logs' lengths.
pub proof fn lemma_concat_logs_len(segs: Seq<SegmentMeta>)
    ensures
        concat_logs(segs).len() == crate::partition::logs_len(segs),
    decreases segs.len(),
{
    if segs.len() > 0 {
        lemma_concat_logs_len(segs.drop_first());
        lemma_logs_len_drop_first(segs);
    }
}

proof fn lemma_logs_len_drop_first(segs: Seq<SegmentMeta>)
    requires
        segs.len() > 0,
    ensures
        crate::partition::logs_len(segs) == segs.first().log@.len() + crate::partition::logs_len(
            segs.drop_first(),
        ),
    decreases segs.len(),
{
    if segs.len() == 1 {
        assert(segs.drop_first() =~= Seq::<SegmentMeta>::empty());
        assert(segs.drop_last() =~= Seq::<SegmentMeta>::empty());
    } else {
        lemma_logs_len_drop_first(segs.drop_last());
        assert(segs.drop_last().drop_first() =~= segs.drop_first().drop_last());
        assert(segs.drop_last().first() == segs.first());
        assert(segs.drop_first().last() == segs.last());
    }
}

/// A reader standing at the start of the first segment has the whole
/// partition ahead of it: reading it to the end yields a byte stream
/// exactly as long as everything the partition's log files hold — for
/// a partition built by appends, the sum of header and payload sizes
/// over all appended records.
pub proof fn lemma_reader_stream_length(r: Reader)
    requires
        r.relative_position == 0,
    ensures
        r.remaining().len() == r.active_segment.log@.len() + crate::partition::logs_len(
            r.segments@,
        ),
{
    lemma_concat_logs_len(r.segments@);
    assert(r.active_segment.log@.skip(0) =~= r.active_segment.log@);
}

proof fn lemma_cursor_at_zero(segs: Seq<SegmentMeta>, j: int)
    requires
        1 <= j <= segs.len(),
        segs[0].base_offset == 0,
        forall|k: int| 1 <= k < segs.len() ==> (#[trigger] segs[k]).base_offset > 0,
    ensures
        cursor_of(segs.take(j), 0) == 0,
    decreases j,
{
    if j == 1 {
        assert(segs.take(1).last() == segs[0]);
    } else {
        lemma_cursor_at_zero(segs, j - 1);
        assert(segs.take(j).last() == segs[j - 1]);
        assert(segs.take(j).drop_last() =~= segs.take(j - 1));
    }
}

proof fn lemma_logs_len_pointwise(s1: Seq<SegmentMeta>, s2: Seq<SegmentMeta>)
    requires
        s1.len() == s2.len(),
        forall|k: int| 0 <= k < s1.len() ==> (#[trigger] s1[k]).log@.len() == s2[k].log@.len(),
    ensures
        crate::partition::logs_len(s1) == crate::partition::logs_len(s2),
    decreases s1.len(),
{
    if s1.len() > 0 {
        assert forall|k: int| 0 <= k < s1.drop_last().len() implies (#[trigger] s1.drop_last()[k]).log@.len()
            == s2.drop_last()[k].log@.len() by {
            assert(s1.drop_last()[k] == s1[k] && s2.drop_last()[k] == s2[k]);
        }
        lemma_logs_len_pointwise(s1.drop_last(), s2.drop_last());
        assert(s1.last().log@.len() == s2.last().log@.len());
    }
}

/// Reading a fully accounted partition from offset zero to the end
/// yields the whole byte stream: a reader opened at offset zero over
/// the scan of the partition's listing has exactly as many bytes
/// ahead of it as all the partition's log files hold — for a
/// partition built by appends, the sum of the 12-byte header and the
/// payload length over every appended record.
pub proof fn lemma_reader_sees_whole_partition(
    p: crate::partition::Partition,
    files: Seq<crate::partition::DirFile>,
    segs: Seq<SegmentMeta>,
    r: Reader,
)
    requires
        p.synced(),
        crate::partition::lists_partition(files, p),
        crate::partition::scan_post(files, segs, p.max_bytes),
        cursor_of(segs, 0) >= 0,
        r.active_segment == segs[cursor_of(segs, 0)],
        r.segments@ == segs.skip(cursor_of(segs, 0) + 1),
        r.relative_position == ({
            let s = segs[cursor_of(segs, 0)];
            let e = s.index.entry_at(0 - s.base_offset);
            if e.position <= s.log@.len() {
                e.position as int
            } else {
                s.log@.len() as int
            }
        }),
    ensures
        r.remaining().len() == p.total_len(),
{
    crate::partition::lemma_scan_recovers_partition(p, files, segs);
    let n = p.segments@.len() as int;
    assert(segs[0].base_offset == p.row_seg(0).base_offset);
    assert(p.row_seg(0).base_offset == 0);
    assert forall|k: int| 1 <= k < segs.len() implies (#[trigger] segs[k]).base_offset > 0 by {
        crate::partition::lemma_row_bases_increase(p, 0, k);
        assert(segs[k].base_offset == p.row_seg(k).base_offset);
    }
    lemma_cursor_at_zero(segs, segs.len() as int);
    assert(segs.take(segs.len() as int) =~= segs);
    assert(cursor_of(segs, 0) == 0);
    let s0 = segs[0];
    let r0 = p.row_seg(0);
    assert(r0.synced()) by {
        if n > 0 {
            assert(p.segments@[0].synced());
        }
    }
    assert(s0.index.entry_at(0).position == 0) by {
        if r0.rec_count() > 0 {
            assert(r0.index.entry_at(0) == (crate::entry::Entry {
                offset: (r0.base_offset + 0) as u64,
                position: r0.recs@[0] as u64,
            }));
            assert(r0.recs@[0] == 0);
        } else {
            assert(crate::segment::slot_zero(r0.index, 0));
            crate::codec::lemma_be32_val_zero(r0.index.data@, 4);
        }
        assert(s0.index.entry_at(0) == r0.index.entry_at(0));
    }
    assert(r.relative_position == 0);
    lemma_reader_stream_length(r);
    let row = p.segments@.push(p.active_segment);
    assert forall|k: int| 0 <= k < segs.len() implies (#[trigger] segs[k]).log@.len()
        == row[k].log@.len() by {
        assert(segs[k].log@ == p.row_seg(k).log@);
        if k < n {
            assert(row[k] == p.segments@[k]);
        } else {
            assert(row[k] == p.active_segment);
        }
    }
    lemma_logs_len_pointwise(segs, row);
    crate::partition::lemma_logs_len_push(p.segments@, p.active_segment);
    lemma_logs_len_drop_first(segs);
    assert(segs.drop_first() =~= segs.skip(1));
    assert(r.remaining().len() == s0.log@.len() + crate::partition::logs_len(segs.skip(1)));
}

} // verus!
