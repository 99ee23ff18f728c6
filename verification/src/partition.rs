//! A partition: one append-only log as a directory of segments, with
//! exactly one writable tail.  Appends frame the payload, write it to
//! the active segment in a single call, and record the offset in the
//! segment's index; a full active segment is sealed and a fresh one
//! takes over at the sealed segment's next offset.
use vstd::prelude::*;
use crate::entry::Entry;
use crate::index::BASE_OFFSET_MAX;
use crate::message::{frame_bytes, Message};
use crate::names::{idx_name, index_name_spec, is_log_name, log_base, log_name, log_name_spec};
use crate::segment::{lemma_synced_after_append, MaxBytes, SegmentMeta};
use crate::{LogError, Offset};

verus! {

/// A directory entry as the caller read it: a file's name and bytes.
pub struct DirFile {
    pub name: String,
    pub bytes: Vec<u8>,
}

/// Copies a byte vector.
fn clone_bytes(v: &Vec<u8>) -> (r: Vec<u8>)
    ensures
        r@ == v@,
{
    let r = v.clone();
    proof {
        assert forall|i: int| 0 <= i < v@.len() implies r@[i] == v@[i] by {
            assert(cloned(v@[i], r@[i]));
        }
        assert(r@ =~= v@);
    }
    r
}

/// Total size of the log files of a row of segments.
pub open spec fn logs_len(segs: Seq<SegmentMeta>) -> int
    decreases segs.len(),
{
    if segs.len() == 0 {
        0
    } else {
        logs_len(segs.drop_last()) + segs.last().log@.len()
    }
}

pub proof fn lemma_logs_len_push(segs: Seq<SegmentMeta>, s: SegmentMeta)
    ensures
        logs_len(segs.push(s)) == logs_len(segs) + s.log@.len(),
{
    assert(segs.push(s).drop_last() =~= segs);
}

/// One partition: its directory name, the configured bounds, the
/// sealed segments in ascending base order, and the writable tail.
pub struct Partition {
    pub name: String,
    pub max_bytes: MaxBytes,
    /// Sealed segments, ascending by base offset.
    pub segments: Vec<SegmentMeta>,
    /// The one segment appends go to.
    pub active_segment: SegmentMeta,
}

impl Partition {
    /// Structural soundness: every segment well formed under the same
    /// bounds, bases ascending, the active segment's base largest.
    pub open spec fn wf(self) -> bool {
        &&& self.max_bytes.valid()
        &&& self.active_segment.wf()
        &&& self.active_segment.max_bytes == self.max_bytes
        &&& (forall|i: int|
            0 <= i < self.segments@.len() ==> (#[trigger] self.segments@[i]).wf()
                && self.segments@[i].max_bytes == self.max_bytes)
        &&& (forall|i: int|
            0 <= i < self.segments@.len() - 1 ==> (#[trigger] self.segments@[i]).base_offset
                <= self.segments@[i + 1].base_offset)
        &&& (self.segments@.len() > 0 ==> self.segments@.last().base_offset
            <= self.active_segment.base_offset)
    }

    /// The offset the next append will record.
    pub open spec fn next_offset_spec(self) -> Offset {
        self.active_segment.next_offset
    }

    /// Whether the next append will first seal the active segment.
    pub open spec fn will_rotate(self) -> bool {
        self.active_segment.log@.len() >= self.max_bytes.0
    }

    /// Total bytes across all the partition's log files.
    pub open spec fn total_len(self) -> int {
        logs_len(self.segments@) + self.active_segment.log@.len()
    }

    /// Full accounting of a partition the core built itself: every
    /// segment fully accounted, offsets contiguous from zero — each
    /// segment starts at the offset its predecessor ended with — and
    /// no sealed segment empty.
    pub open spec fn synced(self) -> bool {
        &&& self.wf()
        &&& self.active_segment.synced()
        &&& (forall|i: int| 0 <= i < self.segments@.len() ==> (#[trigger] self.segments@[i]).synced())
        &&& (forall|i: int| 0 <= i < self.segments@.len() ==> (#[trigger] self.segments@[i]).rec_count() > 0)
        &&& (forall|i: int|
            0 <= i < self.segments@.len() - 1 ==> (#[trigger] self.segments@[i]).next_offset
                == self.segments@[i + 1].base_offset)
        &&& (self.segments@.len() > 0 ==> self.segments@.last().next_offset
            == self.active_segment.base_offset)
        &&& (if self.segments@.len() > 0 {
            self.segments@[0].base_offset == 0
        } else {
            self.active_segment.base_offset == 0
        })
    }

    /// Opens a fresh partition of the given name: one empty active
    /// segment based at offset zero, no sealed segments.  The caller
    /// creates the directory itself.
    pub fn create(name: String, max_bytes: MaxBytes) -> (p: Partition)
        requires
            max_bytes.valid(),
        ensures
            p.synced(),
            p.name == name,
            p.max_bytes == max_bytes,
            p.segments@.len() == 0,
            p.active_segment.base_offset == 0,
            p.active_segment.next_offset == 0,
            p.active_segment.log@ == Seq::<u8>::empty(),
            p.total_len() == 0,
    {
        let active = SegmentMeta::new(0, max_bytes);
        Partition { name, max_bytes, segments: Vec::new(), active_segment: active }
    }

    /// Whether the active segment is full, so that the next append
    /// must rotate.
    fn check_split(&self) -> (r: bool)
        requires
            self.wf(),
        ensures
            r == self.will_rotate(),
    {
        self.active_segment.is_full()
    }

    /// Seals the active segment into the sealed list and starts a
    /// fresh one at the offset the sealed segment ended with.
    fn split(&mut self)
        requires
            old(self).wf(),
            old(self).active_segment.next_offset <= BASE_OFFSET_MAX,
        ensures
            final(self).wf(),
            final(self).name == old(self).name,
            final(self).max_bytes == old(self).max_bytes,
            final(self).segments@ == old(self).segments@.push(old(self).active_segment),
            final(self).active_segment.synced(),
            final(self).active_segment.base_offset == old(self).active_segment.next_offset,
            final(self).active_segment.next_offset == old(self).active_segment.next_offset,
            final(self).active_segment.max_bytes == old(self).max_bytes,
            final(self).active_segment.log@ == Seq::<u8>::empty(),
            final(self).active_segment.recs@ == Seq::<u64>::empty(),
            final(self).active_segment.index.data@ == Seq::new(
                old(self).max_bytes.1 as nat,
                |i: int| 0u8,
            ),
            final(self).total_len() == old(self).total_len(),
    {
        let next_offset = self.active_segment.newest_offset();
        let mut fresh = SegmentMeta::new(next_offset, self.max_bytes);
        core::mem::swap(&mut self.active_segment, &mut fresh);
        self.segments.push(fresh);
        proof {
            lemma_logs_len_push(old(self).segments@, old(self).active_segment);
        }
    }

    /// Appends one record.  If the active segment is full it is sealed
    /// first.  The record's offset and the current log position go
    /// into a 12-byte header in front of the payload; the whole frame
    /// is written to the log in a single call, and the offset is
    /// recorded in the index.  Returns the next offset — one past the
    /// offset the record received.  Fails without any effect when the
    /// record's index slot lies beyond the mapped range or its
    /// position cannot be encoded.
    #[verifier::rlimit(100)]
    pub fn append(&mut self, message: &[u8]) -> (r: Result<Offset, LogError>)
        requires
            old(self).wf(),
            old(self).active_segment.next_offset <= BASE_OFFSET_MAX,
            old(self).active_segment.log@.len() + 12 + message@.len() <= usize::MAX,
        ensures
            final(self).wf(),
            final(self).name == old(self).name,
            final(self).max_bytes == old(self).max_bytes,
            r is Ok <==> old(self).will_rotate() || (old(self).active_segment.rec_count()
                < 0x1_0000_0000 && old(self).active_segment.log@.len() < 0x1_0000_0000 && 8 * old(
                self,
            ).active_segment.rec_count() + 8 <= old(self).active_segment.index.data@.len()),
            r is Err ==> *final(self) == *old(self) && r->Err_0 == LogError::SlotOutOfRange,
            r is Ok ==> ({
                let rotated = old(self).will_rotate();
                let offset = old(self).active_segment.next_offset;
                let position = if rotated {
                    0int
                } else {
                    old(self).active_segment.log@.len() as int
                };
                &&& r->Ok_0 == offset + 1
                &&& final(self).active_segment.next_offset == offset + 1
                &&& final(self).active_segment.base_offset == if rotated {
                    offset as int
                } else {
                    old(self).active_segment.base_offset as int
                }
                &&& final(self).active_segment.log@ == (if rotated {
                    Seq::<u8>::empty()
                } else {
                    old(self).active_segment.log@
                }) + frame_bytes(offset, position as u32, message@)
                &&& final(self).segments@ == if rotated {
                    old(self).segments@.push(old(self).active_segment)
                } else {
                    old(self).segments@
                }
                &&& final(self).active_segment.recs@ == (if rotated {
                    Seq::<u64>::empty()
                } else {
                    old(self).active_segment.recs@
                }).push(position as u64)
                &&& (!rotated ==> final(self).active_segment.index.data@ == old(
                    self,
                ).active_segment.index.with_slot(
                    old(self).active_segment.rec_count(),
                    old(self).active_segment.rec_count() as u32,
                    position as u32,
                ))
                &&& (rotated ==> final(self).active_segment.index.data@ == Seq::new(
                    old(self).max_bytes.1 as nat,
                    |i: int| 0u8,
                ))
                &&& final(self).total_len() == old(self).total_len() + 12 + message@.len()
            }),
            old(self).synced() && r is Ok ==> final(self).synced(),
    {
        if self.check_split() {
            self.split();
        }
        let ghost mid = *self;
        let next_offset = self.active_segment.newest_offset();
        let position = self.active_segment.current_position();
        let delta = next_offset - self.active_segment.base_offset;
        if delta >= 0x1_0000_0000 || position >= 0x1_0000_0000 || 8 * delta + 8
            > self.active_segment.index.len() as u64 {
            return Err(LogError::SlotOutOfRange);
        }
        let record = Message::new(next_offset, position as u32, message);
        let frame = match record.to_vec() {
            Ok(frame) => frame,
            Err(_) => vstd::pervasive::unreached(),
        };
        let _n = match self.active_segment.write(frame.as_slice()) {
            Ok(n) => n,
            Err(_) => vstd::pervasive::unreached(),
        };
        let entry = Entry::new(next_offset, position);
        match self.active_segment.write_index_entry(entry) {
            Ok(()) => (),
            Err(_) => vstd::pervasive::unreached(),
        };
        let ghost pre_recs = self.active_segment.recs@;
        self.active_segment.recs = Ghost(pre_recs.push(position));
        proof {
            if old(self).will_rotate() {
                lemma_logs_len_push(old(self).segments@, old(self).active_segment);
                crate::codec::lemma_be32_bytes_zero();
                assert(self.active_segment.index.data@ =~= Seq::new(
                    old(self).max_bytes.1 as nat,
                    |i: int| 0u8,
                ));
            }
            if old(self).synced() {
                lemma_synced_after_append(
                    mid.active_segment,
                    self.active_segment,
                    message@.len() as int,
                );
            }
        }
        Ok(self.active_segment.newest_offset())
    }
}

/// Bytes of the first file of `files` named like the index file of a
/// segment based at `base`; empty if there is none.
pub open spec fn index_bytes_for(files: Seq<DirFile>, base: u64) -> Seq<u8>
    decreases files.len(),
{
    if files.len() == 0 {
        Seq::empty()
    } else if files[0].name@ == index_name_spec(base) {
        files[0].bytes@
    } else {
        index_bytes_for(files.drop_first(), base)
    }
}

/// What an empty index file is read as: a fresh zero map.
pub open spec fn norm_index_bytes(idx: Seq<u8>, index_max: u64) -> Seq<u8> {
    if idx.len() == 0 {
        Seq::new(index_max as nat, |i: int| 0u8)
    } else {
        idx
    }
}

/// Whether file `i` of `files` loads as a segment: a `.log` name with
/// a decimal stem small enough to index against, whose companion
/// index bytes hold whole slots.
#[verifier::opaque]
pub open spec fn loads_as_segment(files: Seq<DirFile>, i: int) -> bool {
    &&& is_log_name(files[i].name@)
    &&& log_base(files[i].name@) <= BASE_OFFSET_MAX
    &&& {
        let idx = index_bytes_for(files, log_base(files[i].name@));
        idx.len() == 0 || (idx.len() % 8 == 0 && idx.len() >= 16)
    }
}

/// Whether segment `s` is what loading file `i` of `files` yields.
#[verifier::opaque]
pub open spec fn seg_matches(files: Seq<DirFile>, i: int, s: SegmentMeta, max_bytes: MaxBytes) -> bool {
    &&& s.wf()
    &&& s.base_offset == log_base(files[i].name@)
    &&& s.max_bytes == max_bytes
    &&& s.log@ == files[i].bytes@
    &&& s.index.base_offset == s.base_offset
    &&& s.index.data@ == norm_index_bytes(index_bytes_for(files, s.base_offset), max_bytes.1)
    &&& s.next_offset == if s.index.empty_prefix() {
        s.base_offset as int
    } else {
        s.index.latest_entry().offset + 1
    }
    &&& s.recs@ == Seq::<u64>::empty()
}

/// How many files of the first `upto` load as segments.
pub open spec fn seg_file_count(files: Seq<DirFile>, upto: int) -> int
    decreases upto,
{
    if upto <= 0 {
        0
    } else {
        seg_file_count(files, upto - 1) + if loads_as_segment(files, upto - 1) {
            1int
        } else {
            0int
        }
    }
}

/// Whether a row of segments is ordered by base offset.
pub open spec fn sorted_by_base(segs: Seq<SegmentMeta>) -> bool {
    forall|k1: int, k2: int|
        0 <= k1 <= k2 < segs.len() ==> (#[trigger] segs[k1]).base_offset
            <= (#[trigger] segs[k2]).base_offset
}

/// What a scan promises of its result `segs` for a listing `files`:
/// ordered by base offset, one segment per loadable file — each
/// output loads some input (`scan_src` names it), every loadable
/// input is loaded into some output (`scan_out` names it).
pub open spec fn scan_post(files: Seq<DirFile>, segs: Seq<SegmentMeta>, max_bytes: MaxBytes) -> bool {
    &&& sorted_by_base(segs)
    &&& segs.len() == seg_file_count(files, files.len() as int)
    &&& (forall|k: int|
        0 <= k < segs.len() ==> {
            let i = #[trigger] scan_src(files, segs, max_bytes, k);
            0 <= i < files.len() && loads_as_segment(files, i) && seg_matches(
                files,
                i,
                segs[k],
                max_bytes,
            )
        })
    &&& (forall|i: int|
        0 <= i < files.len() && loads_as_segment(files, i) ==> {
            let k = #[trigger] scan_out(files, segs, max_bytes, i);
            0 <= k < segs.len() && seg_matches(files, i, segs[k], max_bytes)
        })
}

/// Whether `files` is the listing of partition `p`: for each segment,
/// sealed ones first and the active one last, its log file and then
/// its index file.
pub open spec fn lists_partition(files: Seq<DirFile>, p: Partition) -> bool {
    &&& files.len() == 2 * p.segments@.len() + 2
    &&& (forall|j: int|
        0 <= j < files.len() ==> ({
            let s = p.row_seg(j / 2);
            &&& (#[trigger] files[j]).name@ == if j % 2 == 0 {
                log_name_spec(s.base_offset)
            } else {
                index_name_spec(s.base_offset)
            }
            &&& files[j].bytes@ == if j % 2 == 0 {
                s.log@
            } else {
                s.index.data@
            }
        }))
}

/// Finds the bytes of the index file companion to a segment at `base`.
fn find_index_bytes(files: &Vec<DirFile>, base: u64) -> (r: Vec<u8>)
    ensures
        r@ == index_bytes_for(files@, base),
{
    let name = idx_name(base);
    let n: usize = files.len();
    let mut i: usize = 0;
    assert(files@.skip(0) =~= files@);
    while i < n
        invariant
            0 <= i <= n == files@.len(),
            name@ == index_name_spec(base),
            index_bytes_for(files@, base) == index_bytes_for(files@.skip(i as int), base),
        decreases n - i,
    {
        assert(files@.skip(i as int)[0] == files@[i as int]);
        if files[i].name == name {
            return clone_bytes(&files[i].bytes);
        }
        assert(files@.skip(i as int).drop_first() =~= files@.skip(i as int + 1));
        i = i + 1;
    }
    assert(files@.skip(n as int) =~= Seq::<DirFile>::empty());
    Vec::new()
}

/// Places `seg` into the ordered row, behind every segment whose base
/// does not exceed its own.
fn insert_sorted(segs: &mut Vec<SegmentMeta>, seg: SegmentMeta) -> (p: usize)
    requires
        sorted_by_base(old(segs)@),
    ensures
        sorted_by_base(final(segs)@),
        0 <= p <= old(segs)@.len(),
        final(segs)@ == old(segs)@.insert(p as int, seg),
{
    let n: usize = segs.len();
    let mut j: usize = n;
    while j > 0 && segs[j - 1].base_offset > seg.base_offset
        invariant
            0 <= j <= n == segs@.len(),
            *segs == *old(segs),
            forall|k: int| j <= k < n ==> (#[trigger] segs@[k]).base_offset > seg.base_offset,
        decreases j,
    {
        j = j - 1;
    }
    segs.insert(j, seg);
    proof {
        let post = segs@;
        let pre = old(segs)@;
        assert(post == pre.insert(j as int, seg));
        assert forall|k1: int, k2: int| 0 <= k1 <= k2 < post.len() implies (
        #[trigger] post[k1]).base_offset <= (#[trigger] post[k2]).base_offset by {
            let j = j as int;
            let a = if k1 < j {
                pre[k1].base_offset
            } else if k1 == j {
                seg.base_offset
            } else {
                pre[k1 - 1].base_offset
            };
            let b = if k2 < j {
                pre[k2].base_offset
            } else if k2 == j {
                seg.base_offset
            } else {
                pre[k2 - 1].base_offset
            };
            assert(post[k1].base_offset == a && post[k2].base_offset == b);
            if k1 < j && j > 0 {
                assert(pre[k1].base_offset <= pre[j - 1].base_offset);
                assert(pre[j - 1].base_offset <= seg.base_offset);
            }
            if k2 > j {
                assert(seg.base_offset < pre[k2 - 1].base_offset);
            }
        }
    }
    j
}

/// The index of a file that segment `k` of a scan result loads: a
/// witness picked among the matching files.
pub open spec fn scan_src(files: Seq<DirFile>, segs: Seq<SegmentMeta>, max_bytes: MaxBytes, k: int) -> int {
    choose|i: int|
        0 <= i < files.len() && loads_as_segment(files, i) && seg_matches(
            files,
            i,
            segs[k],
            max_bytes,
        )
}

/// The position a loadable file `i` takes in a scan result: a witness
/// picked among the matching output segments.
pub open spec fn scan_out(files: Seq<DirFile>, segs: Seq<SegmentMeta>, max_bytes: MaxBytes, i: int) -> int {
    choose|k: int| 0 <= k < segs.len() && seg_matches(files, i, segs[k], max_bytes)
}

/// A concrete matching file grounds the `scan_src` witness.
proof fn lemma_scan_src_choice(
    files: Seq<DirFile>,
    segs: Seq<SegmentMeta>,
    max_bytes: MaxBytes,
    k: int,
    w: int,
)
    requires
        0 <= w < files.len(),
        loads_as_segment(files, w),
        seg_matches(files, w, segs[k], max_bytes),
    ensures
        ({
            let i = scan_src(files, segs, max_bytes, k);
            0 <= i < files.len() && loads_as_segment(files, i) && seg_matches(
                files,
                i,
                segs[k],
                max_bytes,
            )
        }),
{
    assert(exists|i: int|
        0 <= i < files.len() && loads_as_segment(files, i) && seg_matches(
            files,
            i,
            segs[k],
            max_bytes,
        ));
}

/// A concrete matching position grounds the `scan_out` witness.
proof fn lemma_scan_out_choice(
    files: Seq<DirFile>,
    segs: Seq<SegmentMeta>,
    max_bytes: MaxBytes,
    i: int,
    w: int,
)
    requires
        0 <= w < segs.len(),
        seg_matches(files, i, segs[w], max_bytes),
    ensures
        ({
            let k = scan_out(files, segs, max_bytes, i);
            0 <= k < segs.len() && seg_matches(files, i, segs[k], max_bytes)
        }),
{
    assert(exists|k: int| 0 <= k < segs.len() && seg_matches(files, i, segs[k], max_bytes));
}

impl Partition {
    /// Scans a directory listing for segments: every file with a
    /// `.log` extension and a decimal stem becomes a segment, loaded
    /// with the index bytes beside it; everything else is skipped.
    /// The result is ordered by base offset and holds exactly the
    /// loadable files: each output segment loads some input file, and
    /// every loadable input file is loaded into some output segment.
    #[verifier::rlimit(100)]
    pub fn scan(files: &Vec<DirFile>, max_bytes: MaxBytes) -> (segs: Vec<SegmentMeta>)
        requires
            max_bytes.valid(),
        ensures
            scan_post(files@, segs@, max_bytes),
    {
        let n: usize = files.len();
        let mut segs: Vec<SegmentMeta> = Vec::new();
        let mut i: usize = 0;
        let ghost mut srcs: Seq<int> = Seq::empty();
        let ghost mut outs: Seq<int> = Seq::empty();
        while i < n
            invariant
                max_bytes.valid(),
                0 <= i <= n == files@.len(),
                sorted_by_base(segs@),
                segs@.len() == seg_file_count(files@, i as int),
                srcs.len() == segs@.len(),
                outs.len() == i,
                forall|k: int|
                    0 <= k < segs@.len() ==> 0 <= #[trigger] srcs[k] < i && loads_as_segment(
                        files@,
                        srcs[k],
                    ) && seg_matches(files@, srcs[k], segs@[k], max_bytes),
                forall|fi: int|
                    0 <= fi < i && loads_as_segment(files@, fi) ==> 0 <= #[trigger] outs[fi]
                        < segs@.len() && seg_matches(files@, fi, segs@[outs[fi]], max_bytes),
            decreases n - i,
        {
            let ghost pre_segs = segs@;
            let ghost pre_srcs = srcs;
            let ghost pre_outs = outs;
            let mut loaded: Option<SegmentMeta> = None;
            match crate::names::parse_log_name(files[i].name.as_str()) {
                Some(base) => {
                    if base <= BASE_OFFSET_MAX {
                        let index_bytes = find_index_bytes(files, base);
                        let log_bytes = clone_bytes(&files[i].bytes);
                        loaded = SegmentMeta::load(
                            files[i].name.as_str(),
                            log_bytes,
                            index_bytes,
                            max_bytes,
                        );
                    }
                },
                None => {},
            }
            match loaded {
                Some(seg) => {
                    assert(loads_as_segment(files@, i as int)) by {
                        reveal(loads_as_segment);
                    }
                    assert(seg_matches(files@, i as int, seg, max_bytes)) by {
                        reveal(seg_matches);
                    }
                    let p = insert_sorted(&mut segs, seg);
                    proof {
                        srcs = pre_srcs.insert(p as int, i as int);
                        outs = Seq::new(
                            (i + 1) as nat,
                            |fi: int|
                                if fi == i {
                                    p as int
                                } else if pre_outs[fi] < p {
                                    pre_outs[fi]
                                } else {
                                    pre_outs[fi] + 1
                                },
                        );
                        assert forall|k: int| 0 <= k < segs@.len() implies 0 <= #[trigger] srcs[k]
                            < i + 1 && loads_as_segment(files@, srcs[k]) && seg_matches(
                            files@,
                            srcs[k],
                            segs@[k],
                            max_bytes,
                        ) by {
                            if k < p {
                                assert(segs@[k] == pre_segs[k] && srcs[k] == pre_srcs[k]);
                            } else if k == p {
                                assert(segs@[k] == seg && srcs[k] == i);
                            } else {
                                assert(segs@[k] == pre_segs[k - 1] && srcs[k] == pre_srcs[k - 1]);
                            }
                        }
                        assert forall|fi: int|
                            0 <= fi < i + 1 && loads_as_segment(files@, fi) implies 0
                            <= #[trigger] outs[fi] < segs@.len() && seg_matches(
                            files@,
                            fi,
                            segs@[outs[fi]],
                            max_bytes,
                        ) by {
                            if fi == i {
                                assert(outs[fi] == p && segs@[p as int] == seg);
                            } else {
                                let k0 = pre_outs[fi];
                                if k0 < p {
                                    assert(outs[fi] == k0 && segs@[k0] == pre_segs[k0]);
                                } else {
                                    assert(outs[fi] == k0 + 1 && segs@[k0 + 1] == pre_segs[k0]);
                                }
                            }
                        }
                    }
                },
                None => {
                    assert(!loads_as_segment(files@, i as int)) by {
                        reveal(loads_as_segment);
                    }
                    proof {
                        outs = pre_outs.push(-1);
                    }
                },
            }
            i = i + 1;
        }
        proof {
            assert forall|k: int| 0 <= k < segs@.len() implies {
                let fi = #[trigger] scan_src(files@, segs@, max_bytes, k);
                0 <= fi < files@.len() && loads_as_segment(files@, fi) && seg_matches(
                    files@,
                    fi,
                    segs@[k],
                    max_bytes,
                )
            } by {
                let w = srcs[k];
                assert(0 <= w < files@.len() && loads_as_segment(files@, w) && seg_matches(
                    files@,
                    w,
                    segs@[k],
                    max_bytes,
                ));
                lemma_scan_src_choice(files@, segs@, max_bytes, k, w);
            }
            assert forall|fi: int|
                0 <= fi < files@.len() && loads_as_segment(files@, fi) implies {
                let k = #[trigger] scan_out(files@, segs@, max_bytes, fi);
                0 <= k < segs@.len() && seg_matches(files@, fi, segs@[k], max_bytes)
            } by {
                let w = outs[fi];
                assert(0 <= w < segs@.len() && seg_matches(files@, fi, segs@[w], max_bytes));
                lemma_scan_out_choice(files@, segs@, max_bytes, fi, w);
            }
            assert(scan_post(files@, segs@, max_bytes));
        }
        segs
    }

    /// Rebuilds a partition from a directory listing: scans it for
    /// segments, promotes the one with the highest base offset to
    /// active, and keeps the rest sealed.  A listing without a single
    /// loadable segment yields the fresh partition `create` builds.
    pub fn load(name: String, files: &Vec<DirFile>, max_bytes: MaxBytes) -> (p: Partition)
        requires
            max_bytes.valid(),
        ensures
            p.wf(),
            p.name == name,
            p.max_bytes == max_bytes,
            seg_file_count(files@, files@.len() as int) == 0 ==> p.synced() && p.segments@.len()
                == 0 && p.active_segment.base_offset == 0 && p.active_segment.next_offset == 0
                && p.active_segment.log@ == Seq::<u8>::empty(),
            seg_file_count(files@, files@.len() as int) > 0 ==> scan_post(
                files@,
                p.segments@.push(p.active_segment),
                max_bytes,
            ),
    {
        let mut segments = Partition::scan(files, max_bytes);
        let ghost scanned = segments@;
        let active_segment = match segments.pop() {
            Some(seg) => seg,
            None => SegmentMeta::new(0, max_bytes),
        };
        let p = Partition { name, max_bytes, segments, active_segment };
        proof {
            if scanned.len() > 0 {
                let row = p.segments@.push(p.active_segment);
                assert(row =~= scanned);
                assert forall|k: int| 0 <= k < row.len() implies (#[trigger] row[k]).wf()
                    && row[k].max_bytes == max_bytes by {
                    assert(seg_matches(files@, scan_src(files@, row, max_bytes, k), row[k], max_bytes));
                    reveal(seg_matches);
                }
                assert forall|i: int|
                    0 <= i < p.segments@.len() implies (#[trigger] p.segments@[i]).wf()
                    && p.segments@[i].max_bytes == max_bytes by {
                    assert(p.segments@[i] == row[i]);
                }
                assert forall|i: int|
                    0 <= i < p.segments@.len() - 1 implies (#[trigger] p.segments@[i]).base_offset
                    <= p.segments@[i + 1].base_offset by {
                    assert(row[i] == p.segments@[i] && row[i + 1] == p.segments@[i + 1]);
                }
                if p.segments@.len() > 0 {
                    let last = p.segments@.len() - 1;
                    assert(row[last] == p.segments@[last] && row[last + 1] == p.active_segment);
                }
            }
        }
        p
    }

    /// The segment at position `k` of the partition's row: the sealed
    /// ones first, the active segment last.
    pub open spec fn row_seg(self, k: int) -> SegmentMeta {
        if k < self.segments@.len() {
            self.segments@[k]
        } else {
            self.active_segment
        }
    }

    /// The directory listing this partition persists as: for each
    /// segment, sealed ones first and the active one last, its log
    /// file and then its index file.
    pub fn dir_files(&self) -> (files: Vec<DirFile>)
        requires
            self.wf(),
        ensures
            lists_partition(files@, *self),
    {
        let mut files: Vec<DirFile> = Vec::new();
        let n: usize = self.segments.len();
        let mut k: usize = 0;
        while k < n
            invariant
                self.wf(),
                0 <= k <= n == self.segments@.len(),
                files@.len() == 2 * k,
                forall|j: int|
                    0 <= j < files@.len() ==> ({
                        let s = self.row_seg(j / 2);
                        &&& (#[trigger] files@[j]).name@ == if j % 2 == 0 {
                            log_name_spec(s.base_offset)
                        } else {
                            index_name_spec(s.base_offset)
                        }
                        &&& files@[j].bytes@ == if j % 2 == 0 {
                            s.log@
                        } else {
                            s.index.data@
                        }
                    }),
            decreases n - k,
        {
            let base = self.segments[k].base_offset;
            files.push(DirFile { name: log_name(base), bytes: clone_bytes(&self.segments[k].log) });
            files.push(
                DirFile { name: idx_name(base), bytes: clone_bytes(&self.segments[k].index.data) },
            );
            k = k + 1;
        }
        let base = self.active_segment.base_offset;
        files.push(DirFile { name: log_name(base), bytes: clone_bytes(&self.active_segment.log) });
        files.push(
            DirFile { name: idx_name(base), bytes: clone_bytes(&self.active_segment.index.data) },
        );
        files
    }
}

/// Appends return consecutive offsets.  An append's contract reports
/// one past the offset its record received and leaves the partition's
/// next offset there; so across two successful appends, whatever
/// happened to the segments in between, the second report exceeds the
/// first by exactly one.
pub proof fn lemma_appends_consecutive(
    p0: Partition,
    p1: Partition,
    p2: Partition,
    r1: u64,
    r2: u64,
)
    requires
        r1 == p0.next_offset_spec() + 1,
        p1.next_offset_spec() == r1,
        r2 == p1.next_offset_spec() + 1,
        p2.next_offset_spec() == r2,
    ensures
        r2 == r1 + 1,
{
}

/// On a fresh partition the first successful append reports offset
/// one: creation starts the active segment's next offset at zero.
pub proof fn lemma_first_append_offset(p0: Partition, r: u64)
    requires
        p0.next_offset_spec() == 0,
        r == p0.next_offset_spec() + 1,
    ensures
        r == 1,
{
}

/// Sealed segments chain into their successors without gaps: in a
/// partition the core built, each sealed segment's next offset — the
/// offset it held when it was sealed — is the base offset of the
/// segment after it, the active segment following the last sealed one.
pub proof fn lemma_segments_contiguous(p: Partition, i: int)
    requires
        p.synced(),
        0 <= i < p.segments@.len(),
    ensures
        p.segments@[i].next_offset == if i + 1 < p.segments@.len() {
            p.segments@[i + 1].base_offset as int
        } else {
            p.active_segment.base_offset as int
        },
{
}

/// Base offsets strictly increase along a fully accounted partition's
/// row of segments.
pub proof fn lemma_row_bases_increase(p: Partition, k1: int, k2: int)
    requires
        p.synced(),
        0 <= k1 < k2 <= p.segments@.len(),
    ensures
        p.row_seg(k1).base_offset < p.row_seg(k2).base_offset,
    decreases k2 - k1,
{
    let n = p.segments@.len() as int;
    if k2 == k1 + 1 {
        assert(p.segments@[k1].rec_count() > 0);
        assert(p.segments@[k1].wf());
        if k2 < n {
            assert(p.segments@[k1].next_offset == p.segments@[k1 + 1].base_offset);
        } else {
            assert(p.segments@.last() == p.segments@[k1]);
        }
    } else {
        lemma_row_bases_increase(p, k1, k2 - 1);
        lemma_row_bases_increase(p, k2 - 1, k2);
    }
}

/// Where the first file named like the index of `base` sits, its
/// bytes are what a scan reads as that base's index.
proof fn lemma_index_bytes_found(files: Seq<DirFile>, base: u64, j: int)
    requires
        0 <= j < files.len(),
        files[j].name@ == index_name_spec(base),
        forall|j2: int| 0 <= j2 < j ==> (#[trigger] files[j2]).name@ != index_name_spec(base),
    ensures
        index_bytes_for(files, base) == files[j].bytes@,
    decreases j,
{
    if j == 0 {
    } else {
        assert(files[0].name@ != index_name_spec(base));
        assert(files.drop_first()[j - 1] == files[j]);
        assert forall|j2: int| 0 <= j2 < j - 1 implies (#[trigger] files.drop_first()[j2]).name@
            != index_name_spec(base) by {
            assert(files.drop_first()[j2] == files[j2 + 1]);
        }
        lemma_index_bytes_found(files.drop_first(), base, j - 1);
    }
}

/// Counting loadable files over a listing where exactly the even
/// positions load.
proof fn lemma_count_alternating(files: Seq<DirFile>, j: int)
    requires
        0 <= j <= files.len(),
        forall|j2: int|
            0 <= j2 < files.len() && j2 % 2 == 0 ==> #[trigger] loads_as_segment(files, j2),
        forall|j2: int|
            0 <= j2 < files.len() && j2 % 2 == 1 ==> !#[trigger] loads_as_segment(files, j2),
    ensures
        seg_file_count(files, j) == (j + 1) / 2,
    decreases j,
{
    if j > 0 {
        lemma_count_alternating(files, j - 1);
    }
}

/// The position of row segment `t` within a scan of the partition's
/// listing: the output `scan_out` names for the row's log file.
pub open spec fn row_out(p: Partition, files: Seq<DirFile>, segs: Seq<SegmentMeta>, t: int) -> int {
    scan_out(files, segs, p.max_bytes, 2 * t)
}

/// The facts the correspondence argument runs on: each row segment's
/// log file is loaded into a known output position carrying the row's
/// base offset.
pub open spec fn row_outs_ok(p: Partition, files: Seq<DirFile>, segs: Seq<SegmentMeta>) -> bool {
    forall|t: int|
        0 <= t <= p.segments@.len() ==> {
            let k = #[trigger] row_out(p, files, segs, t);
            0 <= k < segs.len() && segs[k].base_offset == p.row_seg(t).base_offset
        }
}

proof fn lemma_row_out_lower(p: Partition, files: Seq<DirFile>, segs: Seq<SegmentMeta>, t: int)
    requires
        p.synced(),
        row_outs_ok(p, files, segs),
        sorted_by_base(segs),
        0 <= t <= p.segments@.len(),
    ensures
        row_out(p, files, segs, t) >= t,
    decreases t,
{
    if t > 0 {
        lemma_row_out_lower(p, files, segs, t - 1);
        let k1 = row_out(p, files, segs, t - 1);
        let k2 = row_out(p, files, segs, t);
        lemma_row_bases_increase(p, t - 1, t);
        if k2 <= k1 {
            assert(segs[k2].base_offset <= segs[k1].base_offset);
            assert(false);
        }
    }
}

proof fn lemma_row_out_upper(p: Partition, files: Seq<DirFile>, segs: Seq<SegmentMeta>, t: int)
    requires
        p.synced(),
        row_outs_ok(p, files, segs),
        sorted_by_base(segs),
        segs.len() == p.segments@.len() + 1,
        0 <= t <= p.segments@.len(),
    ensures
        row_out(p, files, segs, t) <= t,
    decreases p.segments@.len() - t,
{
    let n = p.segments@.len() as int;
    if t < n {
        lemma_row_out_upper(p, files, segs, t + 1);
        let k1 = row_out(p, files, segs, t);
        let k2 = row_out(p, files, segs, t + 1);
        lemma_row_bases_increase(p, t, t + 1);
        if k1 >= k2 {
            assert(segs[k2].base_offset <= segs[k1].base_offset);
            assert(false);
        }
    }
}

/// In a fully accounted partition's listing, exactly the even
/// positions — the log files — load as segments, and the index bytes
/// the scan pairs a base with are that row's index file.
proof fn lemma_listing_loads(p: Partition, files: Seq<DirFile>)
    requires
        p.synced(),
        lists_partition(files, p),
    ensures
        forall|j: int|
            0 <= j < files.len() && j % 2 == 0 ==> #[trigger] loads_as_segment(files, j)
                && index_bytes_for(files, p.row_seg(j / 2).base_offset) == p.row_seg(
                j / 2,
            ).index.data@ && is_log_name(files[j].name@) && log_base(files[j].name@) == p.row_seg(
                j / 2,
            ).base_offset,
        forall|j: int|
            0 <= j < files.len() && j % 2 == 1 ==> !#[trigger] loads_as_segment(files, j),
        seg_file_count(files, files.len() as int) == p.segments@.len() + 1,
{
    let n = p.segments@.len() as int;
    assert forall|k: int| 0 <= k <= n implies (#[trigger] p.row_seg(k)).wf() by {
        if k < n {
            assert(p.segments@[k].wf());
        }
    }
    assert forall|j: int| 0 <= j < files.len() && j % 2 == 0 implies #[trigger] loads_as_segment(
        files,
        j,
    ) && index_bytes_for(files, p.row_seg(j / 2).base_offset) == p.row_seg(j / 2).index.data@
        && is_log_name(files[j].name@) && log_base(files[j].name@) == p.row_seg(
        j / 2,
    ).base_offset by {
        let k = j / 2;
        let r = p.row_seg(k);
        assert(r.wf());
        crate::names::lemma_log_name_roundtrip(r.base_offset);
        assert(files[j].name@ == log_name_spec(r.base_offset));
        assert(files[j + 1].name@ == index_name_spec(r.base_offset));
        assert forall|j2: int| 0 <= j2 < j + 1 implies (#[trigger] files[j2]).name@
            != index_name_spec(r.base_offset) by {
            let k2 = j2 / 2;
            let r2 = p.row_seg(k2);
            if j2 % 2 == 0 {
                crate::names::lemma_log_name_not_index_name(r2.base_offset, r.base_offset);
            } else {
                assert(k2 < k);
                lemma_row_bases_increase(p, k2, k);
                if files[j2].name@ == index_name_spec(r.base_offset) {
                    crate::names::lemma_index_name_injective(r2.base_offset, r.base_offset);
                }
            }
        }
        lemma_index_bytes_found(files, r.base_offset, j + 1);
        assert(r.index.data@.len() >= 16 && r.index.data@.len() % 8 == 0);
        assert(loads_as_segment(files, j)) by {
            reveal(loads_as_segment);
        }
    }
    assert forall|j: int| 0 <= j < files.len() && j % 2 == 1 implies !#[trigger] loads_as_segment(
        files,
        j,
    ) by {
        crate::names::lemma_index_name_not_log(p.row_seg(j / 2).base_offset);
        assert(files[j].name@ == index_name_spec(p.row_seg(j / 2).base_offset));
        reveal(loads_as_segment);
    }
    lemma_count_alternating(files, files.len() as int);
}

/// Output position `k` of the scan is row `k` of the partition.
#[verifier::rlimit(100)]
proof fn lemma_row_position(p: Partition, files: Seq<DirFile>, segs: Seq<SegmentMeta>, k: int)
    requires
        p.synced(),
        lists_partition(files, p),
        scan_post(files, segs, p.max_bytes),
        segs.len() == p.segments@.len() + 1,
        row_outs_ok(p, files, segs),
        forall|j: int|
            0 <= j < files.len() && j % 2 == 0 ==> #[trigger] loads_as_segment(files, j)
                && index_bytes_for(files, p.row_seg(j / 2).base_offset) == p.row_seg(
                j / 2,
            ).index.data@ && is_log_name(files[j].name@) && log_base(files[j].name@) == p.row_seg(
                j / 2,
            ).base_offset,
        0 <= k < segs.len(),
    ensures
        ({
            let s = segs[k];
            let r = p.row_seg(k);
            &&& s.wf()
            &&& s.max_bytes == p.max_bytes
            &&& s.base_offset == r.base_offset
            &&& s.log@ == r.log@
            &&& s.index.base_offset == r.base_offset
            &&& s.index.data@ == r.index.data@
            &&& s.next_offset == if s.index.empty_prefix() {
                s.base_offset as int
            } else {
                s.index.latest_entry().offset + 1
            }
        }),
{
    let mb = p.max_bytes;
    lemma_row_out_lower(p, files, segs, k);
    lemma_row_out_upper(p, files, segs, k);
    assert(row_out(p, files, segs, k) == k);
    let j = 2 * k;
    assert(loads_as_segment(files, j));
    assert(seg_matches(files, j, segs[k], mb));
    let r = p.row_seg(k);
    assert(r.wf()) by {
        if k < p.segments@.len() {
            assert(p.segments@[k].wf());
        }
    }
    assert(index_bytes_for(files, r.base_offset) == r.index.data@);
    assert(r.index.data@.len() >= 16);
    reveal(seg_matches);
    assert(segs[k].log@ == files[j].bytes@);
}

/// Scanning the listing of a fully accounted partition recovers its
/// row of segments position by position: the same bases, the same log
/// bytes, the same index bytes, under the same bounds, with the next
/// offset the load rule computes from that index.
pub proof fn lemma_scan_recovers_partition(
    p: Partition,
    files: Seq<DirFile>,
    segs: Seq<SegmentMeta>,
)
    requires
        p.synced(),
        lists_partition(files, p),
        scan_post(files, segs, p.max_bytes),
    ensures
        segs.len() == p.segments@.len() + 1,
        forall|k: int|
            0 <= k < segs.len() ==> {
                let s = #[trigger] segs[k];
                let r = p.row_seg(k);
                &&& s.wf()
                &&& s.max_bytes == p.max_bytes
                &&& s.base_offset == r.base_offset
                &&& s.log@ == r.log@
                &&& s.index.base_offset == r.base_offset
                &&& s.index.data@ == r.index.data@
                &&& s.next_offset == if s.index.empty_prefix() {
                    s.base_offset as int
                } else {
                    s.index.latest_entry().offset + 1
                }
            },
{
    let n = p.segments@.len() as int;
    let mb = p.max_bytes;
    lemma_listing_loads(p, files);
    assert(segs.len() == n + 1);
    assert forall|t: int| 0 <= t <= n implies {
        let k = #[trigger] row_out(p, files, segs, t);
        0 <= k < segs.len() && segs[k].base_offset == p.row_seg(t).base_offset
    } by {
        let j = 2 * t;
        assert(loads_as_segment(files, j));
        let k = scan_out(files, segs, mb, j);
        assert(0 <= k < segs.len() && seg_matches(files, j, segs[k], mb));
        assert(segs[k].base_offset == log_base(files[j].name@)) by {
            reveal(seg_matches);
        }
    }
    assert(row_outs_ok(p, files, segs));
    assert forall|k: int| 0 <= k < segs.len() implies {
        let s = #[trigger] segs[k];
        let r = p.row_seg(k);
        &&& s.wf()
        &&& s.max_bytes == mb
        &&& s.base_offset == r.base_offset
        &&& s.log@ == r.log@
        &&& s.index.base_offset == r.base_offset
        &&& s.index.data@ == r.index.data@
        &&& s.next_offset == if s.index.empty_prefix() {
            s.base_offset as int
        } else {
            s.index.latest_entry().offset + 1
        }
    } by {
        lemma_row_position(p, files, segs, k);
    }
}

/// What loading a fully accounted partition's own listing makes of
/// the active segment: the scanned segment with the highest base is
/// the active one, and its recovered next offset is exactly the
/// offset the next append would have received had the process never
/// stopped.  The one exception is an active segment holding exactly
/// one record: its only index entry is all zero, which the zero-
/// prefix heuristic cannot tell from an unwritten slot, and the
/// segment reloads short by that record.
pub proof fn lemma_load_recovers_active(
    p: Partition,
    files: Seq<DirFile>,
    segs: Seq<SegmentMeta>,
)
    requires
        p.synced(),
        p.active_segment.rec_count() != 1,
        lists_partition(files, p),
        scan_post(files, segs, p.max_bytes),
    ensures
        segs.len() == p.segments@.len() + 1,
        segs.last().base_offset == p.active_segment.base_offset,
        segs.last().next_offset == p.active_segment.next_offset,
{
    lemma_scan_recovers_partition(p, files, segs);
    let n = p.segments@.len() as int;
    let s = segs[n];
    let a = p.active_segment;
    assert(p.row_seg(n) == a);
    crate::index::lemma_same_view_same_latest(s.index, a.index, a.index.slot_count());
    crate::segment::lemma_load_recovers_next(a);
}

} // verus!
