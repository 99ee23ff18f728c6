//! The framed record written to a segment's log file: a fixed 12-byte
//! header — offset as big-endian `u64`, position as big-endian `u32` —
//! followed by the opaque payload.  There is no length prefix; a
//! record's extent is known only from the next index entry or the end
//! of the file.
use vstd::prelude::*;
use vstd::slice::slice_to_vec;
use crate::codec::{be32_at, be32_bytes, be32_val, be64_at, be64_bytes, be64_val, push_be32,
    push_be64, lemma_be32_roundtrip, lemma_be64_roundtrip};
use crate::{LogError, Offset};

verus! {

/// Bytes of the fixed header in front of every payload.
pub const MSG_HEADER_LEN: u64 = 12;

/// The bytes a framed record occupies on disk.
pub open spec fn frame_bytes(offset: u64, position: u32, payload: Seq<u8>) -> Seq<u8> {
    be64_bytes(offset) + be32_bytes(position) + payload
}

/// One record: its offset, the byte position its frame starts at
/// within its segment's log file, and the payload.
#[derive(Debug)]
pub struct Message {
    pub offset: Offset,
    pub position: u32,
    pub payload: Vec<u8>,
}

/// Copies the bytes of `data` from position `from` on into a fresh vector.
fn copy_suffix(data: &Vec<u8>, from: usize) -> (r: Vec<u8>)
    requires
        from <= data@.len(),
    ensures
        r@ == data@.skip(from as int),
{
    let n: usize = data.len();
    let mut r: Vec<u8> = Vec::new();
    let mut i: usize = from;
    while i < n
        invariant
            from <= i <= n == data@.len(),
            r@ == data@.subrange(from as int, i as int),
        decreases n - i,
    {
        r.push(data[i]);
        assert(r@ =~= data@.subrange(from as int, i + 1));
        i = i + 1;
    }
    assert(r@ =~= data@.skip(from as int));
    r
}

impl Message {
    pub fn new(offset: Offset, position: u32, payload: &[u8]) -> (m: Message)
        ensures
            m.offset == offset,
            m.position == position,
            m.payload@ == payload@,
    {
        Message { offset, position, payload: slice_to_vec(payload) }
    }

    /// Bytes this record occupies on disk: the fixed header plus the payload.
    pub fn size(&self) -> (n: usize)
        requires
            self.payload@.len() + 12 <= usize::MAX,
        ensures
            n == self.payload@.len() + 12,
    {
        12 + self.payload.len()
    }

    /// Frames the record into a single buffer: header, then payload.
    pub fn to_vec(&self) -> (r: Result<Vec<u8>, LogError>)
        ensures
            r is Ok,
            r->Ok_0@ == frame_bytes(self.offset, self.position, self.payload@),
    {
        let mut buf: Vec<u8> = Vec::new();
        push_be64(&mut buf, self.offset);
        push_be32(&mut buf, self.position);
        let mut payload = copy_suffix(&self.payload, 0);
        buf.append(&mut payload);
        assert(self.payload@.skip(0) =~= self.payload@);
        assert(buf@ =~= frame_bytes(self.offset, self.position, self.payload@));
        Ok(buf)
    }

    /// Splits a framed buffer: decodes the header, removes it from
    /// `raw`, and keeps what remains as the payload.
    pub fn from_vec(raw: &mut Vec<u8>) -> (m: Message)
        requires
            old(raw)@.len() >= 12,
        ensures
            m.offset == be64_val(old(raw)@, 0),
            m.position == be32_val(old(raw)@, 8),
            m.payload@ == old(raw)@.skip(12),
            final(raw)@ == old(raw)@.skip(12),
    {
        let offset = be64_at(raw, 0);
        let position = be32_at(raw, 8);
        let rest = copy_suffix(raw, 12);
        let payload = copy_suffix(raw, 12);
        *raw = rest;
        Message { offset, position, payload }
    }
}

/// Framing a record and splitting the frame gives the record back: the
/// decoded header fields equal the framed ones and the remainder is
/// exactly the payload.
pub proof fn lemma_message_roundtrip(offset: u64, position: u32, payload: Seq<u8>)
    ensures
        frame_bytes(offset, position, payload).len() == payload.len() + 12,
        be64_val(frame_bytes(offset, position, payload), 0) == offset,
        be32_val(frame_bytes(offset, position, payload), 8) == position,
        frame_bytes(offset, position, payload).skip(12) == payload,
{
    let frame = frame_bytes(offset, position, payload);
    assert forall|i: int| 0 <= i < 8 implies frame[i] == be64_bytes(offset)[i] by {}
    assert forall|i: int| 0 <= i < 4 implies frame[8 + i] == be32_bytes(position)[i] by {}
    lemma_be64_roundtrip(offset);
    lemma_be32_roundtrip(position);
    assert(frame.skip(12) =~= payload);
}

} // verus!
