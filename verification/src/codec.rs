//! Big-endian encoding of the fixed-width integers used by the on-disk
//! formats: `u32` fields in index slots and message headers, and the
//! `u64` offset in message headers.
use vstd::prelude::*;

verus! {

/// The four bytes of `v` in big-endian order.
pub open spec fn be32_bytes(v: u32) -> Seq<u8> {
    seq![(v >> 24) as u8, (v >> 16) as u8, (v >> 8) as u8, v as u8]
}

/// The value of the four big-endian bytes of `s` starting at `i`.
pub open spec fn be32_val(s: Seq<u8>, i: int) -> u32
    recommends
        0 <= i,
        i + 4 <= s.len(),
{
    ((s[i] as u32) << 24) | ((s[i + 1] as u32) << 16) | ((s[i + 2] as u32) << 8) | (s[i
        + 3] as u32)
}

/// The eight bytes of `v` in big-endian order.
pub open spec fn be64_bytes(v: u64) -> Seq<u8> {
    seq![
        (v >> 56) as u8,
        (v >> 48) as u8,
        (v >> 40) as u8,
        (v >> 32) as u8,
        (v >> 24) as u8,
        (v >> 16) as u8,
        (v >> 8) as u8,
        v as u8,
    ]
}

/// The value of the eight big-endian bytes of `s` starting at `i`.
pub open spec fn be64_val(s: Seq<u8>, i: int) -> u64
    recommends
        0 <= i,
        i + 8 <= s.len(),
{
    ((s[i] as u64) << 56) | ((s[i + 1] as u64) << 48) | ((s[i + 2] as u64) << 40) | ((s[i
        + 3] as u64) << 32) | ((s[i + 4] as u64) << 24) | ((s[i + 5] as u64) << 16) | ((s[i
        + 6] as u64) << 8) | (s[i + 7] as u64)
}

/// Decoding the four big-endian bytes of a value gives the value back.
pub proof fn lemma_be32_roundtrip(v: u32)
    ensures
        be32_val(be32_bytes(v), 0) == v,
{
    assert(((((v >> 24) as u8) as u32) << 24 | (((v >> 16) as u8) as u32) << 16 | (((v
        >> 8) as u8) as u32) << 8 | ((v as u8) as u32)) == v) by (bit_vector);
}


/// Decoding the eight big-endian bytes of a value gives the value back.
pub proof fn lemma_be64_roundtrip(v: u64)
    ensures
        be64_val(be64_bytes(v), 0) == v,
{
    assert(((((v >> 56) as u8) as u64) << 56 | (((v >> 48) as u8) as u64) << 48 | (((v
        >> 40) as u8) as u64) << 40 | (((v >> 32) as u8) as u64) << 32 | (((v
        >> 24) as u8) as u64) << 24 | (((v >> 16) as u8) as u64) << 16 | (((v
        >> 8) as u8) as u64) << 8 | ((v as u8) as u64)) == v) by (bit_vector);
}


/// Four zero bytes decode to zero.
pub proof fn lemma_be32_val_zero(s: Seq<u8>, i: int)
    requires
        0 <= i,
        i + 4 <= s.len(),
        s[i] == 0,
        s[i + 1] == 0,
        s[i + 2] == 0,
        s[i + 3] == 0,
    ensures
        be32_val(s, i) == 0,
{
    assert(((0u8 as u32) << 24 | (0u8 as u32) << 16 | (0u8 as u32) << 8 | (0u8 as u32)) == 0)
        by (bit_vector);
}


/// Zero encodes to four zero bytes.
pub proof fn lemma_be32_bytes_zero()
    ensures
        be32_bytes(0) =~= seq![0u8, 0u8, 0u8, 0u8],
{
    assert((0u32 >> 24) as u8 == 0 && (0u32 >> 16) as u8 == 0 && (0u32 >> 8) as u8 == 0 && 0u32
        as u8 == 0) by (bit_vector);
}

/// Appends the four big-endian bytes of `v` to `out`.
pub fn push_be32(out: &mut Vec<u8>, v: u32)
    ensures
        final(out)@ == old(out)@ + be32_bytes(v),
{
    out.push(#[verifier::truncate] ((v >> 24) as u8));
    out.push(#[verifier::truncate] ((v >> 16) as u8));
    out.push(#[verifier::truncate] ((v >> 8) as u8));
    out.push(#[verifier::truncate] (v as u8));
    assert(out@ =~= old(out)@ + be32_bytes(v));
}

/// Appends the eight big-endian bytes of `v` to `out`.
pub fn push_be64(out: &mut Vec<u8>, v: u64)
    ensures
        final(out)@ == old(out)@ + be64_bytes(v),
{
    out.push(#[verifier::truncate] ((v >> 56) as u8));
    out.push(#[verifier::truncate] ((v >> 48) as u8));
    out.push(#[verifier::truncate] ((v >> 40) as u8));
    out.push(#[verifier::truncate] ((v >> 32) as u8));
    out.push(#[verifier::truncate] ((v >> 24) as u8));
    out.push(#[verifier::truncate] ((v >> 16) as u8));
    out.push(#[verifier::truncate] ((v >> 8) as u8));
    out.push(#[verifier::truncate] (v as u8));
    assert(out@ =~= old(out)@ + be64_bytes(v));
}

/// Reads the big-endian `u32` at byte position `i` of `data`.
pub fn be32_at(data: &Vec<u8>, i: usize) -> (r: u32)
    requires
        i + 4 <= data@.len(),
    ensures
        r == be32_val(data@, i as int),
{
    assert(i + 4 <= data.len());
    ((data[i] as u32) << 24) | ((data[i + 1] as u32) << 16) | ((data[i + 2] as u32) << 8) | (data[i
        + 3] as u32)
}

/// Reads the big-endian `u64` at byte position `i` of `data`.
pub fn be64_at(data: &Vec<u8>, i: usize) -> (r: u64)
    requires
        i + 8 <= data@.len(),
    ensures
        r == be64_val(data@, i as int),
{
    assert(i + 8 <= data.len());
    ((data[i] as u64) << 56) | ((data[i + 1] as u64) << 48) | ((data[i + 2] as u64) << 40) | ((
    data[i + 3] as u64) << 32) | ((data[i + 4] as u64) << 24) | ((data[i + 5] as u64) << 16) | ((
    data[i + 6] as u64) << 8) | (data[i + 7] as u64)
}

/// Overwrites the four bytes of `data` at `i` with `v` in big-endian order.
pub fn write_be32_at(data: &mut Vec<u8>, i: usize, v: u32)
    requires
        i + 4 <= old(data)@.len(),
    ensures
        final(data)@ == old(data)@.subrange(0, i as int) + be32_bytes(v) + old(data)@.subrange(
            i + 4,
            old(data)@.len() as int,
        ),
        final(data)@.len() == old(data)@.len(),
{
    assert(i + 4 <= data.len());
    data[i] = #[verifier::truncate] ((v >> 24) as u8);
    data[i + 1] = #[verifier::truncate] ((v >> 16) as u8);
    data[i + 2] = #[verifier::truncate] ((v >> 8) as u8);
    data[i + 3] = #[verifier::truncate] (v as u8);
    assert(data@ =~= old(data)@.subrange(0, i as int) + be32_bytes(v) + old(data)@.subrange(
        i + 4,
        old(data)@.len() as int,
    ));
}

} // verus!
