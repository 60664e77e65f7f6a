//! Little-endian integers in byte buffers.

use vstd::prelude::*;
use vstd::bytes::{
    spec_u16_from_le_bytes, spec_u16_to_le_bytes, spec_u32_from_le_bytes, spec_u32_to_le_bytes,
    spec_u64_from_le_bytes, spec_u64_to_le_bytes, u16_from_le_bytes, u16_to_le_bytes,
    u32_from_le_bytes, u32_to_le_bytes, u64_from_le_bytes, u64_to_le_bytes,
};
use vstd::slice::slice_subrange;

verus! {

/// The 16-bit integer stored at `pos`.
pub open spec fn u16_at(data: Seq<u8>, pos: int) -> u16 {
    spec_u16_from_le_bytes(data.subrange(pos, pos + 2))
}

/// The 32-bit integer stored at `pos`.
pub open spec fn u32_at(data: Seq<u8>, pos: int) -> u32 {
    spec_u32_from_le_bytes(data.subrange(pos, pos + 4))
}

/// The 64-bit integer stored at `pos`.
pub open spec fn u64_at(data: Seq<u8>, pos: int) -> u64 {
    spec_u64_from_le_bytes(data.subrange(pos, pos + 8))
}

/// Appends `bytes` to `buf`.
pub fn append(buf: &mut Vec<u8>, bytes: &[u8])
    ensures
        final(buf)@ == old(buf)@ + bytes@,
{
    let mut i: usize = 0;
    while i < bytes.len()
        invariant
            i <= bytes.len(),
            buf@ == old(buf)@ + bytes@.take(i as int),
        decreases bytes.len() - i,
    {
        buf.push(bytes[i]);
        i += 1;
        assert(buf@ =~= old(buf)@ + bytes@.take(i as int));
    }
    assert(bytes@.take(i as int) =~= bytes@);
}

/// A copy of `data[start..end]`.
pub fn copy_range(data: &[u8], start: usize, end: usize) -> (out: Vec<u8>)
    requires
        start <= end <= data.len(),
    ensures
        out@ == data@.subrange(start as int, end as int),
{
    let mut out: Vec<u8> = Vec::new();
    append(&mut out, slice_subrange(data, start, end));
    assert(out@ =~= data@.subrange(start as int, end as int));
    out
}

/// A copy of `data`.
pub fn copy_bytes(data: &[u8]) -> (out: Vec<u8>)
    ensures
        out@ == data@,
{
    let mut out: Vec<u8> = Vec::new();
    append(&mut out, data);
    assert(out@ =~= data@);
    out
}

pub fn put_u16(buf: &mut Vec<u8>, x: u16)
    ensures
        final(buf)@ == old(buf)@ + spec_u16_to_le_bytes(x),
        final(buf)@.len() == old(buf)@.len() + 2,
{
    let b = u16_to_le_bytes(x);
    append(buf, b.as_slice());
}

pub fn put_u32(buf: &mut Vec<u8>, x: u32)
    ensures
        final(buf)@ == old(buf)@ + spec_u32_to_le_bytes(x),
        final(buf)@.len() == old(buf)@.len() + 4,
{
    let b = u32_to_le_bytes(x);
    append(buf, b.as_slice());
}

pub fn put_u64(buf: &mut Vec<u8>, x: u64)
    ensures
        final(buf)@ == old(buf)@ + spec_u64_to_le_bytes(x),
        final(buf)@.len() == old(buf)@.len() + 8,
{
    let b = u64_to_le_bytes(x);
    append(buf, b.as_slice());
}

pub fn get_u16(data: &[u8], pos: usize) -> (x: u16)
    requires
        pos + 2 <= data.len(),
    ensures
        x == u16_at(data@, pos as int),
{
    u16_from_le_bytes(slice_subrange(data, pos, pos + 2))
}

pub fn get_u32(data: &[u8], pos: usize) -> (x: u32)
    requires
        pos + 4 <= data.len(),
    ensures
        x == u32_at(data@, pos as int),
{
    u32_from_le_bytes(slice_subrange(data, pos, pos + 4))
}

pub fn get_u64(data: &[u8], pos: usize) -> (x: u64)
    requires
        pos + 8 <= data.len(),
    ensures
        x == u64_at(data@, pos as int),
{
    u64_from_le_bytes(slice_subrange(data, pos, pos + 8))
}

} // verus!
