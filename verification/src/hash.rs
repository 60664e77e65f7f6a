//! The 64-bit hash behind checksums and filter probes.
//!
//! The hash is FNV-1a over the bytes, followed by a mixing step that spreads
//! every input bit over the result. It is fixed here, so that a file written
//! by one build is read by another.

use vstd::prelude::*;
use vstd::bytes::{spec_u64_to_le_bytes, u64_to_le_bytes};

verus! {

/// The state from which FNV-1a starts.
pub const FNV_OFFSET: u64 = 0xcbf2_9ce4_8422_2325;

/// The factor of FNV-1a.
pub const FNV_PRIME: u64 = 0x0000_0100_0000_01b3;

/// The factor of the mixing step.
pub const MIX_FACTOR: u64 = 0xff51_afd7_ed55_8ccd;

/// The product of two 64-bit numbers, cut to 64 bits.
pub open spec fn mul64(a: u64, b: u64) -> u64 {
    ((a as int * b as int) % 0x1_0000_0000_0000_0000) as u64
}

/// The FNV-1a state after one more byte.
pub open spec fn fnv_step(state: u64, byte: u8) -> u64 {
    mul64(state ^ (byte as u64), FNV_PRIME)
}

/// The FNV-1a state after the bytes.
pub open spec fn fnv_fold(state: u64, bytes: Seq<u8>) -> u64
    decreases bytes.len(),
{
    if bytes.len() == 0 {
        state
    } else {
        fnv_step(fnv_fold(state, bytes.drop_last()), bytes.last())
    }
}

/// The state after a number, taken as its eight little-endian bytes.
pub open spec fn fnv_number(state: u64, n: u64) -> u64 {
    fnv_fold(state, spec_u64_to_le_bytes(n))
}

/// The mixing step that ends a hash.
pub open spec fn mix(h: u64) -> u64 {
    let a = h ^ (h >> 33);
    let b = mul64(a, MIX_FACTOR);
    b ^ (b >> 33)
}

/// Multiplies and cuts to 64 bits.
pub fn mul_wrap(a: u64, b: u64) -> (product: u64)
    ensures
        product == mul64(a, b),
{
    let x = a as u128;
    let y = b as u128;
    assert(x * y <= 0xffff_ffff_ffff_ffff * 0xffff_ffff_ffff_ffff) by (nonlinear_arith)
        requires
            x <= 0xffff_ffff_ffff_ffff,
            y <= 0xffff_ffff_ffff_ffff,
    ;
    ((x * y) % 0x1_0000_0000_0000_0000u128) as u64
}

/// Takes the bytes into the state.
pub fn absorb(state: u64, bytes: &[u8]) -> (out: u64)
    ensures
        out == fnv_fold(state, bytes@),
{
    let mut h = state;
    let mut i: usize = 0;
    assert(bytes@.take(0) =~= Seq::<u8>::empty());
    while i < bytes.len()
        invariant
            i <= bytes.len(),
            h == fnv_fold(state, bytes@.take(i as int)),
        decreases bytes.len() - i,
    {
        proof {
            assert(bytes@.take(i + 1).drop_last() =~= bytes@.take(i as int));
            assert(bytes@.take(i + 1).last() == bytes@[i as int]);
        }
        h = mul_wrap(h ^ (bytes[i] as u64), FNV_PRIME);
        i += 1;
    }
    assert(bytes@.take(i as int) =~= bytes@);
    h
}

/// Takes a number into the state, as its eight little-endian bytes.
pub fn absorb_number(state: u64, n: u64) -> (out: u64)
    ensures
        out == fnv_number(state, n),
{
    let bytes = u64_to_le_bytes(n);
    absorb(state, bytes.as_slice())
}

/// Ends a hash.
pub fn finish(h: u64) -> (out: u64)
    ensures
        out == mix(h),
{
    let a = h ^ (h >> 33);
    let b = mul_wrap(a, MIX_FACTOR);
    b ^ (b >> 33)
}

} // verus!
