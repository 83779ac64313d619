//! Fixed-width little-endian readers and writers with bounds checking.
//!
//! The readers take a buffer and an offset and fail with
//! [`BitcoinError::TruncatedBuffer`] when fewer bytes remain than the field
//! needs; the writers append the little-endian representation to an output
//! buffer and cannot fail. No validation beyond bounds checking happens
//! here.

use crate::errors::BitcoinError;
use vstd::bytes::lemma_auto_spec_u32_to_from_le_bytes;
use vstd::bytes::spec_u16_from_le_bytes;
use vstd::bytes::spec_u16_to_le_bytes;
use vstd::bytes::spec_u32_from_le_bytes;
use vstd::bytes::spec_u32_to_le_bytes;
use vstd::bytes::spec_u64_from_le_bytes;
use vstd::bytes::spec_u64_to_le_bytes;
use vstd::bytes::u16_from_le_bytes;
use vstd::bytes::u16_to_le_bytes;
use vstd::bytes::u32_from_le_bytes;
use vstd::bytes::u32_to_le_bytes;
use vstd::bytes::u64_from_le_bytes;
use vstd::bytes::u64_to_le_bytes;
use vstd::prelude::*;
use vstd::slice::slice_subrange;

verus! {

/// The unsigned 32-bit word with the same bit pattern as `v`.
pub open spec fn spec_i32_bits(v: i32) -> u32 {
    if v >= 0 {
        v as u32
    } else {
        (v + 0x1_0000_0000) as u32
    }
}

/// The signed 32-bit value with the same bit pattern as `u`.
pub open spec fn spec_i32_of_bits(u: u32) -> i32 {
    if u <= 0x7FFF_FFFF {
        u as i32
    } else {
        (u - 0x1_0000_0000) as i32
    }
}

/// The 4-byte little-endian representation of a signed 32-bit value.
pub open spec fn spec_i32_to_le_bytes(v: i32) -> Seq<u8> {
    spec_u32_to_le_bytes(spec_i32_bits(v))
}

/// The signed 32-bit value read from a 4-byte little-endian sequence.
pub open spec fn spec_i32_from_le_bytes(s: Seq<u8>) -> i32
    recommends
        s.len() == 4,
{
    spec_i32_of_bits(spec_u32_from_le_bytes(s))
}

/// The two bit-pattern conversions between `i32` and `u32` invert each
/// other, so the signed little-endian representation inherits the unsigned
/// round trip.
pub proof fn lemma_auto_spec_i32_to_from_le_bytes()
    ensures
        forall|v: i32|
            {
                &&& (#[trigger] spec_i32_to_le_bytes(v)).len() == 4
                &&& spec_i32_from_le_bytes(spec_i32_to_le_bytes(v)) == v
            },
        forall|s: Seq<u8>|
            s.len() == 4 ==> #[trigger] spec_i32_to_le_bytes(spec_i32_from_le_bytes(s)) == s,
{
    lemma_auto_spec_u32_to_from_le_bytes();
    assert forall|v: i32| spec_i32_of_bits(#[trigger] spec_i32_bits(v)) == v by {};
    assert forall|u: u32| spec_i32_bits(#[trigger] spec_i32_of_bits(u)) == u by {};
}

/// Reads an unsigned 16-bit little-endian value at `offset`.
pub fn read_u16_le(data: &[u8], offset: usize) -> (r: Result<u16, BitcoinError>)
    ensures
        offset + 2 <= data@.len() ==> r == Ok::<u16, BitcoinError>(
            spec_u16_from_le_bytes(data@.subrange(offset as int, offset + 2)),
        ),
        offset + 2 > data@.len() ==> r == Err::<u16, BitcoinError>(BitcoinError::TruncatedBuffer),
{
    if data.len() < 2 || offset > data.len() - 2 {
        return Err(BitcoinError::TruncatedBuffer);
    }
    let sub = slice_subrange(data, offset, offset + 2);
    Ok(u16_from_le_bytes(sub))
}

/// Reads an unsigned 32-bit little-endian value at `offset`.
pub fn read_u32_le(data: &[u8], offset: usize) -> (r: Result<u32, BitcoinError>)
    ensures
        offset + 4 <= data@.len() ==> r == Ok::<u32, BitcoinError>(
            spec_u32_from_le_bytes(data@.subrange(offset as int, offset + 4)),
        ),
        offset + 4 > data@.len() ==> r == Err::<u32, BitcoinError>(BitcoinError::TruncatedBuffer),
{
    if data.len() < 4 || offset > data.len() - 4 {
        return Err(BitcoinError::TruncatedBuffer);
    }
    let sub = slice_subrange(data, offset, offset + 4);
    Ok(u32_from_le_bytes(sub))
}

/// Reads a signed 32-bit little-endian value at `offset`.
pub fn read_i32_le(data: &[u8], offset: usize) -> (r: Result<i32, BitcoinError>)
    ensures
        offset + 4 <= data@.len() ==> r == Ok::<i32, BitcoinError>(
            spec_i32_from_le_bytes(data@.subrange(offset as int, offset + 4)),
        ),
        offset + 4 > data@.len() ==> r == Err::<i32, BitcoinError>(BitcoinError::TruncatedBuffer),
{
    match read_u32_le(data, offset) {
        Ok(u) => {
            if u <= 0x7FFF_FFFF {
                Ok(u as i32)
            } else {
                Ok(((u as i64) - 0x1_0000_0000i64) as i32)
            }
        },
        Err(e) => Err(e),
    }
}

/// Reads an unsigned 64-bit little-endian value at `offset`.
pub fn read_u64_le(data: &[u8], offset: usize) -> (r: Result<u64, BitcoinError>)
    ensures
        offset + 8 <= data@.len() ==> r == Ok::<u64, BitcoinError>(
            spec_u64_from_le_bytes(data@.subrange(offset as int, offset + 8)),
        ),
        offset + 8 > data@.len() ==> r == Err::<u64, BitcoinError>(BitcoinError::TruncatedBuffer),
{
    if data.len() < 8 || offset > data.len() - 8 {
        return Err(BitcoinError::TruncatedBuffer);
    }
    let sub = slice_subrange(data, offset, offset + 8);
    Ok(u64_from_le_bytes(sub))
}

/// Appends the 2-byte little-endian representation of `v` to `out`.
pub fn write_u16_le(out: &mut Vec<u8>, v: u16)
    ensures
        final(out)@ == old(out)@ + spec_u16_to_le_bytes(v),
{
    let mut bytes = u16_to_le_bytes(v);
    out.append(&mut bytes);
}

/// Appends the 4-byte little-endian representation of `v` to `out`.
pub fn write_u32_le(out: &mut Vec<u8>, v: u32)
    ensures
        final(out)@ == old(out)@ + spec_u32_to_le_bytes(v),
{
    let mut bytes = u32_to_le_bytes(v);
    out.append(&mut bytes);
}

/// Appends the 4-byte little-endian representation of `v` to `out`.
pub fn write_i32_le(out: &mut Vec<u8>, v: i32)
    ensures
        final(out)@ == old(out)@ + spec_i32_to_le_bytes(v),
{
    if v >= 0 {
        write_u32_le(out, v as u32);
    } else {
        write_u32_le(out, ((v as i64) + 0x1_0000_0000i64) as u32);
    }
}

/// Appends every byte of `bytes` to `out`, in order.
pub fn write_bytes(out: &mut Vec<u8>, bytes: &[u8])
    ensures
        final(out)@ == old(out)@ + bytes@,
{
    let mut j: usize = 0;
    while j < bytes.len()
        invariant
            j <= bytes@.len(),
            out@ == old(out)@ + bytes@.take(j as int),
        decreases bytes@.len() - j,
    {
        out.push(bytes[j]);
        assert(out@ =~= old(out)@ + bytes@.take(j as int + 1));
        j = j + 1;
    }
    assert(bytes@.take(bytes@.len() as int) =~= bytes@);
}

/// Appends the 8-byte little-endian representation of `v` to `out`.
pub fn write_u64_le(out: &mut Vec<u8>, v: u64)
    ensures
        final(out)@ == old(out)@ + spec_u64_to_le_bytes(v),
{
    let mut bytes = u64_to_le_bytes(v);
    out.append(&mut bytes);
}

} // verus!
