//! The compact variable-length unsigned integer codec used for count and
//! length fields of the wire format.
//!
//! A value is written as 1, 3, 5 or 9 bytes: a one-byte discriminator
//! followed by 0, 2, 4 or 8 little-endian payload bytes. Encoding always
//! chooses the shortest form able to represent the value; decoding accepts
//! any of the four forms regardless of the value's magnitude.

use crate::errors::BitcoinError;
use crate::primitives::read_u16_le;
use crate::primitives::read_u32_le;
use crate::primitives::read_u64_le;
use crate::primitives::write_u16_le;
use crate::primitives::write_u32_le;
use crate::primitives::write_u64_le;
use vstd::bytes::lemma_auto_spec_u16_to_from_le_bytes;
use vstd::bytes::lemma_auto_spec_u32_to_from_le_bytes;
use vstd::bytes::lemma_auto_spec_u64_to_from_le_bytes;
use vstd::bytes::spec_u16_from_le_bytes;
use vstd::bytes::spec_u16_to_le_bytes;
use vstd::bytes::spec_u32_from_le_bytes;
use vstd::bytes::spec_u32_to_le_bytes;
use vstd::bytes::spec_u64_from_le_bytes;
use vstd::bytes::spec_u64_to_le_bytes;
use vstd::prelude::*;

verus! {

/// The minimal wire encoding of `v`: values below `0xFD` stand alone in one
/// byte; values fitting 16 bits follow a `0xFD` byte; values fitting 32 bits
/// follow a `0xFE` byte; all others follow a `0xFF` byte.
pub open spec fn spec_varint(v: u64) -> Seq<u8> {
    if v < 0xFD {
        seq![v as u8]
    } else if v <= 0xFFFF {
        seq![0xFDu8] + spec_u16_to_le_bytes(v as u16)
    } else if v <= 0xFFFF_FFFF {
        seq![0xFEu8] + spec_u32_to_le_bytes(v as u32)
    } else {
        seq![0xFFu8] + spec_u64_to_le_bytes(v)
    }
}

/// Permissive parse of a varint at `off`: the value read and the offset just
/// past it, or `None` when the buffer ends before the form is complete. Any
/// of the four forms is accepted whatever the value's magnitude.
pub open spec fn parse_varint(s: Seq<u8>, off: int) -> Option<(u64, int)> {
    if off < 0 || off >= s.len() {
        None
    } else {
        let d = s[off];
        if d < 0xFD {
            Some((d as u64, off + 1))
        } else if d == 0xFD {
            if off + 3 <= s.len() {
                Some((spec_u16_from_le_bytes(s.subrange(off + 1, off + 3)) as u64, off + 3))
            } else {
                None
            }
        } else if d == 0xFE {
            if off + 5 <= s.len() {
                Some((spec_u32_from_le_bytes(s.subrange(off + 1, off + 5)) as u64, off + 5))
            } else {
                None
            }
        } else {
            if off + 9 <= s.len() {
                Some((spec_u64_from_le_bytes(s.subrange(off + 1, off + 9)), off + 9))
            } else {
                None
            }
        }
    }
}

/// Appends the minimal varint encoding of `v` to `out`.
pub fn write_varint(out: &mut Vec<u8>, v: u64)
    ensures
        final(out)@ == old(out)@ + spec_varint(v),
{
    if v < 0xFD {
        out.push(v as u8);
        assert(out@ =~= old(out)@ + spec_varint(v));
    } else if v <= 0xFFFF {
        out.push(0xFD);
        write_u16_le(out, v as u16);
        assert(out@ =~= old(out)@ + spec_varint(v));
    } else if v <= 0xFFFF_FFFF {
        out.push(0xFE);
        write_u32_le(out, v as u32);
        assert(out@ =~= old(out)@ + spec_varint(v));
    } else {
        out.push(0xFF);
        write_u64_le(out, v);
        assert(out@ =~= old(out)@ + spec_varint(v));
    }
}

/// Produces the minimal varint encoding of `v` as a fresh buffer.
pub fn encode_varint(v: u64) -> (r: Vec<u8>)
    ensures
        r@ == spec_varint(v),
{
    let mut out: Vec<u8> = Vec::new();
    write_varint(&mut out, v);
    out
}

/// Reads one varint at `offset`, returning the value and the number of
/// bytes consumed, or `TruncatedBuffer` when the buffer ends before the
/// form announced by the discriminator is complete.
pub fn decode_varint(data: &[u8], offset: usize) -> (r: Result<(u64, usize), BitcoinError>)
    ensures
        match r {
            Ok(p) => {
                &&& parse_varint(data@, offset as int) == Some((p.0, offset + p.1))
                &&& offset + p.1 <= data@.len()
            },
            Err(e) => {
                &&& parse_varint(data@, offset as int) is None
                &&& e == BitcoinError::TruncatedBuffer
            },
        },
{
    if offset >= data.len() {
        return Err(BitcoinError::TruncatedBuffer);
    }
    let d = data[offset];
    if d < 0xFD {
        Ok((d as u64, 1))
    } else if d == 0xFD {
        match read_u16_le(data, offset + 1) {
            Ok(v) => Ok((v as u64, 3)),
            Err(_) => Err(BitcoinError::TruncatedBuffer),
        }
    } else if d == 0xFE {
        match read_u32_le(data, offset + 1) {
            Ok(v) => Ok((v as u64, 5)),
            Err(_) => Err(BitcoinError::TruncatedBuffer),
        }
    } else {
        match read_u64_le(data, offset + 1) {
            Ok(v) => Ok((v, 9)),
            Err(_) => Err(BitcoinError::TruncatedBuffer),
        }
    }
}

/// Wherever the bytes of `spec_varint(v)` sit in a buffer, parsing at that
/// position yields `v` and consumes exactly the encoding's length.
pub proof fn lemma_parse_spec_varint(s: Seq<u8>, off: int, v: u64)
    requires
        0 <= off,
        off + spec_varint(v).len() <= s.len(),
        s.subrange(off, off + spec_varint(v).len()) == spec_varint(v),
    ensures
        parse_varint(s, off) == Some((v, off + spec_varint(v).len())),
{
    lemma_auto_spec_u16_to_from_le_bytes();
    lemma_auto_spec_u32_to_from_le_bytes();
    lemma_auto_spec_u64_to_from_le_bytes();
    let e = spec_varint(v);
    assert(s[off] == s.subrange(off, off + e.len())[0]);
    if v < 0xFD {
        assert(s[off] == v as u8);
    } else if v <= 0xFFFF {
        assert(s[off] == 0xFDu8);
        assert(s.subrange(off + 1, off + 3) =~= s.subrange(off, off + e.len()).subrange(1, 3));
        assert(s.subrange(off + 1, off + 3) =~= spec_u16_to_le_bytes(v as u16));
        assert(spec_u16_from_le_bytes(s.subrange(off + 1, off + 3)) == v as u16);
    } else if v <= 0xFFFF_FFFF {
        assert(s[off] == 0xFEu8);
        assert(s.subrange(off + 1, off + 5) =~= s.subrange(off, off + e.len()).subrange(1, 5));
        assert(s.subrange(off + 1, off + 5) =~= spec_u32_to_le_bytes(v as u32));
        assert(spec_u32_from_le_bytes(s.subrange(off + 1, off + 5)) == v as u32);
    } else {
        assert(s[off] == 0xFFu8);
        assert(s.subrange(off + 1, off + 9) =~= s.subrange(off, off + e.len()).subrange(1, 9));
        assert(s.subrange(off + 1, off + 9) =~= spec_u64_to_le_bytes(v));
    }
}

/// Minimality: the encoding's width is decided exactly by the value's
/// magnitude, and no buffer that parses as a whole to `v` is shorter than
/// `spec_varint(v)`.
pub proof fn lemma_varint_minimal(v: u64)
    ensures
        v < 0xFD ==> spec_varint(v).len() == 1,
        0xFD <= v <= 0xFFFF ==> spec_varint(v).len() == 3,
        0xFFFF < v <= 0xFFFF_FFFF ==> spec_varint(v).len() == 5,
        0xFFFF_FFFF < v ==> spec_varint(v).len() == 9,
        forall|s: Seq<u8>|
            parse_varint(s, 0) == Some((v, s.len() as int)) ==> spec_varint(v).len() <= s.len(),
{
    lemma_auto_spec_u16_to_from_le_bytes();
    lemma_auto_spec_u32_to_from_le_bytes();
    lemma_auto_spec_u64_to_from_le_bytes();
    assert forall|s: Seq<u8>|
        parse_varint(s, 0) == Some((v, s.len() as int)) implies spec_varint(v).len()
        <= s.len() by {
        let d = s[0];
        if d < 0xFD {
            assert(v == d as u64);
        } else if d == 0xFD {
            assert(s.len() == 3);
            assert(v == spec_u16_from_le_bytes(s.subrange(1, 3)) as u64);
            assert(v <= 0xFFFF);
        } else if d == 0xFE {
            assert(s.len() == 5);
            assert(v == spec_u32_from_le_bytes(s.subrange(1, 5)) as u64);
            assert(v <= 0xFFFF_FFFF);
        } else {
            assert(s.len() == 9);
        }
    }
}

/// Permissive decoding: each of the four forms wide enough to hold `v`
/// parses back to `v`, whether or not encoding would have chosen it.
pub proof fn lemma_varint_permissive(v: u64)
    ensures
        v < 0xFD ==> parse_varint(seq![v as u8], 0) == Some((v, 1int)),
        v <= 0xFFFF ==> parse_varint(seq![0xFDu8] + spec_u16_to_le_bytes(v as u16), 0) == Some(
            (v, 3int),
        ),
        v <= 0xFFFF_FFFF ==> parse_varint(seq![0xFEu8] + spec_u32_to_le_bytes(v as u32), 0)
            == Some((v, 5int)),
        parse_varint(seq![0xFFu8] + spec_u64_to_le_bytes(v), 0) == Some((v, 9int)),
{
    lemma_auto_spec_u16_to_from_le_bytes();
    lemma_auto_spec_u32_to_from_le_bytes();
    lemma_auto_spec_u64_to_from_le_bytes();
    if v < 0xFD {
        assert(parse_varint(seq![v as u8], 0) == Some((v, 1int)));
    }
    if v <= 0xFFFF {
        let s = seq![0xFDu8] + spec_u16_to_le_bytes(v as u16);
        assert(s.subrange(1, 3) =~= spec_u16_to_le_bytes(v as u16));
        assert(parse_varint(s, 0) == Some((v, 3int)));
    }
    if v <= 0xFFFF_FFFF {
        let s = seq![0xFEu8] + spec_u32_to_le_bytes(v as u32);
        assert(s.subrange(1, 5) =~= spec_u32_to_le_bytes(v as u32));
        assert(parse_varint(s, 0) == Some((v, 5int)));
    }
    let s = seq![0xFFu8] + spec_u64_to_le_bytes(v);
    assert(s.subrange(1, 9) =~= spec_u64_to_le_bytes(v));
    assert(parse_varint(s, 0) == Some((v, 9int)));
}

/// Truncating a buffer before the end of a parsed varint makes the parse
/// fail; truncating at or after its end leaves the parse unchanged.
pub proof fn lemma_parse_varint_prefix(s: Seq<u8>, k: int, off: int, v: u64, end: int)
    requires
        0 <= off <= k <= s.len(),
        parse_varint(s, off) == Some((v, end)),
    ensures
        end <= k ==> parse_varint(s.take(k), off) == Some((v, end)),
        end > k ==> parse_varint(s.take(k), off) is None,
{
    let t = s.take(k);
    if off < k {
        assert(t[off] == s[off]);
        let d = s[off];
        if d == 0xFD && off + 3 <= k {
            assert(t.subrange(off + 1, off + 3) =~= s.subrange(off + 1, off + 3));
        } else if d == 0xFE && off + 5 <= k {
            assert(t.subrange(off + 1, off + 5) =~= s.subrange(off + 1, off + 5));
        } else if d > 0xFE && off + 9 <= k {
            assert(t.subrange(off + 1, off + 9) =~= s.subrange(off + 1, off + 9));
        }
    }
}

/// A parsed varint parses the same from any buffer long enough that holds
/// the same bytes between `off` and `end`.
pub proof fn lemma_parse_varint_transfer(s: Seq<u8>, t: Seq<u8>, off: int, v: u64, end: int)
    requires
        0 <= off,
        parse_varint(s, off) == Some((v, end)),
        end <= t.len(),
        t.subrange(off, end) == s.subrange(off, end),
    ensures
        parse_varint(t, off) == Some((v, end)),
{
    assert(t[off] == t.subrange(off, end)[0]);
    assert(s[off] == s.subrange(off, end)[0]);
    let d = s[off];
    if d == 0xFD {
        assert(t.subrange(off + 1, off + 3) =~= s.subrange(off + 1, off + 3)) by {
            assert forall|i: int| off + 1 <= i < off + 3 implies t[i] == s[i] by {
                assert(t[i] == t.subrange(off, end)[i - off]);
                assert(s[i] == s.subrange(off, end)[i - off]);
            }
        }
    } else if d == 0xFE {
        assert(t.subrange(off + 1, off + 5) =~= s.subrange(off + 1, off + 5)) by {
            assert forall|i: int| off + 1 <= i < off + 5 implies t[i] == s[i] by {
                assert(t[i] == t.subrange(off, end)[i - off]);
                assert(s[i] == s.subrange(off, end)[i - off]);
            }
        }
    } else if d > 0xFE {
        assert(t.subrange(off + 1, off + 9) =~= s.subrange(off + 1, off + 9)) by {
            assert forall|i: int| off + 1 <= i < off + 9 implies t[i] == s[i] by {
                assert(t[i] == t.subrange(off, end)[i - off]);
                assert(s[i] == s.subrange(off, end)[i - off]);
            }
        }
    }
}

} // verus!
