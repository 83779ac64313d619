//! A generic 2-field coordinate record and a verified parser for its
//! `"(x,y)"` text form: optional whitespace around the pair and around
//! each coordinate, parentheses, and a comma between the two unsigned
//! decimal coordinates.
//!
//! Whitespace is the full set of code points `char::is_whitespace`
//! accepts, recognised here by their UTF-8 bytes; a coordinate is an
//! unsigned 64-bit decimal number in std's grammar (an optional leading
//! `+`, then digits).

use crate::errors::BitcoinError;
use crate::text::is_u64_text;
use crate::text::parse_u64_bytes;
use crate::text::str_concat;
use crate::text::u64_text_value;
use vstd::prelude::*;
use vstd::slice::slice_subrange;
use vstd::string::StringSliceAdditionalSpecFns;

verus! {

/// A generic 2-field record, for coordinates and the like.
#[derive(Debug, Clone, PartialEq)]
pub struct Point<T> {
    pub x: T,
    pub y: T,
}

impl<T> Point<T> {
    /// The point with the two given fields.
    pub fn new(x: T, y: T) -> (r: Self)
        ensures
            r.x == x,
            r.y == y,
    {
        Point { x, y }
    }
}

/// Is `b` the single byte of an ASCII whitespace character?
pub open spec fn is_ascii_space(b: u8) -> bool {
    b == 0x20 || b == 0x09 || b == 0x0A || b == 0x0B || b == 0x0C || b == 0x0D
}

/// The byte length of the whitespace character at the head of `bs`, or 0
/// when `bs` does not start with one. The characters recognised are those
/// `char::is_whitespace` accepts, spelled in UTF-8: the ASCII whitespace
/// bytes; U+0085 and U+00A0 (`C2 85`, `C2 A0`); U+1680 (`E1 9A 80`);
/// U+2000..U+200A, U+2028, U+2029 and U+202F (`E2 80 ..`); U+205F
/// (`E2 81 9F`); and U+3000 (`E3 80 80`).
pub open spec fn space_prefix_len(bs: Seq<u8>) -> int {
    if bs.len() >= 1 && is_ascii_space(bs[0]) {
        1
    } else if bs.len() >= 2 && bs[0] == 0xC2 && (bs[1] == 0x85 || bs[1] == 0xA0) {
        2
    } else if bs.len() >= 3 && bs[0] == 0xE1 && bs[1] == 0x9A && bs[2] == 0x80 {
        3
    } else if bs.len() >= 3 && bs[0] == 0xE2 && bs[1] == 0x80 && (0x80 <= bs[2] <= 0x8A || bs[2]
        == 0xA8 || bs[2] == 0xA9 || bs[2] == 0xAF) {
        3
    } else if bs.len() >= 3 && bs[0] == 0xE2 && bs[1] == 0x81 && bs[2] == 0x9F {
        3
    } else if bs.len() >= 3 && bs[0] == 0xE3 && bs[1] == 0x80 && bs[2] == 0x80 {
        3
    } else {
        0
    }
}

/// The byte length of the whitespace character at the end of `bs`, or 0
/// when `bs` does not end with one. In valid UTF-8 the three cases cannot
/// overlap: a multi-byte whitespace character starts with a lead byte that
/// never occurs as a continuation or ASCII byte.
pub open spec fn space_suffix_len(bs: Seq<u8>) -> int {
    let n = bs.len() as int;
    if n >= 3 && space_prefix_len(bs.subrange(n - 3, n)) == 3 {
        3
    } else if n >= 2 && space_prefix_len(bs.subrange(n - 2, n)) == 2 {
        2
    } else if n >= 1 && is_ascii_space(bs[n - 1]) {
        1
    } else {
        0
    }
}

/// The sequence with its leading whitespace characters removed.
pub open spec fn trim_start(bs: Seq<u8>) -> Seq<u8>
    decreases bs.len(),
{
    let p = space_prefix_len(bs);
    if p > 0 {
        trim_start(bs.skip(p))
    } else {
        bs
    }
}

/// The sequence with its trailing whitespace characters removed.
pub open spec fn trim_end(bs: Seq<u8>) -> Seq<u8>
    decreases bs.len(),
{
    let p = space_suffix_len(bs);
    if p > 0 {
        trim_end(bs.take(bs.len() - p))
    } else {
        bs
    }
}

/// The sequence with whitespace characters removed from both ends.
pub open spec fn trim(bs: Seq<u8>) -> Seq<u8> {
    trim_end(trim_start(bs))
}

/// The index of the first comma, or -1 when there is none.
pub open spec fn find_comma(bs: Seq<u8>) -> int
    decreases bs.len(),
{
    if bs.len() == 0 {
        -1
    } else if bs[0] == 0x2C {
        0
    } else {
        let r = find_comma(bs.drop_first());
        if r < 0 {
            -1
        } else {
            r + 1
        }
    }
}

/// The two trimmed coordinate texts of a well-shaped `"(x,y)"` input, or
/// `None` when the parentheses or the comma are missing.
pub open spec fn point_body(bs: Seq<u8>) -> Option<(Seq<u8>, Seq<u8>)> {
    let t = trim(bs);
    if t.len() < 2 || t[0] != 0x28 || t.last() != 0x29 {
        None
    } else {
        let inner = t.subrange(1, t.len() - 1);
        let c = find_comma(inner);
        if c < 0 {
            None
        } else {
            Some((trim(inner.take(c)), trim(inner.skip(c + 1))))
        }
    }
}

/// Is the x coordinate text a decimal number that fits 64 bits?
pub open spec fn point_x_ok(bs: Seq<u8>) -> bool {
    match point_body(bs) {
        Some(p) => is_u64_text(p.0) && u64_text_value(p.0) <= u64::MAX,
        None => false,
    }
}

/// Is the y coordinate text a decimal number that fits 64 bits?
pub open spec fn point_y_ok(bs: Seq<u8>) -> bool {
    match point_body(bs) {
        Some(p) => is_u64_text(p.1) && u64_text_value(p.1) <= u64::MAX,
        None => false,
    }
}

/// The coordinates a well-formed `"(x,y)"` input spells, or `None`.
pub open spec fn parse_point_u64(bs: Seq<u8>) -> Option<(u64, u64)> {
    match point_body(bs) {
        None => None,
        Some(p) => {
            if is_u64_text(p.0) && u64_text_value(p.0) <= u64::MAX && is_u64_text(p.1)
                && u64_text_value(p.1) <= u64::MAX {
                Some(((u64_text_value(p.0) as u64), (u64_text_value(p.1) as u64)))
            } else {
                None
            }
        },
    }
}

/// A scan that stops at the first comma computes `find_comma`.
proof fn lemma_find_comma_at(s: Seq<u8>, c: int)
    requires
        0 <= c < s.len(),
        s[c] == 0x2C,
        forall|t: int| 0 <= t < c ==> #[trigger] s[t] != 0x2C,
    ensures
        find_comma(s) == c,
    decreases c,
{
    if c == 0 {
    } else {
        let d = s.drop_first();
        assert forall|t: int| 0 <= t < c - 1 implies #[trigger] d[t] != 0x2C by {
            assert(d[t] == s[t + 1]);
        }
        assert(d[c - 1] == s[c]);
        lemma_find_comma_at(d, c - 1);
    }
}

/// A scan that finds no comma means `find_comma` is -1.
proof fn lemma_find_comma_none(s: Seq<u8>)
    requires
        forall|t: int| 0 <= t < s.len() ==> #[trigger] s[t] != 0x2C,
    ensures
        find_comma(s) == -1,
    decreases s.len(),
{
    if s.len() == 0 {
    } else {
        let d = s.drop_first();
        assert forall|t: int| 0 <= t < d.len() implies #[trigger] d[t] != 0x2C by {
            assert(d[t] == s[t + 1]);
        }
        lemma_find_comma_none(d);
    }
}

/// The byte length of the whitespace character at `i` in the window
/// `[i, end)` of `bs`, or 0.
fn space_len_at(bs: &[u8], i: usize, end: usize) -> (p: usize)
    requires
        i <= end <= bs@.len(),
    ensures
        p == space_prefix_len(bs@.subrange(i as int, end as int)),
        p <= end - i,
{
    if i < end {
        let b0 = bs[i];
        if b0 == 0x20 || b0 == 0x09 || b0 == 0x0A || b0 == 0x0B || b0 == 0x0C || b0 == 0x0D {
            return 1;
        }
        if end - i >= 2 && b0 == 0xC2 {
            let b1 = bs[i + 1];
            if b1 == 0x85 || b1 == 0xA0 {
                return 2;
            }
        }
        if end - i >= 3 {
            let b1 = bs[i + 1];
            let b2 = bs[i + 2];
            if b0 == 0xE1 && b1 == 0x9A && b2 == 0x80 {
                return 3;
            }
            if b0 == 0xE2 && b1 == 0x80 && (0x80 <= b2 && b2 <= 0x8A || b2 == 0xA8 || b2 == 0xA9
                || b2 == 0xAF) {
                return 3;
            }
            if b0 == 0xE2 && b1 == 0x81 && b2 == 0x9F {
                return 3;
            }
            if b0 == 0xE3 && b1 == 0x80 && b2 == 0x80 {
                return 3;
            }
        }
    }
    0
}

/// The byte length of the whitespace character ending at `j` in the
/// window `[start, j)` of `bs`, or 0.
fn space_len_before(bs: &[u8], start: usize, j: usize) -> (p: usize)
    requires
        start <= j <= bs@.len(),
    ensures
        p == space_suffix_len(bs@.subrange(start as int, j as int)),
        p <= j - start,
{
    let n = j - start;
    if n >= 3 {
        proof {
            assert(bs@.subrange(start as int, j as int).subrange(n - 3, n as int) =~= bs@.subrange(
                j - 3,
                j as int,
            ));
        }
        let p3 = space_len_at(bs, j - 3, j);
        if p3 == 3 {
            return 3;
        }
    }
    if n >= 2 {
        proof {
            assert(bs@.subrange(start as int, j as int).subrange(n - 2, n as int) =~= bs@.subrange(
                j - 2,
                j as int,
            ));
        }
        let b0 = bs[j - 2];
        let b1 = bs[j - 1];
        if b0 == 0xC2 && (b1 == 0x85 || b1 == 0xA0) {
            return 2;
        }
    }
    if n >= 1 {
        let b = bs[j - 1];
        if b == 0x20 || b == 0x09 || b == 0x0A || b == 0x0B || b == 0x0C || b == 0x0D {
            return 1;
        }
    }
    0
}

/// Strips the whitespace characters at both ends of the window `[a, b)`
/// of `bs`: the pair returned is the trimmed window, whose bytes are
/// `trim` of the window's bytes.
#[verifier::loop_isolation(false)]
fn trim_range(bs: &[u8], a: usize, b: usize) -> (r: (usize, usize))
    requires
        a <= b <= bs@.len(),
    ensures
        a <= r.0 <= r.1 <= b,
        trim(bs@.subrange(a as int, b as int)) == bs@.subrange(r.0 as int, r.1 as int),
{
    let mut lo = a;
    let mut p = space_len_at(bs, lo, b);
    while p > 0
        invariant
            a <= lo <= b,
            p == space_prefix_len(bs@.subrange(lo as int, b as int)),
            p <= b - lo,
            trim_start(bs@.subrange(a as int, b as int)) == trim_start(
                bs@.subrange(lo as int, b as int),
            ),
        decreases b - lo,
    {
        let ghost prev = lo as int;
        lo = lo + p;
        proof {
            assert(bs@.subrange(prev, b as int).skip(p as int) =~= bs@.subrange(
                lo as int,
                b as int,
            ));
        }
        p = space_len_at(bs, lo, b);
    }
    let mut hi = b;
    let mut q = space_len_before(bs, lo, hi);
    while q > 0
        invariant
            lo <= hi <= b,
            q == space_suffix_len(bs@.subrange(lo as int, hi as int)),
            q <= hi - lo,
            trim_end(bs@.subrange(lo as int, b as int)) == trim_end(
                bs@.subrange(lo as int, hi as int),
            ),
        decreases hi,
    {
        let ghost prev = hi as int;
        hi = hi - q;
        proof {
            assert(bs@.subrange(lo as int, prev).take(hi - lo) =~= bs@.subrange(
                lo as int,
                hi as int,
            ));
        }
        q = space_len_before(bs, lo, hi);
    }
    (lo, hi)
}

/// The error for an input without the `(x,y)` shape, naming the input.
fn point_format_err(s: &str) -> (r: BitcoinError)
    ensures
        match r {
            BitcoinError::ParseError(m) => m@ == "Invalid point format '"@ + s@
                + "', expected '(x,y)'"@,
            _ => false,
        },
{
    let a = str_concat("Invalid point format '", s);
    let b = str_concat(a.as_str(), "', expected '(x,y)'");
    BitcoinError::ParseError(b)
}

impl Point<u64> {
    /// Parses the text form `"(x,y)"`: optional whitespace around the
    /// pair and around each coordinate, and two unsigned 64-bit decimal
    /// coordinates, each with an optional leading `+`. Inputs without
    /// that shape are rejected with a message naming the input; a
    /// coordinate that is not such a number is rejected with a message
    /// naming the coordinate.
    #[verifier::loop_isolation(false)]
    #[verifier::rlimit(80)]
    pub fn from_str(s: &str) -> (r: Result<Point<u64>, BitcoinError>)
        ensures
            match r {
                Ok(p) => parse_point_u64(s.spec_bytes()) == Some((p.x, p.y)),
                Err(e) => {
                    &&& parse_point_u64(s.spec_bytes()) is None
                    &&& match e {
                        BitcoinError::ParseError(m) => {
                            if point_body(s.spec_bytes()) is None {
                                m@ == "Invalid point format '"@ + s@ + "', expected '(x,y)'"@
                            } else if !point_x_ok(s.spec_bytes()) {
                                m@ == "Failed to parse x coordinate"@
                            } else {
                                m@ == "Failed to parse y coordinate"@
                            }
                        },
                        _ => false,
                    }
                },
            },
    {
        let bs = s.as_bytes();
        let n = bs.len();
        let (lo, hi) = trim_range(bs, 0, n);
        proof {
            assert(bs@.subrange(0, n as int) =~= bs@);
            assert(trim(bs@) == bs@.subrange(lo as int, hi as int));
        }
        if hi - lo < 2 || bs[lo] != 0x28 || bs[hi - 1] != 0x29 {
            proof {
                let t = trim(bs@);
                assert(t.len() == hi - lo);
                if t.len() >= 2 {
                    assert(t[0] == bs@[lo as int]);
                    assert(t.last() == bs@[hi - 1]);
                }
            }
            return Err(point_format_err(s));
        }
        let ghost t = trim(bs@);
        let ghost inner = t.subrange(1, t.len() - 1);
        proof {
            assert(inner =~= bs@.subrange(lo + 1, hi - 1));
        }
        let mut ci: usize = lo + 1;
        while ci < hi - 1 && bs[ci] != 0x2C
            invariant
                lo + 1 <= ci <= hi - 1,
                forall|t2: int| lo + 1 <= t2 < ci ==> #[trigger] bs@[t2] != 0x2C,
            decreases hi - ci,
        {
            ci = ci + 1;
        }
        if ci >= hi - 1 {
            proof {
                assert forall|t2: int| 0 <= t2 < inner.len() implies #[trigger] inner[t2]
                    != 0x2C by {
                    assert(inner[t2] == bs@[lo + 1 + t2]);
                }
                lemma_find_comma_none(inner);
            }
            return Err(point_format_err(s));
        }
        proof {
            assert forall|t2: int| 0 <= t2 < ci - (lo + 1) implies #[trigger] inner[t2]
                != 0x2C by {
                assert(inner[t2] == bs@[lo + 1 + t2]);
            }
            assert(inner[ci - (lo + 1)] == bs@[ci as int]);
            lemma_find_comma_at(inner, ci - (lo + 1));
        }
        let ghost c = ci - (lo + 1);
        let (xl, xh) = trim_range(bs, lo + 1, ci);
        proof {
            assert(inner.take(c) =~= bs@.subrange(lo + 1, ci as int));
            assert(trim(inner.take(c)) == bs@.subrange(xl as int, xh as int));
        }
        let (yl, yh) = trim_range(bs, ci + 1, hi - 1);
        proof {
            assert(inner.skip(c + 1) =~= bs@.subrange(ci + 1, hi - 1));
            assert(trim(inner.skip(c + 1)) == bs@.subrange(yl as int, yh as int));
        }
        let xs = slice_subrange(bs, xl, xh);
        let x = match parse_u64_bytes(xs) {
            Some(v) => v,
            None => {
                return Err(BitcoinError::ParseError("Failed to parse x coordinate".to_owned()));
            },
        };
        let ys = slice_subrange(bs, yl, yh);
        let y = match parse_u64_bytes(ys) {
            Some(v) => v,
            None => {
                return Err(BitcoinError::ParseError("Failed to parse y coordinate".to_owned()));
            },
        };
        Ok(Point { x, y })
    }
}

impl core::str::FromStr for Point<u64> {
    type Err = BitcoinError;

    /// The std-trait entry to the verified parser; it carries no contract
    /// of its own and only forwards.
    fn from_str(s: &str) -> Result<Point<u64>, BitcoinError> {
        Point::<u64>::from_str(s)
    }
}

} // verus!
