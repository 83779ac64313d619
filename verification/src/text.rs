//! Verified text utilities shared by the coordinate and CLI parsers:
//! string equality, unsigned decimal parsing, and concatenation for error
//! messages.

use vstd::prelude::*;
use vstd::slice::slice_subrange;
use vstd::string::StringSliceAdditionalSpecFns;
use vstd::utf8::encode_utf8;

verus! {

broadcast use vstd::utf8::encode_utf8_decode_utf8;

/// Is `b` an ASCII decimal digit?
pub open spec fn is_digit(b: u8) -> bool {
    0x30 <= b <= 0x39
}

/// Every byte is an ASCII digit and there is at least one.
pub open spec fn is_dec_digits(bs: Seq<u8>) -> bool {
    bs.len() >= 1 && forall|i: int| 0 <= i < bs.len() ==> is_digit(#[trigger] bs[i])
}

/// The number the ASCII digits spell, most significant first.
pub open spec fn dec_value(bs: Seq<u8>) -> nat
    decreases bs.len(),
{
    if bs.len() == 0 {
        0
    } else {
        (dec_value(bs.drop_last()) * 10 + (bs.last() - 0x30)) as nat
    }
}

/// The digits of an unsigned number text: a leading `+` sign, if there is
/// one, is stripped; everything else is left for the digit check.
pub open spec fn num_digits(bs: Seq<u8>) -> Seq<u8> {
    if bs.len() >= 1 && bs[0] == 0x2B {
        bs.drop_first()
    } else {
        bs
    }
}

/// Does `bs` spell an unsigned decimal number the way std's `u64` parser
/// reads one: an optional leading `+`, then one or more ASCII digits?
pub open spec fn is_u64_text(bs: Seq<u8>) -> bool {
    is_dec_digits(num_digits(bs))
}

/// The value an unsigned number text spells.
pub open spec fn u64_text_value(bs: Seq<u8>) -> nat {
    dec_value(num_digits(bs))
}

/// `is_u64_text` over the UTF-8 bytes of a character sequence.
pub open spec fn chars_u64_text(cs: Seq<char>) -> bool {
    is_u64_text(encode_utf8(cs))
}

/// `u64_text_value` over the UTF-8 bytes of a character sequence.
pub open spec fn chars_u64_value(cs: Seq<char>) -> nat {
    u64_text_value(encode_utf8(cs))
}

/// A digit string's value only grows as digits are appended to it.
pub proof fn lemma_dec_value_prefix(bs: Seq<u8>, k: int)
    requires
        0 <= k <= bs.len(),
        forall|i: int| 0 <= i < bs.len() ==> is_digit(#[trigger] bs[i]),
    ensures
        dec_value(bs.take(k)) <= dec_value(bs),
    decreases bs.len() - k,
{
    if k == bs.len() {
        assert(bs.take(k) =~= bs);
    } else {
        assert(bs.take(k + 1).drop_last() =~= bs.take(k));
        assert(bs.take(k + 1).last() == bs[k]);
        assert(dec_value(bs.take(k + 1)) == (dec_value(bs.take(k)) * 10 + (bs[k]
            - 0x30)) as nat);
        lemma_dec_value_prefix(bs, k + 1);
    }
}

/// Byte-for-byte equality of two slices.
pub fn bytes_eq(a: &[u8], b: &[u8]) -> (r: bool)
    ensures
        r == (a@ == b@),
{
    if a.len() != b.len() {
        return false;
    }
    let mut i: usize = 0;
    while i < a.len()
        invariant
            a@.len() == b@.len(),
            i <= a@.len(),
            forall|t: int| 0 <= t < i ==> a@[t] == b@[t],
        decreases a@.len() - i,
    {
        if a[i] != b[i] {
            return false;
        }
        i = i + 1;
    }
    proof {
        assert(a@ =~= b@);
    }
    true
}

/// Equality of two strings, decided by their bytes; UTF-8 decoding is
/// injective, so byte equality is character equality.
pub fn str_eq(a: &str, b: &str) -> (r: bool)
    ensures
        r == (a@ == b@),
{
    let r = bytes_eq(a.as_bytes(), b.as_bytes());
    proof {
        if a.spec_bytes() == b.spec_bytes() {
            assert(vstd::utf8::decode_utf8(encode_utf8(a@)) == a@);
            assert(vstd::utf8::decode_utf8(encode_utf8(b@)) == b@);
        }
    }
    r
}

/// Parses a slice of ASCII digit bytes: `Some` exactly when the slice is
/// one or more digits whose value fits 64 bits.
fn parse_digits(bs: &[u8]) -> (r: Option<u64>)
    ensures
        match r {
            Some(v) => is_dec_digits(bs@) && dec_value(bs@) == v,
            None => !is_dec_digits(bs@) || dec_value(bs@) > u64::MAX,
        },
{
    if bs.len() == 0 {
        return None;
    }
    let mut acc: u64 = 0;
    let mut i: usize = 0;
    while i < bs.len()
        invariant
            i <= bs@.len(),
            bs@.len() >= 1,
            forall|t: int| 0 <= t < i ==> is_digit(#[trigger] bs@[t]),
            acc == dec_value(bs@.take(i as int)),
        decreases bs@.len() - i,
    {
        let b = bs[i];
        if b < 0x30 || b > 0x39 {
            return None;
        }
        let d = (b - 0x30) as u64;
        proof {
            assert(bs@.take(i as int + 1).drop_last() =~= bs@.take(i as int));
            assert(bs@.take(i as int + 1).last() == bs@[i as int]);
        }
        if acc > (u64::MAX - d) / 10 {
            proof {
                let q = (u64::MAX - d) / 10 as int;
                assert(q * 10 + 10 + d > u64::MAX);
                assert(dec_value(bs@.take(i as int + 1)) == acc * 10 + d);
                assert(acc * 10 >= (q + 1) * 10);
                if is_dec_digits(bs@) {
                    lemma_dec_value_prefix(bs@, i as int + 1);
                }
            }
            return None;
        }
        proof {
            let q = (u64::MAX - d) / 10 as int;
            assert(q * 10 <= u64::MAX - d);
            assert(acc * 10 <= q * 10);
        }
        acc = acc * 10 + d;
        i = i + 1;
    }
    proof {
        assert(bs@.take(bs@.len() as int) =~= bs@);
    }
    Some(acc)
}

/// Parses a slice of bytes as an unsigned 64-bit decimal number in std's
/// grammar: an optional leading `+`, then one or more ASCII digits, with a
/// value that fits.
pub fn parse_u64_bytes(bs: &[u8]) -> (r: Option<u64>)
    ensures
        match r {
            Some(v) => is_u64_text(bs@) && u64_text_value(bs@) == v,
            None => !is_u64_text(bs@) || u64_text_value(bs@) > u64::MAX,
        },
{
    if bs.len() >= 1 && bs[0] == 0x2B {
        let digits = slice_subrange(bs, 1, bs.len());
        proof {
            assert(num_digits(bs@) =~= digits@);
        }
        parse_digits(digits)
    } else {
        parse_digits(bs)
    }
}

/// Parses a string as an unsigned 64-bit decimal number in std's grammar:
/// an optional leading `+`, then one or more ASCII digits, with a value
/// that fits.
pub fn parse_u64(s: &str) -> (r: Option<u64>)
    ensures
        match r {
            Some(v) => chars_u64_text(s@) && chars_u64_value(s@) == v,
            None => !chars_u64_text(s@) || chars_u64_value(s@) > u64::MAX,
        },
{
    parse_u64_bytes(s.as_bytes())
}

/// Relies on alloc's `String::push_str`: it appends the second string's
/// characters after the first's, so the result reads as `a` then `b`.
#[verifier::external_body]
pub(crate) fn str_concat(a: &str, b: &str) -> (r: String)
    ensures
        r@ == a@ + b@,
{
    let mut r = a.to_owned();
    r.push_str(b);
    r
}

} // verus!
