//! Decimal integers as they stand in the stored sections.
//!
//! A number is written as ASCII digits, with a leading `-` for a negative
//! `i64`. Reading accepts leading zeros; writing never produces them.

use vstd::prelude::*;

verus! {

/// The byte `-`.
pub const MINUS: u8 = 45;

/// The byte `0`.
pub const ZERO: u8 = 48;

/// Whether `b` is one of the bytes `0` to `9`.
pub open spec fn is_digit(b: u8) -> bool {
    48 <= b <= 57
}

/// Whether every byte of `s` is a decimal digit.
pub open spec fn all_digits(s: Seq<u8>) -> bool {
    forall|i: int| 0 <= i < s.len() ==> is_digit(#[trigger] s[i])
}

/// The number that the digits of `s` spell, most significant digit first.
pub open spec fn digits_value(s: Seq<u8>) -> nat
    decreases s.len(),
{
    if s.len() == 0 {
        0
    } else {
        10 * digits_value(s.drop_last()) + (s.last() - 48) as nat
    }
}

/// What a field reads as when an unsigned number is expected.
pub open spec fn decode_u64(s: Seq<u8>) -> Option<u64> {
    if s.len() > 0 && all_digits(s) && digits_value(s) <= u64::MAX {
        Some(digits_value(s) as u64)
    } else {
        None
    }
}

/// What a field reads as when a signed number is expected.
pub open spec fn decode_i64(s: Seq<u8>) -> Option<i64> {
    if s.len() > 0 && s[0] == 45 {
        let digits = s.skip(1);
        if digits.len() > 0 && all_digits(digits) && digits_value(digits) <= 0x8000_0000_0000_0000 {
            Some((-(digits_value(digits) as int)) as i64)
        } else {
            None
        }
    } else if s.len() > 0 && all_digits(s) && digits_value(s) <= i64::MAX {
        Some(digits_value(s) as i64)
    } else {
        None
    }
}

/// The digits of `n`, without leading zeros.
pub open spec fn encode_nat(n: nat) -> Seq<u8>
    decreases n,
{
    if n < 10 {
        seq![(48 + n) as u8]
    } else {
        encode_nat(n / 10).push((48 + n % 10) as u8)
    }
}

/// The written form of `x`.
pub open spec fn encode_int(x: int) -> Seq<u8> {
    if x < 0 {
        seq![45u8] + encode_nat((-x) as nat)
    } else {
        encode_nat(x as nat)
    }
}

/// The written form of a number is one or more digits that spell it.
pub proof fn lemma_encode_nat(n: nat)
    ensures
        encode_nat(n).len() >= 1,
        all_digits(encode_nat(n)),
        digits_value(encode_nat(n)) == n,
    decreases n,
{
    if n < 10 {
        let s = encode_nat(n);
        assert(s.drop_last() =~= Seq::<u8>::empty());
        assert(digits_value(s.drop_last()) == 0);
    } else {
        lemma_encode_nat(n / 10);
        let s = encode_nat(n);
        assert(s.drop_last() =~= encode_nat(n / 10));
    }
}

/// The written form of a signed number holds only digits and, in front, at
/// most one `-`.
pub proof fn lemma_encode_int_bytes(x: int)
    ensures
        encode_int(x).len() >= 1,
        forall|i: int|
            0 <= i < encode_int(x).len() ==> {
                let b = #[trigger] encode_int(x)[i];
                is_digit(b) || b == 45
            },
{
    if x < 0 {
        lemma_encode_nat((-x) as nat);
    } else {
        lemma_encode_nat(x as nat);
    }
}

/// Reading what was written for a `u64` gives the number back.
pub proof fn lemma_decode_encode_u64(n: u64)
    ensures
        decode_u64(encode_nat(n as nat)) == Some(n),
{
    lemma_encode_nat(n as nat);
}

/// Reading what was written for an `i64` gives the number back.
pub proof fn lemma_decode_encode_i64(x: i64)
    ensures
        decode_i64(encode_int(x as int)) == Some(x),
{
    if x < 0 {
        let digits = encode_nat((-x) as nat);
        lemma_encode_nat((-x) as nat);
        assert(encode_int(x as int).skip(1) =~= digits);
    } else {
        lemma_encode_nat(x as nat);
    }
}

/// A run of digits spells at least what any of its prefixes spells.
pub proof fn lemma_digits_prefix(s: Seq<u8>, k: int)
    requires
        all_digits(s),
        0 <= k <= s.len(),
    ensures
        digits_value(s.take(k)) <= digits_value(s),
    decreases s.len() - k,
{
    if k == s.len() {
        assert(s.take(k) =~= s);
    } else {
        lemma_digits_prefix(s, k + 1);
        assert(s.take(k + 1).drop_last() =~= s.take(k));
        assert(is_digit(s[k]));
    }
}

/// Reads the digits that start at `start`.
fn parse_digits(s: &[u8], start: usize) -> (out: Option<u64>)
    requires
        start <= s.len(),
    ensures
        out == decode_u64(s@.skip(start as int)),
{
    let ghost field = s@.skip(start as int);
    if start == s.len() {
        return None;
    }
    let mut value: u64 = 0;
    let mut i: usize = start;
    assert(field.take(0) =~= Seq::<u8>::empty());
    while i < s.len()
        invariant
            start <= i <= s.len(),
            field == s@.skip(start as int),
            all_digits(field.take(i - start)),
            value == digits_value(field.take(i - start)),
        decreases s.len() - i,
    {
        let b = s[i];
        let ghost k = i - start;
        assert(field[k] == b);
        if b < 48 || b > 57 {
            assert(!is_digit(field[k]));
            return None;
        }
        let digit: u64 = (b - 48) as u64;
        assert(field.take(k + 1).drop_last() =~= field.take(k));
        assert(field.take(k + 1).last() == b);
        if value > 1844674407370955161 || (value == 1844674407370955161 && digit > 5) {
            proof {
                if all_digits(field) {
                    lemma_digits_prefix(field, k + 1);
                }
            }
            return None;
        }
        value = value * 10 + digit;
        assert(all_digits(field.take(k + 1))) by {
            assert forall|j: int| 0 <= j < k + 1 implies is_digit(#[trigger] field.take(k + 1)[j]) by {
                if j < k {
                    assert(field.take(k + 1)[j] == field.take(k)[j]);
                }
            }
        }
        i += 1;
    }
    assert(field.take(s.len() - start) =~= field);
    Some(value)
}

/// Reads an unsigned number: one or more digits and nothing else.
pub fn parse_u64(s: &[u8]) -> (out: Option<u64>)
    ensures
        out == decode_u64(s@),
{
    assert(s@.skip(0) =~= s@);
    parse_digits(s, 0)
}

/// Reads a signed number: an optional `-`, then one or more digits.
pub fn parse_i64(s: &[u8]) -> (out: Option<i64>)
    ensures
        out == decode_i64(s@),
{
    if s.len() > 0 && s[0] == MINUS {
        match parse_digits(s, 1) {
            None => None,
            Some(magnitude) => {
                if magnitude > 0x8000_0000_0000_0000 {
                    None
                } else if magnitude == 0x8000_0000_0000_0000 {
                    Some(i64::MIN)
                } else {
                    Some(-(magnitude as i64))
                }
            },
        }
    } else {
        assert(s@.skip(0) =~= s@);
        match parse_digits(s, 0) {
            None => None,
            Some(magnitude) => {
                if magnitude > 0x7fff_ffff_ffff_ffff {
                    None
                } else {
                    Some(magnitude as i64)
                }
            },
        }
    }
}

/// Appends the written form of `n` to `out`.
pub fn push_u64(out: &mut Vec<u8>, n: u64)
    ensures
        final(out)@ == old(out)@ + encode_nat(n as nat),
    decreases n,
{
    if n >= 10 {
        push_u64(out, n / 10);
    }
    out.push(ZERO + (n % 10) as u8);
    assert(out@ =~= old(out)@ + encode_nat(n as nat));
}

/// Appends the written form of `x` to `out`.
pub fn push_i64(out: &mut Vec<u8>, x: i64)
    ensures
        final(out)@ == old(out)@ + encode_int(x as int),
{
    if x < 0 {
        out.push(MINUS);
        let magnitude: u64 = if x == i64::MIN {
            0x8000_0000_0000_0000
        } else {
            (-x) as u64
        };
        push_u64(out, magnitude);
        assert(out@ =~= old(out)@ + encode_int(x as int));
    } else {
        push_u64(out, x as u64);
    }
}

} // verus!
