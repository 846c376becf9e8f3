//! Decimal numbers in text.

use vstd::prelude::*;

verus! {

/// The byte is an ASCII digit.
pub open spec fn is_digit(b: u8) -> bool {
    0x30 <= b <= 0x39
}

/// Every byte is a digit, and there is one.
pub open spec fn all_digits(s: Seq<u8>) -> bool {
    s.len() > 0 && forall|i: int| 0 <= i < s.len() ==> is_digit(#[trigger] s[i])
}

/// The number that a string of digits spells out.
pub open spec fn digits_value(s: Seq<u8>) -> nat
    decreases s.len(),
{
    if s.len() == 0 {
        0
    } else {
        digits_value(s.drop_last()) * 10 + (s.last() - 0x30) as nat
    }
}

/// The digits of a number with an optional sign.
pub open spec fn unsigned_part(s: Seq<u8>, minus: bool) -> Seq<u8> {
    if s.len() > 0 && (s[0] == 0x2b || minus && s[0] == 0x2d) {
        s.subrange(1, s.len() as int)
    } else {
        s
    }
}

/// The 64-bit unsigned number that `s` spells out: digits, perhaps behind a
/// plus sign.
pub open spec fn decimal_u64(s: Seq<u8>) -> Option<int> {
    let d = unsigned_part(s, false);
    if all_digits(d) && digits_value(d) <= u64::MAX {
        Some(digits_value(d) as int)
    } else {
        None
    }
}

/// The 64-bit signed number that `s` spells out: digits, perhaps behind a
/// sign.
pub open spec fn decimal_i64(s: Seq<u8>) -> Option<int> {
    let d = unsigned_part(s, true);
    let v = if s.len() > 0 && s[0] == 0x2d { -(digits_value(d) as int) } else { digits_value(d) as int };
    if all_digits(d) && i64::MIN <= v <= i64::MAX {
        Some(v)
    } else {
        None
    }
}

proof fn lemma_digits_grow(s: Seq<u8>, i: int)
    requires
        all_digits(s),
        0 <= i <= s.len(),
    ensures
        digits_value(s.take(i)) <= digits_value(s),
    decreases s.len() - i,
{
    if i < s.len() {
        lemma_digits_grow(s, i + 1);
        assert(s.take(i + 1).drop_last() =~= s.take(i));
        assert(is_digit(s[i]));
    } else {
        assert(s.take(i) =~= s);
    }
}

/// The number that digits spell out, when it is at most `max`.
fn parse_digits(s: &[u8], max: u64) -> (r: Option<u64>)
    ensures
        r == (if all_digits(s@) && digits_value(s@) <= max { Some(digits_value(s@) as u64) } else { None }),
{
    if s.len() == 0 {
        return None;
    }
    let mut v: u64 = 0;
    let mut i: usize = 0;
    while i < s.len()
        invariant
            i <= s.len(),
            forall|j: int| 0 <= j < i ==> is_digit(#[trigger] s@[j]),
            v == digits_value(s@.take(i as int)),
            v <= max,
        decreases s.len() - i,
    {
        let b = s[i];
        if b < 0x30 || b > 0x39 {
            assert(!is_digit(s@[i as int]));
            return None;
        }
        let ghost next = s@.take(i + 1);
        assert(next.drop_last() =~= s@.take(i as int));
        let wide: u128 = v as u128 * 10 + (b - 0x30) as u128;
        if wide > max as u128 {
            proof {
                if all_digits(s@) {
                    lemma_digits_grow(s@, i + 1);
                }
            }
            return None;
        }
        v = wide as u64;
        i = i + 1;
    }
    assert(s@.take(s@.len() as int) =~= s@);
    Some(v)
}

/// The 64-bit unsigned number that `s` spells out.
pub fn parse_u64(s: &[u8]) -> (r: Option<u64>)
    ensures
        r == (match decimal_u64(s@) {
            Some(n) => Some(n as u64),
            None => None,
        }),
{
    if s.len() > 0 && s[0] == 0x2b {
        parse_digits(vstd::slice::slice_subrange(s, 1, s.len()), u64::MAX)
    } else {
        parse_digits(s, u64::MAX)
    }
}

/// The 64-bit signed number that `s` spells out.
pub fn parse_i64(s: &[u8]) -> (r: Option<i64>)
    ensures
        r == (match decimal_i64(s@) {
            Some(n) => Some(n as i64),
            None => None,
        }),
{
    if s.len() > 0 && s[0] == 0x2d {
        match parse_digits(vstd::slice::slice_subrange(s, 1, s.len()), 0x8000_0000_0000_0000) {
            None => None,
            Some(v) => Some((-(v as i128)) as i64),
        }
    } else {
        let digits = if s.len() > 0 && s[0] == 0x2b {
            vstd::slice::slice_subrange(s, 1, s.len())
        } else {
            s
        };
        match parse_digits(digits, 0x7fff_ffff_ffff_ffff) {
            None => None,
            Some(v) => Some(v as i64),
        }
    }
}

} // verus!
