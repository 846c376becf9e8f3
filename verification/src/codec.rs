//! Numbers as little-endian bytes.

use vstd::prelude::*;

verus! {

/// The lowest `width` bytes of a number, the lowest first.
pub open spec fn le_bytes(n: nat, width: nat) -> Seq<u8>
    decreases width,
{
    if width == 0 {
        Seq::empty()
    } else {
        seq![(n % 256) as u8] + le_bytes(n / 256, (width - 1) as nat)
    }
}

/// The number whose bytes these are, the lowest first.
pub open spec fn le_value(s: Seq<u8>) -> nat
    decreases s.len(),
{
    if s.len() == 0 {
        0
    } else {
        s[0] as nat + 256 * le_value(s.drop_first())
    }
}

/// 256 to the power of `w`.
pub open spec fn byte_range(w: nat) -> nat
    decreases w,
{
    if w == 0 {
        1
    } else {
        256 * byte_range((w - 1) as nat)
    }
}

pub proof fn lemma_le_len(n: nat, width: nat)
    ensures
        le_bytes(n, width).len() == width,
    decreases width,
{
    if width > 0 {
        lemma_le_len(n / 256, (width - 1) as nat);
    }
}

pub proof fn lemma_le_bound(s: Seq<u8>)
    ensures
        le_value(s) < byte_range(s.len()),
    decreases s.len(),
{
    if s.len() > 0 {
        lemma_le_bound(s.drop_first());
    }
}

/// Reading the bytes of a number that fits gives the number back.
pub proof fn law_le_round_trip(n: nat, width: nat)
    requires
        n < byte_range(width),
    ensures
        le_value(le_bytes(n, width)) == n,
    decreases width,
{
    if width > 0 {
        let t = le_bytes(n / 256, (width - 1) as nat);
        lemma_le_len(n / 256, (width - 1) as nat);
        assert(le_bytes(n, width).drop_first() =~= t);
        assert(n / 256 < byte_range((width - 1) as nat)) by (nonlinear_arith)
            requires
                n < 256 * byte_range((width - 1) as nat),
        ;
        law_le_round_trip(n / 256, (width - 1) as nat);
    }
}

/// Zero bytes stand for zero.
pub proof fn lemma_le_zero(s: Seq<u8>)
    requires
        forall|i: int| 0 <= i < s.len() ==> s[i] == 0,
    ensures
        le_value(s) == 0,
    decreases s.len(),
{
    if s.len() > 0 {
        assert(forall|i: int| 0 <= i < s.drop_first().len() ==> s.drop_first()[i] == s[i + 1]);
        lemma_le_zero(s.drop_first());
    }
}

pub proof fn lemma_byte_ranges()
    ensures
        byte_range(4) == 0x1_0000_0000,
        byte_range(8) == 0x1_0000_0000_0000_0000,
{
    reveal_with_fuel(byte_range, 9);
}

proof fn lemma_le_push(n: nat, width: nat)
    ensures
        le_bytes(n, width + 1) == le_bytes(n, width).push((n / byte_range(width) % 256) as u8),
    decreases width,
{
    if width == 0 {
        reveal_with_fuel(le_bytes, 2);
        assert(n / 1 == n);
        assert(le_bytes(n, 1) =~= seq![(n % 256) as u8]);
        assert(le_bytes(n, 0).push((n % 256) as u8) =~= seq![(n % 256) as u8]);
    } else {
        let w = (width - 1) as nat;
        lemma_le_push(n / 256, w);
        lemma_byte_range_pos(w);
        vstd::arithmetic::div_mod::lemma_div_denominator(n as int, 256, byte_range(w) as int);
        assert(le_bytes(n, width + 1) =~= seq![(n % 256) as u8] + le_bytes(n / 256, width));
        assert(le_bytes(n, width).push((n / byte_range(width) % 256) as u8) =~= seq![(n % 256) as u8] + le_bytes(
            n / 256,
            w,
        ).push((n / 256 / byte_range(w) % 256) as u8));
    }
}

proof fn lemma_byte_range_pos(w: nat)
    ensures
        byte_range(w) > 0,
    decreases w,
{
    if w > 0 {
        lemma_byte_range_pos((w - 1) as nat);
    }
}

/// Appends the lowest `width` bytes of a number, the lowest first.
pub fn put_le(out: &mut Vec<u8>, n: u64, width: usize)
    ensures
        final(out)@ == old(out)@ + le_bytes(n as nat, width as nat),
{
    let mut rest: u64 = n;
    let mut i: usize = 0;
    proof {
        assert(byte_range(0) == 1);
        assert(n as nat / 1 == n);
        assert(out@ =~= old(out)@ + le_bytes(n as nat, 0));
    }
    while i < width
        invariant
            i <= width,
            rest == n as nat / byte_range(i as nat),
            out@ == old(out)@ + le_bytes(n as nat, i as nat),
        decreases width - i,
    {
        let b = (rest % 256) as u8;
        proof {
            lemma_le_push(n as nat, i as nat);
            lemma_byte_range_pos(i as nat);
            vstd::arithmetic::div_mod::lemma_div_denominator(n as int, byte_range(i as nat) as int, 256);
            assert(byte_range(i as nat) * 256 == byte_range(i as nat + 1));
        }
        out.push(b);
        rest = rest / 256;
        i = i + 1;
        assert(out@ =~= old(out)@ + le_bytes(n as nat, i as nat));
    }
}

/// The number that stands in `width` bytes at place `at`, the lowest first.
pub fn get_le(s: &[u8], at: usize, width: usize) -> (r: u64)
    requires
        at + width <= s@.len(),
        width <= 8,
    ensures
        r == le_value(s@.subrange(at as int, at + width)),
        r < byte_range(width as nat),
{
    let total: usize = s.len();
    let mut r: u64 = 0;
    let mut i: usize = width;
    while i > 0
        invariant
            i <= width <= 8,
            at + width <= total,
            total == s@.len(),
            r == le_value(s@.subrange(at + i, at + width)),
        decreases i,
    {
        let ghost t = s@.subrange(at + i, at + width);
        let ghost u = s@.subrange(at + i - 1, at + width);
        proof {
            assert(u.drop_first() =~= t);
            lemma_le_bound(t);
            lemma_le_bound(u);
            reveal_with_fuel(byte_range, 9);
            assert(byte_range(u.len()) <= 0x1_0000_0000_0000_0000);
        }
        r = s[at + (i - 1)] as u64 + 256 * r;
        i = i - 1;
    }
    proof {
        lemma_le_bound(s@.subrange(at as int, at + width));
    }
    r
}

/// The lowest byte of a number stands first, and the rest of its bytes behind
/// it; a byte counts 256 times as much as the one before it.
pub proof fn law_le_lowest_first(n: nat, width: nat, s: Seq<u8>, x: u8)
    requires
        width > 0,
    ensures
        le_bytes(n, width).len() == width,
        le_bytes(n, width)[0] == n % 256,
        le_bytes(n, width).drop_first() == le_bytes(n / 256, (width - 1) as nat),
        le_value(seq![x] + s) == x + 256 * le_value(s),
        le_value(Seq::empty()) == 0,
{
    lemma_le_len(n, width);
    assert(le_bytes(n, width).drop_first() =~= le_bytes(n / 256, (width - 1) as nat));
    assert((seq![x] + s).drop_first() =~= s);
}

} // verus!
