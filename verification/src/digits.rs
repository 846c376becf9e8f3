//! Base64: bytes in groups of three as four digits of six bits.

use vstd::prelude::*;

verus! {

/// The digit for a number below 64, in the alphabet that ends in `d62` and
/// `d63`.
pub open spec fn b64_digit(v: int, d62: u8, d63: u8) -> u8 {
    if v < 26 {
        (0x41 + v) as u8
    } else if v < 52 {
        (0x61 + v - 26) as u8
    } else if v < 62 {
        (0x30 + v - 52) as u8
    } else if v == 62 {
        d62
    } else {
        d63
    }
}

/// The digits of bytes: four for three bytes, then three for two that are left
/// or two for one.
pub open spec fn b64_digits(b: Seq<u8>, d62: u8, d63: u8) -> Seq<u8>
    decreases b.len(),
{
    if b.len() == 0 {
        Seq::empty()
    } else if b.len() == 1 {
        seq![b64_digit(b[0] as int / 4, d62, d63), b64_digit(b[0] % 4 * 16, d62, d63)]
    } else if b.len() == 2 {
        seq![
            b64_digit(b[0] as int / 4, d62, d63),
            b64_digit(b[0] % 4 * 16 + b[1] / 16, d62, d63),
            b64_digit(b[1] % 16 * 4, d62, d63),
        ]
    } else {
        seq![
            b64_digit(b[0] as int / 4, d62, d63),
            b64_digit(b[0] % 4 * 16 + b[1] / 16, d62, d63),
            b64_digit(b[1] % 16 * 4 + b[2] / 64, d62, d63),
            b64_digit(b[2] as int % 64, d62, d63),
        ] + b64_digits(b.skip(3), d62, d63)
    }
}

/// The URL-safe base64 text of bytes, without padding, as ASCII.
#[verifier::opaque]
pub open spec fn b64url_of(b: Seq<u8>) -> Seq<u8> {
    b64_digits(b, 0x2d, 0x5f)
}

/// The bytes whose URL-safe base64 text is `text`, if there are any.
pub open spec fn b64url_bytes(text: Seq<u8>) -> Option<Seq<u8>> {
    if exists|b: Seq<u8>| #[trigger] b64url_of(b) == text {
        Some(choose|b: Seq<u8>| #[trigger] b64url_of(b) == text)
    } else {
        None
    }
}

/// The standard base64 text of bytes, filled up with `=` to groups of four.
#[verifier::opaque]
pub open spec fn b64_of(b: Seq<u8>) -> Seq<char> {
    b64_digits(b, 0x2b, 0x2f).map_values(|d: u8| d as char) + Seq::new((2 * b.len() % 3) as nat, |i: int| '=')
}

/// A letter of the URL-safe base64 alphabet.
pub open spec fn is_b64url_byte(b: u8) -> bool {
    ||| 0x41 <= b <= 0x5a
    ||| 0x61 <= b <= 0x7a
    ||| 0x30 <= b <= 0x39
    ||| b == 0x2d
    ||| b == 0x5f
}

proof fn lemma_digit(v: int, w: int)
    requires
        0 <= v < 64,
        0 <= w < 64,
        b64_digit(v, 0x2d, 0x5f) == b64_digit(w, 0x2d, 0x5f),
    ensures
        v == w,
{
}

proof fn lemma_is_letter(v: int)
    requires
        0 <= v < 64,
    ensures
        is_b64url_byte(b64_digit(v, 0x2d, 0x5f)),
{
}

proof fn lemma_count(b: Seq<u8>)
    ensures
        b.len() == 0 ==> b64_digits(b, 0x2d, 0x5f).len() == 0,
        b.len() == 1 ==> b64_digits(b, 0x2d, 0x5f).len() == 2,
        b.len() == 2 ==> b64_digits(b, 0x2d, 0x5f).len() == 3,
        b.len() >= 3 ==> b64_digits(b, 0x2d, 0x5f).len() >= 4,
{
    let d = b64_digits(b, 0x2d, 0x5f);
    if b.len() >= 3 {
        let rest = b64_digits(b.skip(3), 0x2d, 0x5f);
        assert(d.skip(4) =~= rest);
    }
}

proof fn lemma_letters(b: Seq<u8>)
    ensures
        forall|i: int|
            0 <= i < b64_digits(b, 0x2d, 0x5f).len() ==> is_b64url_byte(#[trigger] b64_digits(b, 0x2d, 0x5f)[i]),
    decreases b.len(),
{
    let d = b64_digits(b, 0x2d, 0x5f);
    lemma_count(b);
    if b.len() >= 1 {
        lemma_is_letter(b[0] as int / 4);
        lemma_is_letter(b[0] as int % 4 * 16);
    }
    if b.len() >= 2 {
        lemma_is_letter(b[0] as int % 4 * 16 + b[1] as int / 16);
        lemma_is_letter(b[1] as int % 16 * 4);
    }
    if b.len() >= 3 {
        lemma_is_letter(b[1] as int % 16 * 4 + b[2] as int / 64);
        lemma_is_letter(b[2] as int % 64);
        lemma_letters(b.skip(3));
        let rest = b64_digits(b.skip(3), 0x2d, 0x5f);
        assert forall|i: int| 0 <= i < d.len() implies is_b64url_byte(#[trigger] d[i]) by {
            if i >= 4 {
                assert(d[i] == rest[i - 4]);
            }
        }
    }
}

proof fn lemma_group(b: Seq<u8>)
    requires
        b.len() >= 3,
    ensures
        ({
            let d = b64_digits(b, 0x2d, 0x5f);
            &&& d[0] == b64_digit(b[0] as int / 4, 0x2d, 0x5f)
            &&& d[1] == b64_digit(b[0] % 4 * 16 + b[1] / 16, 0x2d, 0x5f)
            &&& d[2] == b64_digit(b[1] % 16 * 4 + b[2] / 64, 0x2d, 0x5f)
            &&& d[3] == b64_digit(b[2] as int % 64, 0x2d, 0x5f)
            &&& d.skip(4) == b64_digits(b.skip(3), 0x2d, 0x5f)
        }),
{
    let group = seq![
        b64_digit(b[0] as int / 4, 0x2d, 0x5f),
        b64_digit(b[0] % 4 * 16 + b[1] / 16, 0x2d, 0x5f),
        b64_digit(b[1] % 16 * 4 + b[2] / 64, 0x2d, 0x5f),
        b64_digit(b[2] as int % 64, 0x2d, 0x5f),
    ];
    let d = b64_digits(b, 0x2d, 0x5f);
    assert(group.len() == 4);
    assert(d == group + b64_digits(b.skip(3), 0x2d, 0x5f));
    assert(d[0] == group[0] && d[1] == group[1] && d[2] == group[2] && d[3] == group[3]);
    assert(d.skip(4) =~= b64_digits(b.skip(3), 0x2d, 0x5f));
}

proof fn lemma_same_bytes(a: Seq<u8>, b: Seq<u8>)
    requires
        b64_digits(a, 0x2d, 0x5f) == b64_digits(b, 0x2d, 0x5f),
    ensures
        a == b,
    decreases a.len(),
{
    let x = b64_digits(a, 0x2d, 0x5f);
    let y = b64_digits(b, 0x2d, 0x5f);
    lemma_count(a);
    lemma_count(b);
    if a.len() == 1 {
        assert(b.len() == 1);
        assert(x[0] == y[0] && x[1] == y[1]);
        lemma_digit(a[0] as int / 4, b[0] as int / 4);
        lemma_digit(a[0] as int % 4 * 16, b[0] as int % 4 * 16);
    } else if a.len() == 2 {
        assert(b.len() == 2);
        assert(x[0] == y[0] && x[1] == y[1] && x[2] == y[2]);
        lemma_digit(a[0] as int / 4, b[0] as int / 4);
        lemma_digit(a[0] as int % 4 * 16 + a[1] as int / 16, b[0] as int % 4 * 16 + b[1] as int / 16);
        lemma_digit(a[1] as int % 16 * 4, b[1] as int % 16 * 4);
    } else if a.len() >= 3 {
        assert(b.len() >= 3);
        lemma_group(a);
        lemma_group(b);
        lemma_digit(a[0] as int / 4, b[0] as int / 4);
        lemma_digit(a[0] as int % 4 * 16 + a[1] as int / 16, b[0] as int % 4 * 16 + b[1] as int / 16);
        lemma_digit(a[1] as int % 16 * 4 + a[2] as int / 64, b[1] as int % 16 * 4 + b[2] as int / 64);
        lemma_digit(a[2] as int % 64, b[2] as int % 64);
        lemma_same_bytes(a.skip(3), b.skip(3));
        assert forall|i: int| 3 <= i < a.len() implies a[i] == b[i] by {
            assert(a.skip(3)[i - 3] == b.skip(3)[i - 3]);
        }
        assert(a.len() == a.skip(3).len() + 3 && b.len() == b.skip(3).len() + 3);
    }
    assert(a =~= b);
}

/// URL-safe base64 text is made of the letters of its alphabet and stands for
/// the bytes that it was made from, and for no others.
pub proof fn law_b64url_reads_back(b: Seq<u8>)
    ensures
        b64url_bytes(b64url_of(b)) == Some(b),
        forall|i: int| 0 <= i < b64url_of(b).len() ==> is_b64url_byte(#[trigger] b64url_of(b)[i]),
{
    reveal(b64url_of);
    lemma_letters(b);
    let c = choose|c: Seq<u8>| #[trigger] b64url_of(c) == b64url_of(b);
    assert(b64url_of(c) == b64url_of(b));
    lemma_same_bytes(c, b);
}

/// The digits of base64: the capital letters stand for 0 to 25, the small ones
/// for the next 26 numbers, then the ten digits, then `-` and `_`. Three bytes
/// make four digits whose numbers, six bits each, are their bits in order; two
/// bytes that are left over make three digits, and one makes two.
pub proof fn law_base64_digits(x: u8, y: u8, z: u8, rest: Seq<u8>, v: int)
    ensures
        0 <= v < 26 ==> b64_digit(v, 0x2d, 0x5f) == 0x41 + v,
        26 <= v < 52 ==> b64_digit(v, 0x2d, 0x5f) == 0x61 + v - 26,
        52 <= v < 62 ==> b64_digit(v, 0x2d, 0x5f) == 0x30 + v - 52,
        b64_digit(62, 0x2d, 0x5f) == 0x2d,
        b64_digit(63, 0x2d, 0x5f) == 0x5f,
        b64url_of(Seq::empty()) == Seq::<u8>::empty(),
        exists|a: int, b: int, c: int, d: int|
            0 <= a < 64 && 0 <= b < 64 && 0 <= c < 64 && 0 <= d < 64 && 262144 * a + 4096 * b + 64 * c + d == 65536 * x + 256
                * y + z && b64url_of(seq![x, y, z] + rest) == #[trigger] digits_of_four(a, b, c, d) + b64url_of(rest),
        exists|a: int, b: int, c: int|
            0 <= a < 64 && 0 <= b < 64 && 0 <= c < 64 && 4096 * a + 64 * b + c == (256 * x + y) * 4 && b64url_of(seq![x, y])
                == #[trigger] digits_of_four(a, b, c, 0).take(3),
        exists|a: int, b: int|
            0 <= a < 64 && 0 <= b < 64 && 64 * a + b == x * 16 && b64url_of(seq![x]) == #[trigger] digits_of_four(
                a,
                b,
                0,
                0,
            ).take(2),
{
    reveal(b64url_of);
    let s = seq![x, y, z] + rest;
    assert(s[0] == x && s[1] == y && s[2] == z);
    assert(s.subrange(3, s.len() as int) =~= rest);
    assert(s.skip(3) =~= rest);
    let a = x as int / 4;
    let b = x as int % 4 * 16 + y as int / 16;
    let c = y as int % 16 * 4 + z as int / 64;
    let d = z as int % 64;
    assert(b64url_of(s) =~= digits_of_four(a, b, c, d) + b64url_of(rest));
    assert(262144 * a + 4096 * b + 64 * c + d == 65536 * x + 256 * y + z);
    let c2 = y as int % 16 * 4;
    assert(b64url_of(seq![x, y]) =~= digits_of_four(a, b, c2, 0).take(3));
    assert(4096 * a + 64 * b + c2 == (256 * x + y) * 4);
    let b2 = x as int % 4 * 16;
    assert(b64url_of(seq![x]) =~= digits_of_four(a, b2, 0, 0).take(2));
    assert(64 * a + b2 == x * 16);
}

/// The digits for four numbers below 64.
pub open spec fn digits_of_four(a: int, b: int, c: int, d: int) -> Seq<u8> {
    seq![b64_digit(a, 0x2d, 0x5f), b64_digit(b, 0x2d, 0x5f), b64_digit(c, 0x2d, 0x5f), b64_digit(d, 0x2d, 0x5f)]
}

/// The standard text has the same digits with `+` and `/` in place of the last
/// two, and is filled up to a multiple of four with at most two `=`.
pub proof fn law_base64_is_filled_up(b: Seq<u8>)
    ensures
        ({
            let d = b64_digits(b, 0x2b, 0x2f);
            let t = b64_of(b);
            &&& t.len() % 4 == 0
            &&& d.len() <= t.len() <= d.len() + 2
            &&& forall|i: int| 0 <= i < d.len() ==> t[i] as u8 == #[trigger] d[i]
            &&& forall|i: int| d.len() <= i < t.len() ==> #[trigger] t[i] == '='
        }),
{
    reveal(b64_of);
    let d = b64_digits(b, 0x2b, 0x2f);
    let t = b64_of(b);
    lemma_filled_len(b);
    assert forall|i: int| 0 <= i < d.len() implies t[i] as u8 == #[trigger] d[i] by {
        assert(t[i] == d[i] as char);
        let x = d[i];
        assert((x as char) as u8 == x);
    }
}

proof fn lemma_filled_len(b: Seq<u8>)
    ensures
        (b64_digits(b, 0x2b, 0x2f).len() + 2 * b.len() % 3) % 4 == 0,
    decreases b.len(),
{
    if b.len() >= 3 {
        let t = b.subrange(3, b.len() as int);
        lemma_filled_len(t);
    }
}

} // verus!
