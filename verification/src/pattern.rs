//! Glob patterns for key scans.
//!
//! `*` matches everything, `prefix*`, `*suffix` and `*part*` match keys that
//! begin with, end with or hold the text, and any other pattern matches only
//! itself. Apart from `*`, a pattern matches only keys that are UTF-8.

use vstd::prelude::*;

use crate::bytes::{bytes_eq, has_prefix, starts_with};

verus! {

/// The bytes are well-formed UTF-8: what `std::str::from_utf8` accepts.
#[verifier::external_body]
fn is_utf8(b: &[u8]) -> (r: bool)
    ensures
        r == vstd::utf8::valid_utf8(b@),
{
    std::str::from_utf8(b).is_ok()
}

/// `p` is how `s` ends.
pub open spec fn has_suffix(s: Seq<u8>, p: Seq<u8>) -> bool {
    p.len() <= s.len() && s.subrange(s.len() - p.len(), s.len() as int) == p
}

/// `p` stands in `s` from place `i` on.
pub open spec fn stands_at(s: Seq<u8>, p: Seq<u8>, i: int) -> bool {
    0 <= i <= s.len() - p.len() && s.subrange(i, i + p.len()) == p
}

/// `p` stands somewhere in `s`.
pub open spec fn has_part(s: Seq<u8>, p: Seq<u8>) -> bool {
    exists|i: int| stands_at(s, p, i)
}

/// A key matches a pattern, given by its bytes; no pattern matches all keys.
pub open spec fn key_matches(key: Seq<u8>, pattern: Option<Seq<u8>>) -> bool {
    match pattern {
        None => true,
        Some(p) => {
            let n = p.len() as int;
            ||| n == 0
            ||| p == seq![0x2au8]
            ||| vstd::utf8::valid_utf8(key) && if p[0] == 0x2a && p[n - 1] == 0x2a {
                has_part(key, p.subrange(1, n - 1))
            } else if p[0] == 0x2a {
                has_suffix(key, p.subrange(1, n))
            } else if p[n - 1] == 0x2a {
                has_prefix(key, p.subrange(0, n - 1))
            } else {
                key == p
            }
        },
    }
}

/// The bytes of a pattern.
pub open spec fn pattern_bytes(pattern: Option<&str>) -> Option<Seq<u8>> {
    match pattern {
        None => None,
        Some(p) => Some(vstd::utf8::encode_utf8(p@)),
    }
}

fn contains_part(s: &[u8], p: &[u8]) -> (r: bool)
    ensures
        r == has_part(s@, p@),
{
    if p.len() > s.len() {
        return false;
    }
    if p.len() == 0 {
        assert(s@.subrange(0, 0) =~= p@);
        assert(stands_at(s@, p@, 0));
        return true;
    }
    let mut i: usize = 0;
    while i <= s.len() - p.len()
        invariant
            0 < p.len() <= s.len(),
            i <= s.len() - p.len() + 1,
            forall|j: int| 0 <= j < i ==> !stands_at(s@, p@, j),
        decreases s.len() - p.len() + 1 - i,
    {
        if bytes_eq(vstd::slice::slice_subrange(s, i, i + p.len()), p) {
            assert(stands_at(s@, p@, i as int));
            return true;
        }
        i = i + 1;
    }
    false
}

/// Whether a key matches a pattern.
pub fn matches_pattern(key: &[u8], pattern: Option<&str>) -> (r: bool)
    ensures
        r == key_matches(key@, pattern_bytes(pattern)),
{
    let p = match pattern {
        None => return true,
        Some(p) => p.as_bytes(),
    };
    let n: usize = p.len();
    if n == 0 {
        return true;
    }
    if n == 1 && p[0] == 0x2a {
        assert(p@ =~= seq![0x2au8]);
        return true;
    }
    assert(p@ != seq![0x2au8]);
    if !is_utf8(key) {
        return false;
    }
    if p[0] == 0x2a && p[n - 1] == 0x2a {
        contains_part(key, vstd::slice::slice_subrange(p, 1, n - 1))
    } else if p[0] == 0x2a {
        if n - 1 > key.len() {
            return false;
        }
        bytes_eq(
            vstd::slice::slice_subrange(key, key.len() - (n - 1), key.len()),
            vstd::slice::slice_subrange(p, 1, n),
        )
    } else if p[n - 1] == 0x2a {
        starts_with(key, vstd::slice::slice_subrange(p, 0, n - 1))
    } else {
        bytes_eq(key, p)
    }
}

/// `*` and a text match just the keys that end in the text: whatever stands
/// before it makes no difference, and nothing may stand behind it.
pub proof fn law_star_before(key: Seq<u8>, t: Seq<u8>)
    requires
        vstd::utf8::valid_utf8(key),
        t.len() > 0,
        t[t.len() - 1] != 0x2a,
    ensures
        key_matches(key, Some(seq![0x2au8] + t)) <==> exists|u: Seq<u8>| key == #[trigger] (u + t),
{
    let n = t.len() as int;
    let m = key.len() as int;
    let p = seq![0x2au8] + t;
    assert(p.subrange(1, n + 1) =~= t);
    assert(p[0] == 0x2a && p[n] == t[n - 1] && p.len() == n + 1);
    if key_matches(key, Some(p)) {
        assert(key =~= key.subrange(0, m - n) + t);
    }
    if exists|u: Seq<u8>| key == #[trigger] (u + t) {
        let u = choose|u: Seq<u8>| key == #[trigger] (u + t);
        assert(key.subrange(m - n, m) =~= t);
    }
}

/// A text and `*` match just the keys that begin with the text.
pub proof fn law_star_behind(key: Seq<u8>, t: Seq<u8>)
    requires
        vstd::utf8::valid_utf8(key),
        t.len() > 0,
        t[0] != 0x2a,
    ensures
        key_matches(key, Some(t + seq![0x2au8])) <==> exists|u: Seq<u8>| key == #[trigger] (t + u),
{
    let n = t.len() as int;
    let m = key.len() as int;
    let p = t + seq![0x2au8];
    assert(p.subrange(0, n) =~= t);
    assert(p[0] == t[0] && p[n] == 0x2a && p.len() == n + 1);
    if key_matches(key, Some(p)) {
        assert(key =~= t + key.subrange(n, m));
    }
    if exists|u: Seq<u8>| key == #[trigger] (t + u) {
        let u = choose|u: Seq<u8>| key == #[trigger] (t + u);
        assert(key.subrange(0, n) =~= t);
    }
}

/// A text between two stars matches just the keys that hold the text.
pub proof fn law_stars_around(key: Seq<u8>, t: Seq<u8>)
    requires
        vstd::utf8::valid_utf8(key),
    ensures
        key_matches(key, Some(seq![0x2au8] + t + seq![0x2au8])) <==> exists|u: Seq<u8>, v: Seq<u8>|
            key == #[trigger] (u + t + v),
{
    let n = t.len() as int;
    let m = key.len() as int;
    let p = seq![0x2au8] + t + seq![0x2au8];
    assert(p.subrange(1, n + 1) =~= t);
    assert(p[0] == 0x2a && p[n + 1] == 0x2a && p.len() == n + 2);
    if key_matches(key, Some(p)) {
        let i = choose|i: int| stands_at(key, t, i);
        assert(key =~= key.subrange(0, i) + t + key.subrange(i + n, m));
    }
    if exists|u: Seq<u8>, v: Seq<u8>| key == #[trigger] (u + t + v) {
        let (u, v) = choose|u: Seq<u8>, v: Seq<u8>| key == #[trigger] (u + t + v);
        assert(key.subrange(u.len() as int, u.len() + n) =~= t);
        assert(stands_at(key, t, u.len() as int));
    }
}

/// A text without a star at its ends matches itself and nothing else. Without a
/// pattern, with an empty one and with `*` alone every key matches.
pub proof fn law_no_star(key: Seq<u8>, t: Seq<u8>)
    ensures
        key_matches(key, None),
        key_matches(key, Some(Seq::empty())),
        key_matches(key, Some(seq![0x2au8])),
        vstd::utf8::valid_utf8(key) && t.len() > 0 && t[0] != 0x2a && t[t.len() - 1] != 0x2a ==> (key_matches(key, Some(t))
            <==> key == t),
{
    assert(seq![0x2au8][0] == 0x2a);
}

/// A key that is not UTF-8 matches where every key does, and nowhere else.
pub proof fn law_pattern_needs_utf8(key: Seq<u8>, p: Seq<u8>)
    requires
        !vstd::utf8::valid_utf8(key),
    ensures
        key_matches(key, None),
        key_matches(key, Some(p)) <==> p.len() == 0 || p == seq![0x2au8],
{
}

} // verus!
