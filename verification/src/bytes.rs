//! Byte strings: copying, comparing and ordering them.

use vstd::prelude::*;

verus! {

/// The contents of a list of byte strings.
pub open spec fn views(s: Seq<Vec<u8>>) -> Seq<Seq<u8>> {
    s.map_values(|v: Vec<u8>| v@)
}

/// The contents of a list of pairs of byte strings.
pub open spec fn pair_views(s: Seq<(Vec<u8>, Vec<u8>)>) -> Seq<(Seq<u8>, Seq<u8>)> {
    s.map_values(|p: (Vec<u8>, Vec<u8>)| (p.0@, p.1@))
}

/// `p` is how `s` begins.
pub open spec fn has_prefix(s: Seq<u8>, p: Seq<u8>) -> bool {
    p.len() <= s.len() && s.subrange(0, p.len() as int) == p
}

/// `a` comes before `b` in lexicographic order: they agree up to some place,
/// where `a` ends or holds the smaller byte.
pub open spec fn lex_less(a: Seq<u8>, b: Seq<u8>) -> bool {
    exists|i: int| lex_less_at(a, b, i)
}

/// `a` comes before `b`, and `i` is the first place where they differ.
pub open spec fn lex_less_at(a: Seq<u8>, b: Seq<u8>, i: int) -> bool {
    &&& 0 <= i <= a.len()
    &&& i < b.len()
    &&& forall|j: int| 0 <= j < i ==> a[j] == b[j]
    &&& i < a.len() ==> a[i] < b[i]
}

pub proof fn lemma_lex_total(a: Seq<u8>, b: Seq<u8>)
    ensures
        lex_less(a, b) || lex_less(b, a) || a == b,
    decreases a.len(),
{
    lemma_lex_total_from(a, b, 0);
}

proof fn lemma_lex_total_from(a: Seq<u8>, b: Seq<u8>, i: int)
    requires
        0 <= i <= a.len(),
        i <= b.len(),
        forall|j: int| 0 <= j < i ==> a[j] == b[j],
    ensures
        lex_less(a, b) || lex_less(b, a) || a == b,
    decreases a.len() - i,
{
    if i == a.len() && i == b.len() {
        assert(a =~= b);
    } else if i == a.len() {
        assert(lex_less_at(a, b, i));
    } else if i == b.len() {
        assert(lex_less_at(b, a, i));
    } else if a[i] < b[i] {
        assert(lex_less_at(a, b, i));
    } else if b[i] < a[i] {
        assert(lex_less_at(b, a, i));
    } else {
        lemma_lex_total_from(a, b, i + 1);
    }
}

pub proof fn lemma_lex_transitive(a: Seq<u8>, b: Seq<u8>, c: Seq<u8>)
    requires
        lex_less(a, b),
        lex_less(b, c),
    ensures
        lex_less(a, c),
{
    let i = choose|i: int| lex_less_at(a, b, i);
    let j = choose|j: int| lex_less_at(b, c, j);
    if i <= j {
        assert(lex_less_at(a, c, i));
    } else {
        assert(lex_less_at(a, c, j));
    }
}

pub proof fn lemma_lex_asymmetric(a: Seq<u8>, b: Seq<u8>)
    requires
        lex_less(a, b),
    ensures
        !lex_less(b, a),
        a != b,
{
    if lex_less(b, a) {
        lemma_lex_transitive(a, b, a);
    }
}

/// Whether two byte strings are equal.
pub fn bytes_eq(a: &[u8], b: &[u8]) -> (r: bool)
    ensures
        r == (a@ == b@),
{
    if a.len() != b.len() {
        return false;
    }
    let mut i: usize = 0;
    while i < a.len()
        invariant
            i <= a.len(),
            a.len() == b.len(),
            forall|j: int| 0 <= j < i ==> a@[j] == b@[j],
        decreases a.len() - i,
    {
        if a[i] != b[i] {
            return false;
        }
        i = i + 1;
    }
    assert(a@ =~= b@);
    true
}

/// Whether `a` comes before `b` in lexicographic order.
pub fn bytes_less(a: &[u8], b: &[u8]) -> (r: bool)
    ensures
        r == lex_less(a@, b@),
{
    let mut i: usize = 0;
    while i < a.len() && i < b.len() && a[i] == b[i]
        invariant
            i <= a.len(),
            i <= b.len(),
            forall|j: int| 0 <= j < i ==> a@[j] == b@[j],
        decreases a.len() - i,
    {
        i = i + 1;
    }
    if i == b.len() {
        proof {
            if lex_less(a@, b@) {
                let k = choose|k: int| lex_less_at(a@, b@, k);
                assert(a@[k] == b@[k]);
            }
        }
        return false;
    }
    if i == a.len() || a[i] < b[i] {
        assert(lex_less_at(a@, b@, i as int));
        return true;
    }
    assert(lex_less_at(b@, a@, i as int));
    proof {
        lemma_lex_asymmetric(b@, a@);
    }
    false
}

/// Whether `s` begins with `p`.
pub fn starts_with(s: &[u8], p: &[u8]) -> (r: bool)
    ensures
        r == has_prefix(s@, p@),
{
    if p.len() > s.len() {
        return false;
    }
    bytes_eq(vstd::slice::slice_subrange(s, 0, p.len()), p)
}

/// A copy of a byte string.
pub fn copy_bytes(b: &[u8]) -> (r: Vec<u8>)
    ensures
        r@ == b@,
{
    vstd::slice::slice_to_vec(b)
}

/// A copy of a list of pairs of byte strings.
pub fn copy_pairs(l: &Vec<(Vec<u8>, Vec<u8>)>) -> (r: Vec<(Vec<u8>, Vec<u8>)>)
    ensures
        pair_views(r@) == pair_views(l@),
{
    let mut r: Vec<(Vec<u8>, Vec<u8>)> = Vec::new();
    let mut i: usize = 0;
    while i < l.len()
        invariant
            i <= l.len(),
            r@.len() == i,
            forall|j: int| 0 <= j < i ==> (#[trigger] r@[j]).0@ == l@[j].0@ && r@[j].1@ == l@[j].1@,
        decreases l.len() - i,
    {
        r.push((copy_bytes(&l[i].0), copy_bytes(&l[i].1)));
        i = i + 1;
    }
    assert(pair_views(r@) =~= pair_views(l@));
    r
}

/// Whether a list holds a given byte string.
pub fn list_contains(l: &Vec<Vec<u8>>, b: &[u8]) -> (r: bool)
    ensures
        r == views(l@).contains(b@),
{
    let mut i: usize = 0;
    while i < l.len()
        invariant
            i <= l.len(),
            forall|j: int| 0 <= j < i ==> (#[trigger] l@[j])@ != b@,
        decreases l.len() - i,
    {
        if bytes_eq(&l[i], b) {
            assert(views(l@)[i as int] == b@);
            return true;
        }
        i = i + 1;
    }
    assert forall|j: int| 0 <= j < views(l@).len() implies views(l@)[j] != b@ by {
        assert(views(l@)[j] == l@[j]@);
    }
    false
}

} // verus!
