//! The operations on hashes, lists and sorted sets.

use std::collections::VecDeque;

use vstd::prelude::*;

use crate::bytes::{bytes_eq, copy_bytes, list_contains, pair_views, views};
use crate::order::{stable_insert, stable_sort, total_preorder};
use crate::value::{member_views, ZSetMember};

verus! {

// ---- index ranges ----

/// An index that may count from the end, as a place that does not lie before
/// the start.
pub open spec fn from_end(idx: int, len: int) -> int {
    if idx < 0 {
        if len + idx < 0 { 0 } else { len + idx }
    } else {
        idx
    }
}

/// The items from place `start` to place `stop`, both counted from the end
/// where negative, as far as there are items.
pub open spec fn range_of<A>(s: Seq<A>, start: int, stop: int) -> Seq<A> {
    let len = s.len() as int;
    let first = from_end(start, len);
    let last = if from_end(stop, len) < len - 1 { from_end(stop, len) } else { len - 1 };
    if first > last {
        Seq::empty()
    } else {
        s.subrange(first, last + 1)
    }
}

/// A place given from the start or, where negative, from the end.
pub fn normalize_idx(idx: i64, len: usize) -> (r: i128)
    ensures
        r == from_end(idx as int, len as int),
{
    if idx < 0 {
        let from: i128 = len as i128 + idx as i128;
        if from < 0 { 0 } else { from }
    } else {
        idx as i128
    }
}

/// The half-open interval of places that a range covers.
pub fn range_bounds(start: i64, stop: i64, len: usize) -> (r: (usize, usize))
    ensures
        r.0 <= r.1 <= len,
        forall|s: Seq<Seq<u8>>| s.len() == len ==> #[trigger] range_of(s, start as int, stop as int) == s.subrange(r.0 as int, r.1 as int),
        forall|s: Seq<(u64, Seq<u8>)>| s.len() == len ==> #[trigger] range_of(s, start as int, stop as int) == s.subrange(r.0 as int, r.1 as int),
{
    let first: i128 = normalize_idx(start, len);
    let end: i128 = normalize_idx(stop, len);
    let last: i128 = if end < len as i128 - 1 { end } else { len as i128 - 1 };
    if first > last {
        assert forall|s: Seq<Seq<u8>>| s.len() == len implies #[trigger] range_of(s, start as int, stop as int) == s.subrange(0, 0) by {
            assert(s.subrange(0, 0) =~= Seq::empty());
        }
        assert forall|s: Seq<(u64, Seq<u8>)>| s.len() == len implies #[trigger] range_of(s, start as int, stop as int) == s.subrange(0, 0) by {
            assert(s.subrange(0, 0) =~= Seq::empty());
        }
        (0, 0)
    } else {
        (first as usize, (last + 1) as usize)
    }
}

// ---- hashes ----

/// `i` is the first place of field `f`, or the length where there is none.
pub open spec fn is_first_field(s: Seq<(Seq<u8>, Seq<u8>)>, f: Seq<u8>, i: int) -> bool {
    &&& 0 <= i <= s.len()
    &&& forall|j: int| 0 <= j < i ==> (#[trigger] s[j]).0 != f
    &&& i < s.len() ==> s[i].0 == f
}

/// The first place of field `f`, or the length where there is none.
pub open spec fn first_field(s: Seq<(Seq<u8>, Seq<u8>)>, f: Seq<u8>) -> int {
    choose|i: int| is_first_field(s, f, i)
}

proof fn lemma_first_field_is(s: Seq<(Seq<u8>, Seq<u8>)>, f: Seq<u8>, i: int)
    requires
        is_first_field(s, f, i),
    ensures
        first_field(s, f) == i,
{
    let k = first_field(s, f);
    assert(is_first_field(s, f, k));
    if k < i {
        assert(s[k].0 != f);
    } else if i < k {
        assert(s[i].0 != f);
    }
}

proof fn lemma_first_field_exists(s: Seq<(Seq<u8>, Seq<u8>)>, f: Seq<u8>)
    ensures
        is_first_field(s, f, first_field(s, f)),
    decreases s.len(),
{
    if s.len() == 0 {
        assert(is_first_field(s, f, 0));
    } else {
        let t = s.drop_last();
        assert(forall|j: int| 0 <= j < t.len() ==> #[trigger] s[j] == t[j]);
        lemma_first_field_exists(t, f);
        let i = first_field(t, f);
        if i < t.len() {
            assert(is_first_field(s, f, i));
        } else if s.last().0 == f {
            assert(is_first_field(s, f, s.len() - 1));
        } else {
            assert(is_first_field(s, f, s.len() as int));
        }
    }
}

/// The value of field `f`.
pub open spec fn field_value(s: Seq<(Seq<u8>, Seq<u8>)>, f: Seq<u8>) -> Option<Seq<u8>> {
    if first_field(s, f) < s.len() {
        Some(s[first_field(s, f)].1)
    } else {
        None
    }
}

/// The hash with field `f` set to `v`: in place where the field is there, at
/// the end otherwise.
pub open spec fn with_field(s: Seq<(Seq<u8>, Seq<u8>)>, f: Seq<u8>, v: Seq<u8>) -> Seq<(Seq<u8>, Seq<u8>)> {
    let i = first_field(s, f);
    if i < s.len() {
        s.update(i, (s[i].0, v))
    } else {
        s.push((f, v))
    }
}

/// The hash with each of the given fields set in turn.
pub open spec fn with_fields(
    s: Seq<(Seq<u8>, Seq<u8>)>,
    pairs: Seq<(Seq<u8>, Seq<u8>)>,
) -> Seq<(Seq<u8>, Seq<u8>)>
    decreases pairs.len(),
{
    if pairs.len() == 0 {
        s
    } else {
        with_field(with_fields(s, pairs.drop_last()), pairs.last().0, pairs.last().1)
    }
}

/// The hash without the given fields.
pub open spec fn without_fields(s: Seq<(Seq<u8>, Seq<u8>)>, fields: Seq<Seq<u8>>) -> Seq<(Seq<u8>, Seq<u8>)> {
    s.filter(|p: (Seq<u8>, Seq<u8>)| !fields.contains(p.0))
}

/// A field that was set reads back, and setting it leaves the others alone.
pub proof fn law_field_reads_back(s: Seq<(Seq<u8>, Seq<u8>)>, f: Seq<u8>, v: Seq<u8>, g: Seq<u8>)
    ensures
        field_value(with_field(s, f, v), f) == Some(v),
        g != f ==> field_value(with_field(s, f, v), g) == field_value(s, g),
{
    let t = with_field(s, f, v);
    lemma_first_field_exists(s, f);
    lemma_first_field_exists(s, g);
    let i = first_field(s, f);
    assert(is_first_field(t, f, i));
    lemma_first_field_is(t, f, i);
    if g != f {
        let j = first_field(s, g);
        if j < s.len() {
            assert(t[j].0 == g);
            assert(is_first_field(t, g, j));
            lemma_first_field_is(t, g, j);
        } else {
            assert(is_first_field(t, g, t.len() as int));
            lemma_first_field_is(t, g, t.len() as int);
        }
    }
}

/// A field that was removed is gone, and removing it leaves the others alone.
pub proof fn law_field_removed(s: Seq<(Seq<u8>, Seq<u8>)>, fields: Seq<Seq<u8>>, g: Seq<u8>)
    ensures
        fields.contains(g) ==> field_value(without_fields(s, fields), g) is None,
        !fields.contains(g) ==> field_value(without_fields(s, fields), g) == field_value(s, g),
    decreases s.len(),
{
    let keep = |p: (Seq<u8>, Seq<u8>)| !fields.contains(p.0);
    let t = s.filter(keep);
    lemma_first_field_exists(s, g);
    lemma_first_field_exists(t, g);
    if fields.contains(g) {
        let i = first_field(t, g);
        if i < t.len() {
            broadcast use vstd::seq_lib::group_filter_ensures;

            assert(keep(t[i]));
        }
    } else if s.len() > 0 {
        let u = s.drop_last();
        law_field_removed(u, fields, g);
        lemma_first_field_exists(u, g);
        lemma_first_field_exists(u.filter(keep), g);
        assert(s == u.push(s.last()));
        Seq::lemma_filter_push(u, s.last(), keep);
        let v = u.filter(keep);
        let i = first_field(u, g);
        let k = first_field(v, g);
        if i < u.len() {
            assert(is_first_field(s, g, i));
            lemma_first_field_is(s, g, i);
            assert(is_first_field(t, g, k));
            lemma_first_field_is(t, g, k);
        } else if s.last().0 == g {
            assert(is_first_field(s, g, s.len() - 1));
            lemma_first_field_is(s, g, s.len() - 1);
            assert(keep(s.last()));
            assert(is_first_field(t, g, v.len() as int));
            lemma_first_field_is(t, g, v.len() as int);
        } else {
            assert(is_first_field(s, g, s.len() as int));
            lemma_first_field_is(s, g, s.len() as int);
            assert(is_first_field(t, g, t.len() as int));
            lemma_first_field_is(t, g, t.len() as int);
        }
    } else {
        assert(t =~= s);
    }
}

/// The first place of a field, or the length where there is none.
pub fn find_field(s: &Vec<(Vec<u8>, Vec<u8>)>, f: &[u8]) -> (r: usize)
    ensures
        r <= s.len(),
        r == first_field(pair_views(s@), f@),
        is_first_field(pair_views(s@), f@, r as int),
{
    let mut i: usize = 0;
    while i < s.len()
        invariant
            i <= s.len(),
            forall|j: int| 0 <= j < i ==> (#[trigger] pair_views(s@)[j]).0 != f@,
        decreases s.len() - i,
    {
        if bytes_eq(&s[i].0, f) {
            proof {
                lemma_first_field_is(pair_views(s@), f@, i as int);
            }
            return i;
        }
        i = i + 1;
    }
    proof {
        lemma_first_field_is(pair_views(s@), f@, i as int);
    }
    i
}

/// Sets fields of a hash; returns how many of them are new.
pub fn hash_set(s: &mut Vec<(Vec<u8>, Vec<u8>)>, pairs: &Vec<(Vec<u8>, Vec<u8>)>) -> (added: u64)
    ensures
        pair_views(final(s)@) == with_fields(pair_views(old(s)@), pair_views(pairs@)),
        added == final(s)@.len() - old(s)@.len(),
{
    let mut added: u64 = 0;
    let mut i: usize = 0;
    while i < pairs.len()
        invariant
            i <= pairs.len(),
            added <= i,
            added == s@.len() - old(s)@.len(),
            pair_views(s@) == with_fields(pair_views(old(s)@), pair_views(pairs@).take(i as int)),
        decreases pairs.len() - i,
    {
        let ghost before = pair_views(s@);
        let ghost next = pair_views(pairs@).take(i + 1);
        assert(next.drop_last() =~= pair_views(pairs@).take(i as int));
        let k: usize = find_field(s, &pairs[i].0);
        if k < s.len() {
            let field = copy_bytes(&s[k].0);
            s.set(k, (field, copy_bytes(&pairs[i].1)));
            assert(pair_views(s@) =~= before.update(k as int, (before[k as int].0, pairs@[i as int].1@)));
        } else {
            s.push((copy_bytes(&pairs[i].0), copy_bytes(&pairs[i].1)));
            added = added + 1;
            assert(pair_views(s@) =~= before.push((pairs@[i as int].0@, pairs@[i as int].1@)));
        }
        i = i + 1;
    }
    assert(pair_views(pairs@).take(pairs@.len() as int) =~= pair_views(pairs@));
    added
}

/// Removes fields of a hash; returns how many pairs went.
pub fn hash_del(s: &mut Vec<(Vec<u8>, Vec<u8>)>, fields: &Vec<Vec<u8>>) -> (removed: u64)
    ensures
        pair_views(final(s)@) == without_fields(pair_views(old(s)@), views(fields@)),
        removed == old(s)@.len() - final(s)@.len(),
{
    let ghost keep = |p: (Seq<u8>, Seq<u8>)| !views(fields@).contains(p.0);
    let mut kept: Vec<(Vec<u8>, Vec<u8>)> = Vec::new();
    let mut removed: u64 = 0;
    let mut i: usize = 0;
    while i < s.len()
        invariant
            i <= s.len(),
            s@ == old(s)@,
            removed + kept@.len() == i,
            keep == (|p: (Seq<u8>, Seq<u8>)| !views(fields@).contains(p.0)),
            pair_views(kept@) == pair_views(s@).take(i as int).filter(keep),
        decreases s.len() - i,
    {
        let ghost before = pair_views(kept@);
        proof {
            let t = pair_views(s@).take(i as int);
            assert(pair_views(s@).take(i + 1) =~= t.push(pair_views(s@)[i as int]));
            Seq::lemma_filter_push(t, pair_views(s@)[i as int], keep);
        }
        if list_contains(fields, &s[i].0) {
            removed = removed + 1;
        } else {
            kept.push((copy_bytes(&s[i].0), copy_bytes(&s[i].1)));
            assert(pair_views(kept@) =~= before.push(pair_views(s@)[i as int]));
        }
        i = i + 1;
    }
    assert(pair_views(s@).take(s@.len() as int) =~= pair_views(s@));
    *s = kept;
    removed
}

// ---- lists ----

/// The list with each value pushed in turn, at the front or at the back.
pub open spec fn pushed(l: Seq<Seq<u8>>, values: Seq<Seq<u8>>, front: bool) -> Seq<Seq<u8>> {
    if front {
        values.reverse() + l
    } else {
        l + values
    }
}

/// Pushes values to one end of a list.
pub fn list_push(l: &mut VecDeque<Vec<u8>>, values: &Vec<Vec<u8>>, front: bool)
    ensures
        views(final(l)@) == pushed(views(old(l)@), views(values@), front),
{
    let mut i: usize = 0;
    while i < values.len()
        invariant
            i <= values.len(),
            views(l@) == pushed(views(old(l)@), views(values@).take(i as int), front),
        decreases values.len() - i,
    {
        let ghost before = views(l@);
        if front {
            l.push_front(copy_bytes(&values[i]));
            assert(views(l@) =~= seq![values@[i as int]@] + before);
        } else {
            l.push_back(copy_bytes(&values[i]));
            assert(views(l@) =~= before.push(values@[i as int]@));
        }
        i = i + 1;
        assert(views(l@) =~= pushed(views(old(l)@), views(values@).take(i as int), front));
    }
    assert(views(values@).take(values@.len() as int) =~= views(values@));
}

/// The items of a list from `start` to `stop`.
pub fn list_range(l: &VecDeque<Vec<u8>>, start: i64, stop: i64) -> (r: Vec<Vec<u8>>)
    ensures
        views(r@) == range_of(views(l@), start as int, stop as int),
{
    let (first, end) = range_bounds(start, stop, l.len());
    let mut r: Vec<Vec<u8>> = Vec::new();
    let mut i: usize = first;
    while i < end
        invariant
            first <= i <= end <= l.len(),
            r@.len() == i - first,
            forall|j: int| 0 <= j < r@.len() ==> (#[trigger] r@[j])@ == l@[first + j]@,
        decreases end - i,
    {
        r.push(copy_bytes(&l[i]));
        i = i + 1;
    }
    assert(views(r@) =~= views(l@).subrange(first as int, end as int));
    r
}

/// Taking a value from the end it was pushed to gives it back and leaves the
/// list as it was.
pub proof fn law_push_then_pop(l: Seq<Seq<u8>>, v: Seq<u8>)
    ensures
        pushed(l, seq![v], true)[0] == v,
        pushed(l, seq![v], true).drop_first() == l,
        pushed(l, seq![v], false).last() == v,
        pushed(l, seq![v], false).drop_last() == l,
{
    assert(seq![v].reverse() =~= seq![v]);
    assert(pushed(l, seq![v], true).drop_first() =~= l);
    assert(pushed(l, seq![v], false).drop_last() =~= l);
}

// ---- sorted sets ----

pub const SIGN_BIT: u64 = 0x8000_0000_0000_0000;

pub const INFINITY_BITS: u64 = 0x7ff0_0000_0000_0000;

/// The bits of a double without its sign.
pub open spec fn magnitude(bits: u64) -> int {
    if bits >= SIGN_BIT { bits - SIGN_BIT } else { bits as int }
}

/// The double is neither infinite nor a NaN.
pub open spec fn is_finite(bits: u64) -> bool {
    magnitude(bits) < INFINITY_BITS
}

pub open spec fn is_nan(bits: u64) -> bool {
    magnitude(bits) > INFINITY_BITS
}

/// Place of a double in the IEEE total order, in which -0 comes before +0 and
/// every NaN has its place at an end.
pub open spec fn total_rank(bits: u64) -> int {
    if bits >= SIGN_BIT { -1 - magnitude(bits) } else { bits as int }
}

/// Place of a double that is not a NaN on the number line; both zeros share
/// theirs.
pub open spec fn line_rank(bits: u64) -> int {
    if bits >= SIGN_BIT { -magnitude(bits) } else { bits as int }
}

/// `a <= b` on doubles: never so where one is a NaN.
pub open spec fn float_leq(a: u64, b: u64) -> bool {
    !is_nan(a) && !is_nan(b) && line_rank(a) <= line_rank(b)
}

/// Members in the order of their scores.
pub open spec fn score_leq() -> spec_fn((u64, Seq<u8>), (u64, Seq<u8>)) -> bool {
    |a: (u64, Seq<u8>), b: (u64, Seq<u8>)| total_rank(a.0) <= total_rank(b.0)
}

/// The members in ascending order of their scores; equal scores keep the
/// order in which their members came.
pub open spec fn by_score(s: Seq<(u64, Seq<u8>)>) -> Seq<(u64, Seq<u8>)> {
    stable_sort(s, score_leq())
}

/// The members whose score lies between `min` and `max`.
pub open spec fn in_scores(s: Seq<(u64, Seq<u8>)>, min: u64, max: u64) -> Seq<(u64, Seq<u8>)> {
    s.filter(|m: (u64, Seq<u8>)| float_leq(min, m.0) && float_leq(m.0, max))
}

/// The names of members.
pub open spec fn names(s: Seq<(u64, Seq<u8>)>) -> Seq<Seq<u8>> {
    s.map_values(|m: (u64, Seq<u8>)| m.1)
}

/// Names with their scores behind them.
pub open spec fn scored(s: Seq<(u64, Seq<u8>)>) -> Seq<(Seq<u8>, u64)> {
    s.map_values(|m: (u64, Seq<u8>)| (m.1, m.0))
}

/// `i` is the first place of member `m`, or the length where there is none.
pub open spec fn is_first_member(s: Seq<(u64, Seq<u8>)>, m: Seq<u8>, i: int) -> bool {
    &&& 0 <= i <= s.len()
    &&& forall|j: int| 0 <= j < i ==> (#[trigger] s[j]).1 != m
    &&& i < s.len() ==> s[i].1 == m
}

/// The first place of member `m`, or the length where there is none.
pub open spec fn first_member(s: Seq<(u64, Seq<u8>)>, m: Seq<u8>) -> int {
    choose|i: int| is_first_member(s, m, i)
}

proof fn lemma_first_member_is(s: Seq<(u64, Seq<u8>)>, m: Seq<u8>, i: int)
    requires
        is_first_member(s, m, i),
    ensures
        first_member(s, m) == i,
{
    let k = first_member(s, m);
    assert(is_first_member(s, m, k));
    if k < i {
        assert(s[k].1 != m);
    } else if i < k {
        assert(s[i].1 != m);
    }
}

proof fn lemma_first_member_exists(s: Seq<(u64, Seq<u8>)>, m: Seq<u8>)
    ensures
        is_first_member(s, m, first_member(s, m)),
    decreases s.len(),
{
    if s.len() == 0 {
        assert(is_first_member(s, m, 0));
    } else {
        let t = s.drop_last();
        assert(forall|j: int| 0 <= j < t.len() ==> #[trigger] s[j] == t[j]);
        lemma_first_member_exists(t, m);
        let i = first_member(t, m);
        if i < t.len() {
            assert(is_first_member(s, m, i));
        } else if s.last().1 == m {
            assert(is_first_member(s, m, s.len() - 1));
        } else {
            assert(is_first_member(s, m, s.len() as int));
        }
    }
}

/// The score of member `m`.
pub open spec fn score_of(s: Seq<(u64, Seq<u8>)>, m: Seq<u8>) -> Option<u64> {
    if first_member(s, m) < s.len() {
        Some(s[first_member(s, m)].0)
    } else {
        None
    }
}

/// The rank of member `m`: its place in the order of scores.
pub open spec fn rank_of(s: Seq<(u64, Seq<u8>)>, m: Seq<u8>) -> Option<int> {
    if first_member(by_score(s), m) < s.len() {
        Some(first_member(by_score(s), m))
    } else {
        None
    }
}

/// The set with one member's score set: in place where the member is there,
/// at the end otherwise.
pub open spec fn with_score(s: Seq<(u64, Seq<u8>)>, x: (u64, Seq<u8>)) -> Seq<(u64, Seq<u8>)> {
    let i = first_member(s, x.1);
    if i < s.len() {
        s.update(i, (x.0, s[i].1))
    } else {
        s.push(x)
    }
}

/// The set with each of the given scores set in turn.
pub open spec fn with_scores(s: Seq<(u64, Seq<u8>)>, xs: Seq<(u64, Seq<u8>)>) -> Seq<(u64, Seq<u8>)>
    decreases xs.len(),
{
    if xs.len() == 0 {
        s
    } else {
        with_score(with_scores(s, xs.drop_last()), xs.last())
    }
}

/// The set without the given members.
pub open spec fn without_members(s: Seq<(u64, Seq<u8>)>, members: Seq<Seq<u8>>) -> Seq<(u64, Seq<u8>)> {
    s.filter(|m: (u64, Seq<u8>)| !members.contains(m.1))
}

/// Every score is finite.
pub open spec fn all_finite(s: Seq<(u64, Seq<u8>)>) -> bool {
    forall|i: int| 0 <= i < s.len() ==> is_finite((#[trigger] s[i]).0)
}

/// The order of scores ranks any two members.
pub proof fn law_score_order_total()
    ensures
        total_preorder(score_leq()),
{
}

/// On numbers that are not NaN, the total order refines the number line.
pub proof fn law_total_order_agrees(a: u64, b: u64)
    requires
        !is_nan(a),
        !is_nan(b),
    ensures
        total_rank(a) <= total_rank(b) ==> float_leq(a, b),
        line_rank(a) < line_rank(b) ==> total_rank(a) < total_rank(b),
{
}

/// A score that was set reads back, and setting it leaves the others alone.
pub proof fn law_score_reads_back(s: Seq<(u64, Seq<u8>)>, x: (u64, Seq<u8>), g: Seq<u8>)
    ensures
        score_of(with_score(s, x), x.1) == Some(x.0),
        g != x.1 ==> score_of(with_score(s, x), g) == score_of(s, g),
{
    let t = with_score(s, x);
    lemma_first_member_exists(s, x.1);
    lemma_first_member_exists(s, g);
    let i = first_member(s, x.1);
    assert(is_first_member(t, x.1, i));
    lemma_first_member_is(t, x.1, i);
    if g != x.1 {
        let j = first_member(s, g);
        if j < s.len() {
            assert(t[j].1 == g);
            assert(is_first_member(t, g, j));
            lemma_first_member_is(t, g, j);
        } else {
            assert(is_first_member(t, g, t.len() as int));
            lemma_first_member_is(t, g, t.len() as int);
        }
    }
}

/// Whether a double is neither infinite nor a NaN.
pub fn score_is_finite(bits: u64) -> (r: bool)
    ensures
        r == is_finite(bits),
{
    let magnitude: u64 = if bits >= SIGN_BIT { bits - SIGN_BIT } else { bits };
    magnitude < INFINITY_BITS
}

fn rank_key(bits: u64) -> (r: i128)
    ensures
        r == total_rank(bits),
{
    if bits >= SIGN_BIT {
        -1 - (bits - SIGN_BIT) as i128
    } else {
        bits as i128
    }
}

fn line_key(bits: u64) -> (r: Option<i128>)
    ensures
        r == (if is_nan(bits) { None } else { Some(line_rank(bits) as i128) }),
{
    let magnitude: u64 = if bits >= SIGN_BIT { bits - SIGN_BIT } else { bits };
    if magnitude > INFINITY_BITS {
        None
    } else if bits >= SIGN_BIT {
        Some(-(magnitude as i128))
    } else {
        Some(bits as i128)
    }
}

/// `a <= b` on doubles.
pub fn score_leq_exec(a: u64, b: u64) -> (r: bool)
    ensures
        r == float_leq(a, b),
{
    match (line_key(a), line_key(b)) {
        (Some(x), Some(y)) => x <= y,
        _ => false,
    }
}

/// The first place of a member, or the length where there is none.
pub fn find_member(s: &Vec<ZSetMember>, m: &[u8]) -> (r: usize)
    ensures
        r <= s.len(),
        r == first_member(member_views(s@), m@),
        is_first_member(member_views(s@), m@, r as int),
{
    let mut i: usize = 0;
    while i < s.len()
        invariant
            i <= s.len(),
            forall|j: int| 0 <= j < i ==> (#[trigger] member_views(s@)[j]).1 != m@,
        decreases s.len() - i,
    {
        if bytes_eq(&s[i].member, m) {
            proof {
                lemma_first_member_is(member_views(s@), m@, i as int);
            }
            return i;
        }
        i = i + 1;
    }
    proof {
        lemma_first_member_is(member_views(s@), m@, i as int);
    }
    i
}

/// Whether every score is finite.
pub fn members_finite(s: &Vec<ZSetMember>) -> (r: bool)
    ensures
        r == all_finite(member_views(s@)),
{
    let mut i: usize = 0;
    while i < s.len()
        invariant
            i <= s.len(),
            forall|j: int| 0 <= j < i ==> is_finite((#[trigger] member_views(s@)[j]).0),
        decreases s.len() - i,
    {
        if !score_is_finite(s[i].score) {
            assert(!is_finite(member_views(s@)[i as int].0));
            return false;
        }
        i = i + 1;
    }
    true
}

/// Sets scores of a sorted set; returns how many members are new.
pub fn zset_set(s: &mut Vec<ZSetMember>, xs: &Vec<ZSetMember>) -> (added: u64)
    ensures
        member_views(final(s)@) == with_scores(member_views(old(s)@), member_views(xs@)),
        added == final(s)@.len() - old(s)@.len(),
{
    let mut added: u64 = 0;
    let mut i: usize = 0;
    while i < xs.len()
        invariant
            i <= xs.len(),
            added <= i,
            added == s@.len() - old(s)@.len(),
            member_views(s@) == with_scores(member_views(old(s)@), member_views(xs@).take(i as int)),
        decreases xs.len() - i,
    {
        let ghost before = member_views(s@);
        let ghost next = member_views(xs@).take(i + 1);
        assert(next.drop_last() =~= member_views(xs@).take(i as int));
        let k: usize = find_member(s, &xs[i].member);
        if k < s.len() {
            let member = copy_bytes(&s[k].member);
            s.set(k, ZSetMember { score: xs[i].score, member });
            assert(member_views(s@) =~= before.update(k as int, (xs@[i as int].score, before[k as int].1)));
        } else {
            s.push(xs[i].clone());
            added = added + 1;
            assert(member_views(s@) =~= before.push(xs@[i as int]@));
        }
        i = i + 1;
    }
    assert(member_views(xs@).take(xs@.len() as int) =~= member_views(xs@));
    added
}

/// Removes members of a sorted set; returns how many went.
pub fn zset_del(s: &mut Vec<ZSetMember>, members: &Vec<Vec<u8>>) -> (removed: u64)
    ensures
        member_views(final(s)@) == without_members(member_views(old(s)@), views(members@)),
        removed == old(s)@.len() - final(s)@.len(),
{
    let ghost keep = |m: (u64, Seq<u8>)| !views(members@).contains(m.1);
    let mut kept: Vec<ZSetMember> = Vec::new();
    let mut removed: u64 = 0;
    let mut i: usize = 0;
    while i < s.len()
        invariant
            i <= s.len(),
            s@ == old(s)@,
            removed + kept@.len() == i,
            keep == (|m: (u64, Seq<u8>)| !views(members@).contains(m.1)),
            member_views(kept@) == member_views(s@).take(i as int).filter(keep),
        decreases s.len() - i,
    {
        let ghost before = member_views(kept@);
        proof {
            let t = member_views(s@).take(i as int);
            assert(member_views(s@).take(i + 1) =~= t.push(member_views(s@)[i as int]));
            Seq::lemma_filter_push(t, member_views(s@)[i as int], keep);
        }
        if list_contains(members, &s[i].member) {
            removed = removed + 1;
        } else {
            kept.push(s[i].clone());
            assert(member_views(kept@) =~= before.push(member_views(s@)[i as int]));
        }
        i = i + 1;
    }
    assert(member_views(s@).take(s@.len() as int) =~= member_views(s@));
    *s = kept;
    removed
}

/// Puts a member where it belongs in a sequence ordered by score.
fn insert_by_score(s: &mut Vec<ZSetMember>, x: ZSetMember)
    ensures
        member_views(final(s)@) == stable_insert(member_views(old(s)@), x@, score_leq()),
{
    let key: i128 = rank_key(x.score);
    let mut i: usize = s.len();
    let ghost all = member_views(s@);
    assert(all.subrange(s@.len() as int, s@.len() as int) =~= Seq::empty());
    assert(all.take(s@.len() as int) =~= all);
    while i > 0 && rank_key(s[i - 1].score) > key
        invariant
            i <= s.len(),
            s@ == old(s)@,
            all == member_views(s@),
            key == total_rank(x.score),
            stable_insert(all, x@, score_leq()) == stable_insert(all.take(i as int), x@, score_leq()) + all.subrange(
                i as int,
                all.len() as int,
            ),
        decreases i,
    {
        proof {
            let t = all.take(i as int);
            assert(t.last() == s@[i - 1]@);
            assert(t.drop_last() =~= all.take(i - 1));
            assert(stable_insert(t, x@, score_leq()) == stable_insert(t.drop_last(), x@, score_leq()).push(t.last()));
            assert(stable_insert(all.take(i - 1), x@, score_leq()).push(t.last()) + all.subrange(i as int, all.len() as int)
                =~= stable_insert(all.take(i - 1), x@, score_leq()) + all.subrange(i - 1, all.len() as int));
        }
        i = i - 1;
    }
    proof {
        let t = all.take(i as int);
        if i > 0 {
            assert(t.last() == s@[i - 1]@);
        }
        assert(stable_insert(t, x@, score_leq()) == t.push(x@));
    }
    let ghost item = x@;
    s.insert(i, x);
    assert(member_views(s@) =~= all.take(i as int).push(item) + all.subrange(i as int, all.len() as int));
}

/// The members in ascending order of their scores.
pub fn sort_members(s: &Vec<ZSetMember>) -> (r: Vec<ZSetMember>)
    ensures
        member_views(r@) == by_score(member_views(s@)),
        r@.len() == s@.len(),
{
    let mut r: Vec<ZSetMember> = Vec::new();
    let mut i: usize = 0;
    assert(member_views(r@) =~= by_score(member_views(s@).take(0)));
    while i < s.len()
        invariant
            i <= s.len(),
            r@.len() == i,
            member_views(r@) == by_score(member_views(s@).take(i as int)),
        decreases s.len() - i,
    {
        let ghost next = member_views(s@).take(i + 1);
        assert(next.drop_last() =~= member_views(s@).take(i as int));
        insert_by_score(&mut r, s[i].clone());
        proof {
            crate::order::law_sort_keeps_items(next, score_leq());
            assert(member_views(r@).len() == i + 1);
        }
        i = i + 1;
    }
    assert(member_views(s@).take(s@.len() as int) =~= member_views(s@));
    r
}

/// The members whose score lies between `min` and `max`.
pub fn members_in(s: &Vec<ZSetMember>, min: u64, max: u64) -> (r: Vec<ZSetMember>)
    ensures
        member_views(r@) == in_scores(member_views(s@), min, max),
{
    let ghost pick = |m: (u64, Seq<u8>)| float_leq(min, m.0) && float_leq(m.0, max);
    let mut r: Vec<ZSetMember> = Vec::new();
    let mut i: usize = 0;
    while i < s.len()
        invariant
            i <= s.len(),
            pick == (|m: (u64, Seq<u8>)| float_leq(min, m.0) && float_leq(m.0, max)),
            member_views(r@) == member_views(s@).take(i as int).filter(pick),
        decreases s.len() - i,
    {
        let ghost before = member_views(r@);
        proof {
            let t = member_views(s@).take(i as int);
            assert(member_views(s@).take(i + 1) =~= t.push(member_views(s@)[i as int]));
            Seq::lemma_filter_push(t, member_views(s@)[i as int], pick);
        }
        if score_leq_exec(min, s[i].score) && score_leq_exec(s[i].score, max) {
            r.push(s[i].clone());
            assert(member_views(r@) =~= before.push(member_views(s@)[i as int]));
        }
        i = i + 1;
    }
    assert(member_views(s@).take(s@.len() as int) =~= member_views(s@));
    r
}

/// The names of the members at the places from `first` up to `end`.
pub fn names_between(s: &Vec<ZSetMember>, first: usize, end: usize) -> (r: Vec<Vec<u8>>)
    requires
        first <= end <= s.len(),
    ensures
        views(r@) == names(member_views(s@).subrange(first as int, end as int)),
{
    let mut r: Vec<Vec<u8>> = Vec::new();
    let mut i: usize = first;
    while i < end
        invariant
            first <= i <= end <= s.len(),
            r@.len() == i - first,
            forall|j: int| 0 <= j < r@.len() ==> (#[trigger] r@[j])@ == s@[first + j].member@,
        decreases end - i,
    {
        r.push(copy_bytes(&s[i].member));
        i = i + 1;
    }
    assert(views(r@) =~= names(member_views(s@).subrange(first as int, end as int)));
    r
}

/// What a list of names with scores holds.
pub open spec fn scored_views(s: Seq<(Vec<u8>, u64)>) -> Seq<(Seq<u8>, u64)> {
    s.map_values(|p: (Vec<u8>, u64)| (p.0@, p.1))
}

/// The names and scores of the members at the places from `first` up to `end`.
pub fn scored_between(s: &Vec<ZSetMember>, first: usize, end: usize) -> (r: Vec<(Vec<u8>, u64)>)
    requires
        first <= end <= s.len(),
    ensures
        scored_views(r@) == scored(member_views(s@).subrange(first as int, end as int)),
{
    let mut r: Vec<(Vec<u8>, u64)> = Vec::new();
    let mut i: usize = first;
    while i < end
        invariant
            first <= i <= end <= s.len(),
            r@.len() == i - first,
            forall|j: int| 0 <= j < r@.len() ==> (#[trigger] r@[j]).0@ == s@[first + j].member@
                && r@[j].1 == s@[first + j].score,
        decreases end - i,
    {
        r.push((copy_bytes(&s[i].member), s[i].score));
        i = i + 1;
    }
    assert(scored_views(r@) =~= scored(member_views(s@).subrange(first as int, end as int)));
    r
}

} // verus!
