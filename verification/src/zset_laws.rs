//! What commands on sorted sets answer, told by what other commands answer.

use vstd::prelude::*;

use crate::bytes::views;
use crate::commands::DataCommand;
use crate::data::{
    by_score, first_member, float_leq, in_scores, is_first_member, law_score_order_total, law_score_reads_back, names,
    range_of, rank_of, score_leq, score_of, with_scores,
};
use crate::key_laws::{after, gives, missing, said};
use crate::list_laws::law_range_counts_from_end;
use crate::order::{ahead, law_sort_ascending, law_sort_keeps_items, law_sort_places};
use crate::reply::ReplyView;
use crate::store::StoreView;
use crate::value::{member_views, ErrorView, ValueView, ZSetMember};

verus! {

/// The double with the bits `a` comes before the one with the bits `b`: every
/// one with a sign before every one without, those without in the order of
/// their bits, and those with a sign the other way round.
pub open spec fn lower(a: u64, b: u64) -> bool {
    if a < 0x8000_0000_0000_0000 && b < 0x8000_0000_0000_0000 {
        a < b
    } else if a >= 0x8000_0000_0000_0000 && b >= 0x8000_0000_0000_0000 {
        a > b
    } else {
        a > b
    }
}

/// The bits are those of a number, an infinite one at most.
pub open spec fn a_number(a: u64) -> bool {
    a <= 0x7ff0_0000_0000_0000 || 0x8000_0000_0000_0000 <= a <= 0xfff0_0000_0000_0000
}

/// One number is at most another: it comes before, or it is the same, or both
/// are zero.
pub open spec fn at_most(a: u64, b: u64) -> bool {
    &&& a_number(a) && a_number(b)
    &&& lower(a, b) || a == b || a == 0 && b == 0x8000_0000_0000_0000
}

/// How many of the first `n` members have a lower score than the member at
/// place `i`, or the same one and an earlier place.
pub open spec fn below(z: Seq<(u64, Seq<u8>)>, i: int, n: int) -> int
    decreases n,
{
    if n <= 0 {
        0
    } else {
        below(z, i, n - 1) + if lower(z[n - 1].0, z[i].0) || z[n - 1].0 == z[i].0 && n - 1 < i {
            1int
        } else {
            0
        }
    }
}

/// No two members have the same name.
pub open spec fn distinct(z: Seq<(u64, Seq<u8>)>) -> bool {
    forall|i: int, j: int| 0 <= i < j < z.len() ==> (#[trigger] z[i]).1 != (#[trigger] z[j]).1
}

proof fn lemma_below(z: Seq<(u64, Seq<u8>)>, i: int, n: int)
    requires
        0 <= i < z.len(),
        0 <= n <= z.len(),
    ensures
        below(z, i, n) == ahead(z, score_leq(), i, n),
    decreases n,
{
    if n > 0 {
        lemma_below(z, i, n - 1);
    }
}

proof fn lemma_at(z: Seq<(u64, Seq<u8>)>, i: int)
    requires
        0 <= i < z.len(),
    ensures
        0 <= below(z, i, z.len() as int) < z.len(),
        by_score(z).len() == z.len(),
        by_score(z)[below(z, i, z.len() as int)] == z[i],
{
    law_score_order_total();
    law_sort_places(z, score_leq(), i);
    law_sort_keeps_items(z, score_leq());
    lemma_below(z, i, z.len() as int);
}

proof fn lemma_held(a: Seq<(u64, Seq<u8>)>, x: (u64, Seq<u8>))
    ensures
        by_score(a).contains(x) <==> a.contains(x),
{
    broadcast use vstd::seq_lib::group_to_multiset_ensures;

    law_sort_keeps_items(a, score_leq());
    assert(by_score(a).contains(x) <==> by_score(a).to_multiset().count(x) > 0);
    assert(a.contains(x) <==> a.to_multiset().count(x) > 0);
}

proof fn lemma_first(z: Seq<(u64, Seq<u8>)>, m: Seq<u8>)
    ensures
        is_first_member(z, m, first_member(z, m)),
    decreases z.len(),
{
    if z.len() == 0 {
        assert(is_first_member(z, m, 0));
    } else {
        let t = z.drop_last();
        assert(forall|j: int| 0 <= j < t.len() ==> #[trigger] z[j] == t[j]);
        lemma_first(t, m);
        let i = first_member(t, m);
        if i < t.len() {
            assert(is_first_member(z, m, i));
        } else if z.last().1 == m {
            assert(is_first_member(z, m, z.len() - 1));
        } else {
            assert(is_first_member(z, m, z.len() as int));
        }
    }
}

proof fn lemma_rank(z: Seq<(u64, Seq<u8>)>, i: int)
    requires
        distinct(z),
        0 <= i < z.len(),
    ensures
        rank_of(z, z[i].1) == Some(below(z, i, z.len() as int)),
{
    lemma_at(z, i);
    let s = by_score(z);
    let r = below(z, i, z.len() as int);
    let m = z[i].1;
    lemma_first(s, m);
    let k = first_member(s, m);
    if k < r {
        lemma_held(z, s[k]);
        assert(s.contains(s[k]));
        let j = choose|j: int| 0 <= j < z.len() && z[j] == s[k];
        assert(z[j].1 == z[i].1);
        assert(j == i) by {
            if j < i {
                assert(z[j].1 != z[i].1);
            } else if i < j {
                assert(z[i].1 != z[j].1);
            }
        }
        lemma_strict(z, i, k, r);
    }
    if r < k {
        assert(s[r].1 != m);
    }
}

/// A member that comes once in a set comes once in the sorted form.
proof fn lemma_strict(z: Seq<(u64, Seq<u8>)>, i: int, k: int, r: int)
    requires
        distinct(z),
        0 <= i < z.len(),
        0 <= k <= r < z.len(),
        by_score(z).len() == z.len(),
        by_score(z)[k] == z[i],
        by_score(z)[r] == z[i],
    ensures
        k == r,
{
    broadcast use vstd::seq_lib::group_to_multiset_ensures;

    let s = by_score(z);
    law_sort_keeps_items(z, score_leq());
    assert(z.no_duplicates()) by {
        assert forall|a: int, b: int| 0 <= a < z.len() && 0 <= b < z.len() && a != b implies z[a] != z[b] by {
            if a < b {
                assert(z[a].1 != z[b].1);
            } else {
                assert(z[b].1 != z[a].1);
            }
        }
    }
    z.lemma_multiset_has_no_duplicates();
    assert(s.to_multiset().count(z[i]) <= 1);
    if k < r {
        let t = s.remove(k);
        assert(t[r - 1] == z[i]);
        assert(t.contains(z[i]));
        assert(t.to_multiset().count(z[i]) > 0);
        vstd::seq_lib::to_multiset_remove(s, k);
    }
}

/// `ZRANK` answers how many members have a lower score, those of the same score
/// that came earlier among them; the lowest has the rank 0. A member that is
/// not there has no rank.
pub proof fn law_zrank_counts_lower(s: StoreView, db_id: u16, key: Vec<u8>, member: Vec<u8>, now: u64, z: Seq<(u64, Seq<u8>)>, i: int)
    requires
        gives(s, db_id, key, now, ValueView::ZSet(z)),
    ensures
        distinct(z) && 0 <= i < z.len() && z[i].1 == member@ ==> said(s, DataCommand::ZRank { key, member }, db_id, now) == Ok::<
            ReplyView,
            ErrorView,
        >(ReplyView::Count(below(z, i, z.len() as int))),
        (forall|j: int| 0 <= j < z.len() ==> (#[trigger] z[j]).1 != member@) ==> said(
            s,
            DataCommand::ZRank { key, member },
            db_id,
            now,
        ) == Err::<ReplyView, ErrorView>(ErrorView::KeyNotFound),
{
    if distinct(z) && 0 <= i < z.len() && z[i].1 == member@ {
        lemma_rank(z, i);
    }
    if forall|j: int| 0 <= j < z.len() ==> (#[trigger] z[j]).1 != member@ {
        let t = by_score(z);
        law_sort_keeps_items(z, score_leq());
        lemma_first(t, member@);
        let k = first_member(t, member@);
        if k < t.len() {
            lemma_held(z, t[k]);
            assert(t.contains(t[k]));
            let j = choose|j: int| 0 <= j < z.len() && z[j] == t[k];
            assert(z[j].1 != member@);
        }
    }
}

/// `ZRANGE` answers the members by rank: the range from `a` to `b` holds, at
/// place `r - a`, the member of rank `r`, with its score where scores are asked
/// for. Without a set it is empty.
pub proof fn law_zrange_goes_by_rank(s: StoreView, db_id: u16, key: Vec<u8>, a: i64, b: i64, now: u64, z: Seq<(u64, Seq<u8>)>, i: int)
    requires
        0 <= a <= b,
    ensures
        missing(s, db_id, key, now) ==> said(s, DataCommand::ZRange { key, start: a, stop: b, with_scores: false }, db_id, now) == Ok::<
            ReplyView,
            ErrorView,
        >(ReplyView::BytesList(Seq::empty())),
        gives(s, db_id, key, now, ValueView::ZSet(z)) && b < z.len() && 0 <= i < z.len() ==> {
            let r = below(z, i, z.len() as int);
            &&& 0 <= r < z.len()
            &&& said(s, DataCommand::ZRange { key, start: a, stop: b, with_scores: false }, db_id, now) matches Ok(
                ReplyView::BytesList(l),
            ) && l.len() == b - a + 1 && (a <= r <= b ==> l[r - a] == z[i].1)
            &&& said(s, DataCommand::ZRange { key, start: a, stop: b, with_scores: true }, db_id, now) matches Ok(
                ReplyView::Scored(l),
            ) && l.len() == b - a + 1 && (a <= r <= b ==> l[r - a] == (z[i].1, z[i].0))
        },
{
    if gives(s, db_id, key, now, ValueView::ZSet(z)) && b < z.len() && 0 <= i < z.len() {
        lemma_at(z, i);
    }
}

/// The range of a member's rank alone is that member.
pub proof fn law_zrange_at_rank(s: StoreView, db_id: u16, key: Vec<u8>, member: Vec<u8>, now: u64, z: Seq<(u64, Seq<u8>)>, r: i64)
    requires
        gives(s, db_id, key, now, ValueView::ZSet(z)),
        said(s, DataCommand::ZRank { key, member }, db_id, now) == Ok::<ReplyView, ErrorView>(ReplyView::Count(r as int)),
    ensures
        said(s, DataCommand::ZRange { key, start: r, stop: r, with_scores: false }, db_id, now) == Ok::<ReplyView, ErrorView>(
            ReplyView::BytesList(seq![member@]),
        ),
{
    let t = by_score(z);
    law_sort_keeps_items(z, score_leq());
    lemma_first(t, member@);
    assert(names(range_of(t, r as int, r as int)) =~= seq![member@]);
}

/// Places below zero count from the highest score, as they do from the end of
/// a list, and a last place beyond the end stands for the end. A range that
/// begins beyond the end is empty.
pub proof fn law_zrange_counts_from_end(s: StoreView, db_id: u16, key: Vec<u8>, k: i64, other: i64, with_scores: bool, now: u64, z: Seq<(u64, Seq<u8>)>)
    requires
        gives(s, db_id, key, now, ValueView::ZSet(z)),
        1 <= k <= z.len() <= i64::MAX,
    ensures
        said(s, DataCommand::ZRange { key, start: (-k) as i64, stop: other, with_scores }, db_id, now) == said(
            s,
            DataCommand::ZRange { key, start: (z.len() - k) as i64, stop: other, with_scores },
            db_id,
            now,
        ),
        said(s, DataCommand::ZRange { key, start: other, stop: (-k) as i64, with_scores }, db_id, now) == said(
            s,
            DataCommand::ZRange { key, start: other, stop: (z.len() - k) as i64, with_scores },
            db_id,
            now,
        ),
        other >= z.len() ==> said(s, DataCommand::ZRange { key, start: (-k) as i64, stop: other, with_scores }, db_id, now)
            == said(s, DataCommand::ZRange { key, start: (-k) as i64, stop: (-1) as i64, with_scores }, db_id, now),
        said(s, DataCommand::ZRange { key, start: 0, stop: (-1) as i64, with_scores: false }, db_id, now) matches Ok(
            ReplyView::BytesList(l),
        ) && l.len() == z.len(),
        other >= z.len() ==> said(s, DataCommand::ZRange { key, start: other, stop: other, with_scores }, db_id, now) == Ok::<
            ReplyView,
            ErrorView,
        >(ReplyView::BytesList(Seq::empty())),
{
    law_sort_keeps_items(z, score_leq());
    law_range_counts_from_end(by_score(z), k as int, other as int);
    let none: Seq<(u64, Seq<u8>)> = Seq::empty();
    assert(names(none) =~= Seq::empty());
}

proof fn lemma_float(a: u64, b: u64)
    ensures
        float_leq(a, b) <==> at_most(a, b),
{
}

/// `ZRANGEBYSCORE` answers just the members whose scores are numbers from the
/// least to the greatest that are given, both included, and no member before
/// one with a lower score.
pub proof fn law_zrangebyscore_picks(s: StoreView, db_id: u16, key: Vec<u8>, min: u64, max: u64, now: u64, z: Seq<(u64, Seq<u8>)>)
    requires
        gives(s, db_id, key, now, ValueView::ZSet(z)),
        distinct(z),
    ensures
        said(s, DataCommand::ZRangeByScore { key, min, max }, db_id, now) matches Ok(ReplyView::BytesList(l)) && {
            &&& forall|i: int|
                0 <= i < z.len() ==> (l.contains((#[trigger] z[i]).1) <==> at_most(min, z[i].0) && at_most(z[i].0, max))
            &&& forall|a: int| 0 <= a < l.len() ==> exists|i: int| 0 <= i < z.len() && (#[trigger] z[i]).1 == #[trigger] l[a]
            &&& forall|a: int, b: int, i: int, j: int|
                0 <= a < b < l.len() && 0 <= i < z.len() && 0 <= j < z.len() && #[trigger] l[a] == (#[trigger] z[i]).1
                    && #[trigger] l[b] == (#[trigger] z[j]).1 ==> !lower(z[j].0, z[i].0) && i != j
        },
{
    let f = |m: (u64, Seq<u8>)| float_leq(min, m.0) && float_leq(m.0, max);
    let picked = in_scores(z, min, max);
    let t = by_score(picked);
    let l = names(t);
    law_score_order_total();
    law_sort_keeps_items(picked, score_leq());
    law_sort_ascending(picked, score_leq());
    broadcast use vstd::seq_lib::group_filter_ensures;

    assert forall|i: int| 0 <= i < z.len() implies (l.contains((#[trigger] z[i]).1) <==> at_most(min, z[i].0) && at_most(
        z[i].0,
        max,
    )) by {
        lemma_float(min, z[i].0);
        lemma_float(z[i].0, max);
        lemma_held(picked, z[i]);
        if f(z[i]) {
            z.lemma_filter_contains(f, i);
            let k = choose|k: int| 0 <= k < t.len() && t[k] == z[i];
            assert(l[k] == z[i].1);
        }
        if l.contains(z[i].1) {
            let k = choose|k: int| 0 <= k < l.len() && l[k] == z[i].1;
            lemma_from(z, f, t, k);
            let j = choose|j: int| 0 <= j < z.len() && z[j] == t[k];
            if j < i {
                assert(z[j].1 != z[i].1);
            } else if i < j {
                assert(z[i].1 != z[j].1);
            }
        }
    }
    assert forall|a: int| 0 <= a < l.len() implies exists|i: int| 0 <= i < z.len() && (#[trigger] z[i]).1 == #[trigger] l[a] by {
        lemma_from(z, f, t, a);
        let j = choose|j: int| 0 <= j < z.len() && z[j] == t[a];
        assert(z[j].1 == l[a]);
    }
    assert forall|a: int, b: int, i: int, j: int|
        0 <= a < b < l.len() && 0 <= i < z.len() && 0 <= j < z.len() && #[trigger] l[a] == (#[trigger] z[i]).1 && #[trigger] l[b]
            == (#[trigger] z[j]).1 implies !lower(z[j].0, z[i].0) && i != j by {
        lemma_from(z, f, t, a);
        lemma_from(z, f, t, b);
        let p = choose|p: int| 0 <= p < z.len() && z[p] == t[a];
        let q = choose|q: int| 0 <= q < z.len() && z[q] == t[b];
        assert(p == i) by {
            if p < i {
                assert(z[p].1 != z[i].1);
            } else if i < p {
                assert(z[i].1 != z[p].1);
            }
        }
        assert(q == j) by {
            if q < j {
                assert(z[q].1 != z[j].1);
            } else if j < q {
                assert(z[j].1 != z[q].1);
            }
        }
        assert(score_leq()(t[a], t[b]));
        if i == j {
            lemma_filter_distinct(z, f);
            let w = choose|w: int| 0 <= w < picked.len() && picked[w] == z[i];
            lemma_held(picked, z[i]);
            assert(t.contains(t[a]));
            assert(picked.contains(z[i]));
            lemma_strict(picked, w, a, b);
        }
    }
}

proof fn lemma_from(z: Seq<(u64, Seq<u8>)>, f: spec_fn((u64, Seq<u8>)) -> bool, t: Seq<(u64, Seq<u8>)>, k: int)
    requires
        t == by_score(z.filter(f)),
        0 <= k < t.len(),
    ensures
        f(t[k]),
        exists|j: int| 0 <= j < z.len() && z[j] == t[k],
{
    let picked = z.filter(f);
    lemma_held(picked, t[k]);
    assert(t.contains(t[k]));
    let i = choose|i: int| 0 <= i < picked.len() && picked[i] == t[k];
    z.lemma_filter_pred(f, i);
    z.lemma_filter_contains_rev(f, t[k]);
}

proof fn lemma_filter_distinct(z: Seq<(u64, Seq<u8>)>, f: spec_fn((u64, Seq<u8>)) -> bool)
    requires
        distinct(z),
    ensures
        distinct(z.filter(f)),
    decreases z.len(),
{
    if z.len() > 0 {
        let t = z.drop_last();
        let x = z.last();
        assert forall|i: int, j: int| 0 <= i < j < t.len() implies (#[trigger] t[i]).1 != (#[trigger] t[j]).1 by {
            assert(z[i].1 != z[j].1);
        }
        lemma_filter_distinct(t, f);
        assert(z =~= t.push(x));
        Seq::lemma_filter_push(t, x, f);
        let u = t.filter(f);
        if f(x) {
            assert forall|i: int, j: int| 0 <= i < j < u.push(x).len() implies (#[trigger] u.push(x)[i]).1 != (
            #[trigger] u.push(x)[j]).1 by {
                if j < u.len() {
                    assert(u[i].1 != u[j].1);
                } else {
                    t.lemma_filter_contains_rev(f, u[i]);
                    let k = choose|k: int| 0 <= k < t.len() && t[k] == u[i];
                    assert(z[k].1 != z[z.len() - 1].1);
                }
            }
        }
    } else {
        assert(z.filter(f) =~= z);
    }
}

// ---- scores ----

/// The score that is given last for a member.
pub open spec fn scored_last(xs: Seq<(u64, Seq<u8>)>, m: Seq<u8>) -> Option<u64>
    decreases xs.len(),
{
    if xs.len() == 0 {
        None
    } else if xs.last().1 == m {
        Some(xs.last().0)
    } else {
        scored_last(xs.drop_last(), m)
    }
}

/// The members that are given and that a set does not have.
pub open spec fn new_members(z: Seq<(u64, Seq<u8>)>, xs: Seq<(u64, Seq<u8>)>) -> Set<Seq<u8>> {
    Set::new(
        |m: Seq<u8>|
            (exists|i: int| 0 <= i < xs.len() && (#[trigger] xs[i]).1 == m) && forall|j: int|
                0 <= j < z.len() ==> (#[trigger] z[j]).1 != m,
    )
}

proof fn lemma_scores_set(z: Seq<(u64, Seq<u8>)>, xs: Seq<(u64, Seq<u8>)>, m: Seq<u8>)
    ensures
        score_of(with_scores(z, xs), m) == match scored_last(xs, m) {
            Some(x) => Some(x),
            None => score_of(z, m),
        },
    decreases xs.len(),
{
    if xs.len() > 0 {
        lemma_scores_set(z, xs.drop_last(), m);
        law_score_reads_back(with_scores(z, xs.drop_last()), xs.last(), m);
    }
}

proof fn lemma_scored(xs: Seq<(u64, Seq<u8>)>, m: Seq<u8>)
    ensures
        scored_last(xs, m) is Some <==> exists|i: int| 0 <= i < xs.len() && (#[trigger] xs[i]).1 == m,
    decreases xs.len(),
{
    if xs.len() > 0 {
        let p = xs.drop_last();
        lemma_scored(p, m);
        assert(forall|j: int| 0 <= j < p.len() ==> #[trigger] p[j] == xs[j]);
        if xs.last().1 == m {
            assert(xs[xs.len() - 1].1 == m);
        } else if exists|i: int| 0 <= i < xs.len() && (#[trigger] xs[i]).1 == m {
            let i = choose|i: int| 0 <= i < xs.len() && (#[trigger] xs[i]).1 == m;
            assert(p[i].1 == m);
        }
    }
}

proof fn lemma_new_members(z: Seq<(u64, Seq<u8>)>, xs: Seq<(u64, Seq<u8>)>)
    ensures
        new_members(z, xs).finite(),
        with_scores(z, xs).len() == z.len() + new_members(z, xs).len(),
    decreases xs.len(),
{
    let all = new_members(z, xs);
    if xs.len() == 0 {
        assert(all =~= Set::empty());
    } else {
        let p = xs.drop_last();
        let f = xs.last().1;
        let mid = with_scores(z, p);
        lemma_new_members(z, p);
        lemma_scores_set(z, p, f);
        lemma_scored(p, f);
        lemma_first(mid, f);
        lemma_first(z, f);
        let before = new_members(z, p);
        assert forall|g: Seq<u8>| #[trigger] all.contains(g) <==> before.contains(g) || g == f && (forall|j: int|
            0 <= j < z.len() ==> (#[trigger] z[j]).1 != f) by {
            if all.contains(g) {
                let i = choose|i: int| 0 <= i < xs.len() && (#[trigger] xs[i]).1 == g;
                if i < p.len() {
                    assert(p[i].1 == g);
                }
            }
            if before.contains(g) {
                let i = choose|i: int| 0 <= i < p.len() && (#[trigger] p[i]).1 == g;
                assert(xs[i].1 == g);
            }
            if g == f {
                assert(xs[xs.len() - 1].1 == f);
            }
        }
        if first_member(mid, f) < mid.len() {
            assert(all =~= before);
        } else {
            assert(!before.contains(f));
            assert(all =~= before.insert(f));
        }
    }
}

/// `ZSCORE` answers the score that stands with a member in the set that `GET`
/// gives, and `ZCARD` how many members it has.
pub proof fn law_zscore_answers(s: StoreView, db_id: u16, key: Vec<u8>, member: Vec<u8>, now: u64, z: Seq<(u64, Seq<u8>)>, i: int)
    ensures
        missing(s, db_id, key, now) ==> {
            &&& said(s, DataCommand::ZScore { key, member }, db_id, now) == Err::<ReplyView, ErrorView>(
                ErrorView::KeyNotFound,
            )
            &&& said(s, DataCommand::ZRank { key, member }, db_id, now) == Err::<ReplyView, ErrorView>(
                ErrorView::KeyNotFound,
            )
            &&& said(s, DataCommand::ZCard { key }, db_id, now) == Ok::<ReplyView, ErrorView>(ReplyView::Count(0))
        },
        gives(s, db_id, key, now, ValueView::ZSet(z)) ==> {
            &&& said(s, DataCommand::ZCard { key }, db_id, now) == Ok::<ReplyView, ErrorView>(
                ReplyView::Count(z.len() as int),
            )
            &&& distinct(z) && 0 <= i < z.len() && z[i].1 == member@ ==> said(
                s,
                DataCommand::ZScore { key, member },
                db_id,
                now,
            ) == Ok::<ReplyView, ErrorView>(ReplyView::Score(z[i].0))
            &&& (forall|j: int| 0 <= j < z.len() ==> (#[trigger] z[j]).1 != member@) ==> said(
                s,
                DataCommand::ZScore { key, member },
                db_id,
                now,
            ) == Err::<ReplyView, ErrorView>(ErrorView::KeyNotFound)
        },
{
    if gives(s, db_id, key, now, ValueView::ZSet(z)) {
        lemma_first(z, member@);
        let k = first_member(z, member@);
        if distinct(z) && 0 <= i < z.len() && z[i].1 == member@ {
            if k < i {
                assert(z[k].1 != z[i].1);
            } else if i < k {
                assert(z[i].1 != member@);
            }
        }
        if k < z.len() {
            assert(z[k].1 == member@);
        }
    }
}

/// Every score is a number, and not an infinite one.
pub open spec fn scores_are_numbers(xs: Seq<(u64, Seq<u8>)>) -> bool {
    forall|i: int|
        0 <= i < xs.len() ==> ((#[trigger] xs[i]).0 < 0x7ff0_0000_0000_0000 || 0x8000_0000_0000_0000 <= xs[i].0
            < 0xfff0_0000_0000_0000)
}

/// `ZADD` on a set makes `ZSCORE` answer, for each member that is given, the
/// score that is given last, and what it did for the others. It answers how
/// many members are new, each counted once, and `ZCARD` grows by as many; the
/// set keeps its end. Without a set the members become one. A score that is no
/// finite number is refused, and so is everything at the limit.
pub proof fn law_zadd_sets(s: StoreView, db_id: u16, key: Vec<u8>, members: Vec<ZSetMember>, now: u64, z: Seq<(u64, Seq<u8>)>, member: Vec<u8>)
    ensures
        ({
            let c = DataCommand::ZAdd { key, members };
            let xs = member_views(members@);
            let t = after(s, c, db_id, now);
            let zscore = DataCommand::ZScore { key, member };
            &&& s.used >= s.limit ==> t == s && said(s, c, db_id, now) == Err::<ReplyView, ErrorView>(ErrorView::OutOfMemory)
            &&& s.used < s.limit && !scores_are_numbers(xs) ==> t == s && said(s, c, db_id, now) == Err::<
                ReplyView,
                ErrorView,
            >(ErrorView::Protocol("NaN or Inf scores are not allowed in sorted sets"@))
            &&& s.used < s.limit && scores_are_numbers(xs) && missing(s, db_id, key, now) ==> {
                &&& said(s, c, db_id, now) == Ok::<ReplyView, ErrorView>(ReplyView::Count(members@.len() as int))
                &&& gives(t, db_id, key, now, ValueView::ZSet(xs))
            }
            &&& s.used < s.limit && scores_are_numbers(xs) && gives(s, db_id, key, now, ValueView::ZSet(z)) ==> {
                &&& new_members(z, xs).finite()
                &&& said(s, c, db_id, now) == Ok::<ReplyView, ErrorView>(ReplyView::Count(new_members(z, xs).len() as int))
                &&& said(t, zscore, db_id, now) == match scored_last(xs, member@) {
                    Some(x) => Ok::<ReplyView, ErrorView>(ReplyView::Score(x)),
                    None => said(s, zscore, db_id, now),
                }
                &&& said(t, DataCommand::ZCard { key }, db_id, now) == Ok::<ReplyView, ErrorView>(
                    ReplyView::Count((z.len() + new_members(z, xs).len()) as int),
                )
                &&& said(t, DataCommand::Ttl { key }, db_id, now) == said(s, DataCommand::Ttl { key }, db_id, now)
            }
        }),
{
    let xs = member_views(members@);
    lemma_new_members(z, xs);
    lemma_scores_set(z, xs, member@);
    assert(crate::data::all_finite(xs) == scores_are_numbers(xs)) by {
        if crate::data::all_finite(xs) {
            assert forall|i: int| 0 <= i < xs.len() implies ((#[trigger] xs[i]).0 < 0x7ff0_0000_0000_0000
                || 0x8000_0000_0000_0000 <= xs[i].0 < 0xfff0_0000_0000_0000) by {
                assert(crate::data::is_finite(xs[i].0));
            }
        }
    }
}

/// `ZREM` takes just the given members out of a set and answers how many went;
/// the others keep their places, their scores and their end.
pub proof fn law_zrem_removes(s: StoreView, db_id: u16, key: Vec<u8>, members: Vec<Vec<u8>>, now: u64, z: Seq<(u64, Seq<u8>)>)
    ensures
        ({
            let c = DataCommand::ZRem { key, members };
            let t = after(s, c, db_id, now);
            let left = z.filter(|m: (u64, Seq<u8>)| !views(members@).contains(m.1));
            &&& missing(s, db_id, key, now) ==> said(s, c, db_id, now) == Ok::<ReplyView, ErrorView>(ReplyView::Count(0))
            &&& gives(s, db_id, key, now, ValueView::ZSet(z)) ==> {
                &&& gives(t, db_id, key, now, ValueView::ZSet(left))
                &&& said(s, c, db_id, now) == Ok::<ReplyView, ErrorView>(ReplyView::Count(z.len() - left.len()))
                &&& said(t, DataCommand::Ttl { key }, db_id, now) == said(s, DataCommand::Ttl { key }, db_id, now)
            }
        }),
{
}

/// Commands on sorted sets do not work on values of another form, nor do they
/// change them.
pub proof fn law_no_sorted_set_is_left(s: StoreView, db_id: u16, key: Vec<u8>, now: u64, v: ValueView, members: Vec<ZSetMember>, gone: Vec<Vec<u8>>, member: Vec<u8>, start: i64, stop: i64, with_scores: bool, min: u64, max: u64)
    requires
        gives(s, db_id, key, now, v),
        v !is ZSet,
    ensures
        s.ran(DataCommand::ZAdd { key, members }, db_id, now).0 == s,
        s.ran(DataCommand::ZRem { key, members: gone }, db_id, now).0 == s,
        said(s, DataCommand::ZRem { key, members: gone }, db_id, now) == Ok::<ReplyView, ErrorView>(ReplyView::Count(0)),
        said(s, DataCommand::ZCard { key }, db_id, now) == Ok::<ReplyView, ErrorView>(ReplyView::Count(0)),
        said(s, DataCommand::ZScore { key, member }, db_id, now) == Err::<ReplyView, ErrorView>(ErrorView::KeyNotFound),
        said(s, DataCommand::ZRank { key, member }, db_id, now) == Err::<ReplyView, ErrorView>(ErrorView::KeyNotFound),
        said(s, DataCommand::ZRange { key, start, stop, with_scores }, db_id, now) matches Err(ErrorView::WrongType(want, _))
            && want == "zset"@,
        said(s, DataCommand::ZRangeByScore { key, min, max }, db_id, now) matches Err(ErrorView::WrongType(want, _)) && want
            == "zset"@,
{
}

/// A range without members is an empty list, whether scores are asked for or
/// not: where there is no key, and where the range begins beyond the end. A key
/// of another form is answered with an error.
pub proof fn law_zrange_without_members(
    s: StoreView,
    db_id: u16,
    key: Vec<u8>,
    start: i64,
    stop: i64,
    with_scores: bool,
    now: u64,
    v: ValueView,
)
    ensures
        ({
            let r = said(s, DataCommand::ZRange { key, start, stop, with_scores }, db_id, now);
            &&& missing(s, db_id, key, now) ==> r == Ok::<ReplyView, ErrorView>(ReplyView::BytesList(Seq::empty()))
            &&& gives(s, db_id, key, now, v) ==> match v {
                ValueView::ZSet(z) => start >= z.len() ==> r == Ok::<ReplyView, ErrorView>(
                    ReplyView::BytesList(Seq::empty()),
                ),
                other => r is Err,
            }
        }),
{
    if let ValueView::ZSet(z) = v {
        law_sort_keeps_items(z, score_leq());
        let t = by_score(z);
        t.to_multiset_ensures();
        z.to_multiset_ensures();
        assert(t.len() == z.len());
        assert(names(Seq::<(u64, Seq<u8>)>::empty()) =~= Seq::<Seq<u8>>::empty());
    }
}

} // verus!
