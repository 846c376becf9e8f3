//! What commands on lists and hashes answer, told by what other commands
//! answer.

use vstd::prelude::*;

use crate::bytes::{pair_views, views};
use crate::commands::DataCommand;
use crate::data::{
    field_value, first_field, is_first_field, law_field_reads_back, law_field_removed, pushed, range_of, with_fields,
};
use crate::key_laws::{after, gives, missing, said};
use crate::reply::ReplyView;
use crate::store::StoreView;
use crate::value::{ErrorView, ValueView};

verus! {

// ---- ranges ----

/// Places count from zero at the start: a range within a sequence holds the
/// items from its first place to its last, both included. A last place beyond
/// the end stands for the end. A range that begins beyond the end, or behind
/// its own last place, is empty.
pub proof fn law_range_counts_from_start<A>(s: Seq<A>, a: int, b: int)
    requires
        0 <= a,
        0 <= b,
    ensures
        a <= b < s.len() ==> range_of(s, a, b).len() == b - a + 1,
        a <= b < s.len() ==> forall|i: int| 0 <= i <= b - a ==> #[trigger] range_of(s, a, b)[i] == s[a + i],
        s.len() > 0 && b >= s.len() ==> range_of(s, a, b) == range_of(s, a, s.len() - 1),
        a >= s.len() || a > b ==> range_of(s, a, b).len() == 0,
{
}

/// Places below zero count from the end: -1 is the last place, and the place -k
/// is the place `len - k`. One that lies before the start stands for the start.
pub proof fn law_range_counts_from_end<A>(s: Seq<A>, k: int, other: int)
    requires
        1 <= k,
    ensures
        k <= s.len() ==> range_of(s, -k, other) == range_of(s, s.len() - k, other),
        k <= s.len() ==> range_of(s, other, -k) == range_of(s, other, s.len() - k),
        k > s.len() ==> range_of(s, -k, other) == range_of(s, 0, other),
        k > s.len() ==> range_of(s, other, -k) == range_of(s, other, 0),
        k <= s.len() ==> range_of(s, -k, -1) == s.skip(s.len() - k),
        range_of(s, 0, -1) == s,
{
    if k <= s.len() {
        assert(range_of(s, -k, -1) =~= s.skip(s.len() - k));
    }
    assert(range_of(s, 0, -1) =~= s);
}

/// `LRANGE` answers a range of the list that `GET` gives: item by item from the
/// start, from the end for places below zero, cut at the end, and empty where
/// the list is missing.
pub proof fn law_lrange_answers(s: StoreView, db_id: u16, key: Vec<u8>, start: i64, stop: i64, now: u64, l: Seq<Seq<u8>>)
    ensures
        missing(s, db_id, key, now) ==> said(s, DataCommand::LRange { key, start, stop }, db_id, now) == Ok::<
            ReplyView,
            ErrorView,
        >(ReplyView::BytesList(Seq::empty())),
        gives(s, db_id, key, now, ValueView::List(l)) ==> (said(s, DataCommand::LRange { key, start, stop }, db_id, now)
            matches Ok(ReplyView::BytesList(r)) && {
            let first: int = if start >= 0 {
                start as int
            } else if l.len() + start >= 0 {
                l.len() + start
            } else {
                0
            };
            let last: int = if stop >= l.len() {
                l.len() - 1
            } else if stop >= 0 {
                stop as int
            } else if l.len() + stop >= 0 {
                l.len() + stop
            } else if l.len() > 0 {
                0
            } else {
                -1
            };
            &&& r.len() == if first <= last {
                last - first + 1
            } else {
                0
            }
            &&& forall|i: int| 0 <= i < r.len() ==> #[trigger] r[i] == l[first + i]
        }),
{
}

/// The last `k` items of a list are the range from -k to -1, and all of them
/// the range from 0 to -1.
pub proof fn law_lrange_last_items(s: StoreView, db_id: u16, key: Vec<u8>, k: i64, now: u64, l: Seq<Seq<u8>>)
    requires
        gives(s, db_id, key, now, ValueView::List(l)),
        1 <= k <= l.len(),
    ensures
        said(s, DataCommand::LRange { key, start: (-k) as i64, stop: (-1) as i64 }, db_id, now) == Ok::<ReplyView, ErrorView>(
            ReplyView::BytesList(l.skip(l.len() - k)),
        ),
        said(s, DataCommand::LRange { key, start: 0, stop: (-1) as i64 }, db_id, now) == Ok::<ReplyView, ErrorView>(
            ReplyView::BytesList(l),
        ),
{
    law_range_counts_from_end(l, k as int, 0);
}

// ---- lists ----

/// `RPUSH` puts values behind a list in their order, `LPUSH` before it one
/// after the other, so that the last stands first. Both answer the new length
/// and begin a list where there is none; a list keeps its end.
pub proof fn law_push_extends(s: StoreView, db_id: u16, key: Vec<u8>, values: Vec<Vec<u8>>, now: u64, l: Seq<Seq<u8>>)
    requires
        s.used < s.limit,
        gives(s, db_id, key, now, ValueView::List(l)) || missing(s, db_id, key, now) && l.len() == 0,
    ensures
        ({
            let r = after(s, DataCommand::RPush { key, values }, db_id, now);
            let f = after(s, DataCommand::LPush { key, values }, db_id, now);
            let n = values@.len();
            let answer = Ok::<ReplyView, ErrorView>(ReplyView::Count((l.len() + n) as int));
            &&& said(s, DataCommand::RPush { key, values }, db_id, now) == answer
            &&& said(s, DataCommand::LPush { key, values }, db_id, now) == answer
            &&& gives(r, db_id, key, now, ValueView::List(l + views(values@)))
            &&& gives(f, db_id, key, now, ValueView::List(Seq::new(n, |i: int| values@[n - 1 - i]@) + l))
            &&& !missing(s, db_id, key, now) ==> said(r, DataCommand::Ttl { key }, db_id, now) == said(
                s,
                DataCommand::Ttl { key },
                db_id,
                now,
            )
            &&& !missing(s, db_id, key, now) ==> said(f, DataCommand::Ttl { key }, db_id, now) == said(
                s,
                DataCommand::Ttl { key },
                db_id,
                now,
            )
        }),
{
    let v = views(values@);
    let n = values@.len();
    assert(v.reverse() =~= Seq::new(n, |i: int| values@[n - 1 - i]@));
    assert(pushed(l, v, false) =~= l + v);
    assert(pushed(l, v, true) =~= Seq::new(n, |i: int| values@[n - 1 - i]@) + l);
    if missing(s, db_id, key, now) {
        assert(l =~= Seq::empty());
    }
}

/// At the limit of the pool nothing is pushed.
pub proof fn law_push_at_limit(s: StoreView, db_id: u16, key: Vec<u8>, values: Vec<Vec<u8>>, now: u64)
    requires
        s.used >= s.limit,
    ensures
        s.ran(DataCommand::RPush { key, values }, db_id, now).0 == s,
        s.ran(DataCommand::LPush { key, values }, db_id, now).0 == s,
        said(s, DataCommand::RPush { key, values }, db_id, now) == Err::<ReplyView, ErrorView>(ErrorView::OutOfMemory),
        said(s, DataCommand::LPush { key, values }, db_id, now) == Err::<ReplyView, ErrorView>(ErrorView::OutOfMemory),
{
}

/// `LPOP` answers the first item of a list and `RPOP` the last, and the list
/// goes on without it. From an empty list, or none, nothing is taken.
pub proof fn law_pop_takes_the_end(s: StoreView, db_id: u16, key: Vec<u8>, now: u64, l: Seq<Seq<u8>>)
    ensures
        gives(s, db_id, key, now, ValueView::List(l)) && l.len() > 0 ==> {
            &&& said(s, DataCommand::LPop { key }, db_id, now) == Ok::<ReplyView, ErrorView>(ReplyView::Bytes(l[0]))
            &&& said(s, DataCommand::RPop { key }, db_id, now) == Ok::<ReplyView, ErrorView>(
                ReplyView::Bytes(l[l.len() - 1]),
            )
            &&& gives(after(s, DataCommand::LPop { key }, db_id, now), db_id, key, now, ValueView::List(l.skip(1)))
            &&& gives(
                after(s, DataCommand::RPop { key }, db_id, now),
                db_id,
                key,
                now,
                ValueView::List(l.take(l.len() - 1)),
            )
            &&& said(after(s, DataCommand::LPop { key }, db_id, now), DataCommand::Ttl { key }, db_id, now) == said(
                s,
                DataCommand::Ttl { key },
                db_id,
                now,
            )
            &&& said(after(s, DataCommand::RPop { key }, db_id, now), DataCommand::Ttl { key }, db_id, now) == said(
                s,
                DataCommand::Ttl { key },
                db_id,
                now,
            )
        },
        missing(s, db_id, key, now) || gives(s, db_id, key, now, ValueView::List(Seq::empty())) ==> {
            &&& said(s, DataCommand::LPop { key }, db_id, now) == Err::<ReplyView, ErrorView>(ErrorView::KeyNotFound)
            &&& said(s, DataCommand::RPop { key }, db_id, now) == Err::<ReplyView, ErrorView>(ErrorView::KeyNotFound)
        },
{
    if l.len() > 0 {
        assert(l.drop_first() =~= l.skip(1));
        assert(l.drop_last() =~= l.take(l.len() - 1));
    }
}

/// Commands on lists and hashes do not work on values of another form, nor do
/// they change them.
pub proof fn law_other_forms_are_left(s: StoreView, db_id: u16, key: Vec<u8>, now: u64, v: ValueView, values: Vec<Vec<u8>>, start: i64, stop: i64, pairs: Vec<(Vec<u8>, Vec<u8>)>, field: Vec<u8>)
    requires
        gives(s, db_id, key, now, v),
        s.used < s.limit,
    ensures
        v !is List ==> {
            &&& s.ran(DataCommand::RPush { key, values }, db_id, now).0 == s
            &&& s.ran(DataCommand::LPush { key, values }, db_id, now).0 == s
            &&& s.ran(DataCommand::RPop { key }, db_id, now).0 == s
            &&& s.ran(DataCommand::LPop { key }, db_id, now).0 == s
            &&& said(s, DataCommand::RPush { key, values }, db_id, now) == Ok::<ReplyView, ErrorView>(ReplyView::Count(0))
            &&& said(s, DataCommand::LPush { key, values }, db_id, now) == Ok::<ReplyView, ErrorView>(ReplyView::Count(0))
            &&& said(s, DataCommand::RPop { key }, db_id, now) == Err::<ReplyView, ErrorView>(ErrorView::KeyNotFound)
            &&& said(s, DataCommand::LPop { key }, db_id, now) == Err::<ReplyView, ErrorView>(ErrorView::KeyNotFound)
            &&& said(s, DataCommand::LRange { key, start, stop }, db_id, now) matches Err(ErrorView::WrongType(want, _))
                && want == "list"@
        },
        v !is Hash ==> {
            &&& s.ran(DataCommand::HSet { key, pairs }, db_id, now).0 == s
            &&& s.ran(DataCommand::HDel { key, fields: values }, db_id, now).0 == s
            &&& said(s, DataCommand::HSet { key, pairs }, db_id, now) == Ok::<ReplyView, ErrorView>(ReplyView::Count(0))
            &&& said(s, DataCommand::HDel { key, fields: values }, db_id, now) == Ok::<ReplyView, ErrorView>(
                ReplyView::Count(0),
            )
            &&& said(s, DataCommand::HGet { key, field }, db_id, now) matches Err(ErrorView::WrongType(want, _)) && want
                == "hash"@
            &&& said(s, DataCommand::HGetAll { key }, db_id, now) matches Err(ErrorView::WrongType(want, _)) && want
                == "hash"@
        },
{
}

// ---- hashes ----

/// `HGET` answers the value that stands with a field in the hash that `GET`
/// gives, the first where the field comes twice, and finds nothing for a field
/// that is not there or without a hash. `HGETALL` answers all of them.
pub proof fn law_hget_answers(s: StoreView, db_id: u16, key: Vec<u8>, field: Vec<u8>, now: u64, h: Seq<(Seq<u8>, Seq<u8>)>, i: int)
    ensures
        missing(s, db_id, key, now) ==> {
            &&& said(s, DataCommand::HGet { key, field }, db_id, now) == Err::<ReplyView, ErrorView>(ErrorView::KeyNotFound)
            &&& said(s, DataCommand::HGetAll { key }, db_id, now) == Ok::<ReplyView, ErrorView>(
                ReplyView::Pairs(Seq::empty()),
            )
        },
        gives(s, db_id, key, now, ValueView::Hash(h)) ==> {
            &&& said(s, DataCommand::HGetAll { key }, db_id, now) == Ok::<ReplyView, ErrorView>(ReplyView::Pairs(h))
            &&& 0 <= i < h.len() && h[i].0 == field@ && (forall|j: int| 0 <= j < i ==> (#[trigger] h[j]).0 != field@)
                ==> said(s, DataCommand::HGet { key, field }, db_id, now) == Ok::<ReplyView, ErrorView>(
                ReplyView::Bytes(h[i].1),
            )
            &&& (forall|j: int| 0 <= j < h.len() ==> (#[trigger] h[j]).0 != field@) ==> said(
                s,
                DataCommand::HGet { key, field },
                db_id,
                now,
            ) == Err::<ReplyView, ErrorView>(ErrorView::KeyNotFound)
        },
{
    if gives(s, db_id, key, now, ValueView::Hash(h)) {
        let k = first_field(h, field@);
        if 0 <= i < h.len() && h[i].0 == field@ && (forall|j: int| 0 <= j < i ==> (#[trigger] h[j]).0 != field@) {
            assert(is_first_field(h, field@, i));
            if k < i {
                assert(h[k].0 != field@);
            } else if i < k {
                assert(h[i].0 != field@);
            }
        }
        if forall|j: int| 0 <= j < h.len() ==> (#[trigger] h[j]).0 != field@ {
            assert(is_first_field(h, field@, h.len() as int));
            if k < h.len() {
                assert(h[k].0 != field@);
            }
        }
    }
}

/// The value that is given last for a name.
pub open spec fn given_last(pairs: Seq<(Seq<u8>, Seq<u8>)>, name: Seq<u8>) -> Option<Seq<u8>>
    decreases pairs.len(),
{
    if pairs.len() == 0 {
        None
    } else if pairs.last().0 == name {
        Some(pairs.last().1)
    } else {
        given_last(pairs.drop_last(), name)
    }
}

proof fn lemma_fields_set(h: Seq<(Seq<u8>, Seq<u8>)>, pairs: Seq<(Seq<u8>, Seq<u8>)>, g: Seq<u8>)
    ensures
        field_value(with_fields(h, pairs), g) == match given_last(pairs, g) {
            Some(v) => Some(v),
            None => field_value(h, g),
        },
    decreases pairs.len(),
{
    if pairs.len() > 0 {
        lemma_fields_set(h, pairs.drop_last(), g);
        law_field_reads_back(with_fields(h, pairs.drop_last()), pairs.last().0, pairs.last().1, g);
    }
}

proof fn lemma_has_field(h: Seq<(Seq<u8>, Seq<u8>)>, f: Seq<u8>)
    ensures
        field_value(h, f) is Some <==> exists|i: int| 0 <= i < h.len() && (#[trigger] h[i]).0 == f,
{
    lemma_first_exists(h, f);
}

proof fn lemma_first_exists(h: Seq<(Seq<u8>, Seq<u8>)>, f: Seq<u8>)
    ensures
        is_first_field(h, f, first_field(h, f)),
    decreases h.len(),
{
    if h.len() == 0 {
        assert(is_first_field(h, f, 0));
    } else {
        let t = h.drop_last();
        assert(forall|j: int| 0 <= j < t.len() ==> #[trigger] h[j] == t[j]);
        lemma_first_exists(t, f);
        let i = first_field(t, f);
        if i < t.len() {
            assert(is_first_field(h, f, i));
        } else if h.last().0 == f {
            assert(is_first_field(h, f, h.len() - 1));
        } else {
            assert(is_first_field(h, f, h.len() as int));
        }
    }
}

/// The fields that pairs bring and a hash does not have.
pub open spec fn new_fields(h: Seq<(Seq<u8>, Seq<u8>)>, pairs: Seq<(Seq<u8>, Seq<u8>)>) -> Set<Seq<u8>> {
    Set::new(
        |f: Seq<u8>|
            (exists|i: int| 0 <= i < pairs.len() && (#[trigger] pairs[i]).0 == f) && forall|j: int|
                0 <= j < h.len() ==> (#[trigger] h[j]).0 != f,
    )
}

proof fn lemma_new_fields(h: Seq<(Seq<u8>, Seq<u8>)>, pairs: Seq<(Seq<u8>, Seq<u8>)>)
    ensures
        new_fields(h, pairs).finite(),
        with_fields(h, pairs).len() == h.len() + new_fields(h, pairs).len(),
    decreases pairs.len(),
{
    let all = new_fields(h, pairs);
    if pairs.len() == 0 {
        assert(all =~= Set::empty());
    } else {
        let p = pairs.drop_last();
        let f = pairs.last().0;
        let mid = with_fields(h, p);
        lemma_new_fields(h, p);
        lemma_fields_set(h, p, f);
        lemma_has_field(mid, f);
        lemma_has_field(h, f);
        lemma_given(p, f);
        let before = new_fields(h, p);
        assert forall|g: Seq<u8>| #[trigger] all.contains(g) <==> before.contains(g) || g == f && (forall|j: int|
            0 <= j < h.len() ==> (#[trigger] h[j]).0 != f) by {
            if all.contains(g) {
                let i = choose|i: int| 0 <= i < pairs.len() && (#[trigger] pairs[i]).0 == g;
                if i < p.len() {
                    assert(p[i].0 == g);
                }
            }
            if before.contains(g) {
                let i = choose|i: int| 0 <= i < p.len() && (#[trigger] p[i]).0 == g;
                assert(pairs[i].0 == g);
            }
            if g == f {
                assert(pairs[pairs.len() - 1].0 == f);
            }
        }
        lemma_first_exists(mid, f);
        if first_field(mid, f) < mid.len() {
            assert(field_value(mid, f) is Some);
            assert(all =~= before);
        } else {
            assert(field_value(mid, f) is None);
            assert(!before.contains(f));
            assert(all =~= before.insert(f));
        }
    }
}

proof fn lemma_given(pairs: Seq<(Seq<u8>, Seq<u8>)>, f: Seq<u8>)
    ensures
        given_last(pairs, f) is Some <==> exists|i: int| 0 <= i < pairs.len() && (#[trigger] pairs[i]).0 == f,
    decreases pairs.len(),
{
    if pairs.len() > 0 {
        let p = pairs.drop_last();
        lemma_given(p, f);
        assert(forall|j: int| 0 <= j < p.len() ==> #[trigger] p[j] == pairs[j]);
        if pairs.last().0 == f {
            assert(pairs[pairs.len() - 1].0 == f);
        } else if exists|i: int| 0 <= i < pairs.len() && (#[trigger] pairs[i]).0 == f {
            let i = choose|i: int| 0 <= i < pairs.len() && (#[trigger] pairs[i]).0 == f;
            assert(p[i].0 == f);
        }
    }
}

/// `HSET` on a hash makes `HGET` answer, for each field that is given, the value
/// that is given last, and what it did for the others. It answers how many
/// fields are new, each counted once, and the hash grows by as many and keeps
/// its end. Without a hash the pairs become one. At the limit nothing happens.
pub proof fn law_hset_sets(s: StoreView, db_id: u16, key: Vec<u8>, pairs: Vec<(Vec<u8>, Vec<u8>)>, now: u64, h: Seq<(Seq<u8>, Seq<u8>)>, field: Vec<u8>)
    ensures
        ({
            let c = DataCommand::HSet { key, pairs };
            let t = after(s, c, db_id, now);
            let hget = DataCommand::HGet { key, field };
            &&& s.used >= s.limit ==> t == s && said(s, c, db_id, now) == Err::<ReplyView, ErrorView>(ErrorView::OutOfMemory)
            &&& s.used < s.limit && missing(s, db_id, key, now) ==> {
                &&& said(s, c, db_id, now) == Ok::<ReplyView, ErrorView>(ReplyView::Count(pairs@.len() as int))
                &&& gives(t, db_id, key, now, ValueView::Hash(pair_views(pairs@)))
            }
            &&& s.used < s.limit && gives(s, db_id, key, now, ValueView::Hash(h)) ==> {
                &&& new_fields(h, pair_views(pairs@)).finite()
                &&& said(s, c, db_id, now) == Ok::<ReplyView, ErrorView>(
                    ReplyView::Count(new_fields(h, pair_views(pairs@)).len() as int),
                )
                &&& said(t, hget, db_id, now) == match given_last(pair_views(pairs@), field@) {
                    Some(v) => Ok::<ReplyView, ErrorView>(ReplyView::Bytes(v)),
                    None => said(s, hget, db_id, now),
                }
                &&& said(t, DataCommand::HGetAll { key }, db_id, now) matches Ok(ReplyView::Pairs(x)) && x.len() == h.len()
                    + new_fields(h, pair_views(pairs@)).len()
                &&& said(t, DataCommand::Ttl { key }, db_id, now) == said(s, DataCommand::Ttl { key }, db_id, now)
            }
        }),
{
    lemma_new_fields(h, pair_views(pairs@));
    lemma_fields_set(h, pair_views(pairs@), field@);
}

/// `HDEL` takes just the given fields out of a hash and answers how many pairs
/// went; the others keep their order, their values and their end.
pub proof fn law_hdel_removes(s: StoreView, db_id: u16, key: Vec<u8>, fields: Vec<Vec<u8>>, now: u64, h: Seq<(Seq<u8>, Seq<u8>)>, field: Vec<u8>)
    ensures
        ({
            let c = DataCommand::HDel { key, fields };
            let t = after(s, c, db_id, now);
            let left = h.filter(|p: (Seq<u8>, Seq<u8>)| !views(fields@).contains(p.0));
            &&& missing(s, db_id, key, now) ==> said(s, c, db_id, now) == Ok::<ReplyView, ErrorView>(ReplyView::Count(0))
            &&& gives(s, db_id, key, now, ValueView::Hash(h)) ==> {
                &&& gives(t, db_id, key, now, ValueView::Hash(left))
                &&& said(s, c, db_id, now) == Ok::<ReplyView, ErrorView>(ReplyView::Count(h.len() - left.len()))
                &&& said(t, DataCommand::HGet { key, field }, db_id, now) == if views(fields@).contains(field@) {
                    Err::<ReplyView, ErrorView>(ErrorView::KeyNotFound)
                } else {
                    said(s, DataCommand::HGet { key, field }, db_id, now)
                }
                &&& said(t, DataCommand::Ttl { key }, db_id, now) == said(s, DataCommand::Ttl { key }, db_id, now)
            }
        }),
{
    law_field_removed(h, views(fields@), field@);
}

} // verus!
