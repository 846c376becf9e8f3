//! What commands on keys, their times and their numbers answer, told by what
//! other commands answer.

use vstd::prelude::*;

use crate::bytes::views;
use crate::commands::DataCommand;
use crate::num::{all_digits, decimal_i64, digits_value};
use crate::pool::{db_key, law_databases_isolated};
use crate::reply::ReplyView;
use crate::store::{triple_views, StoreView};
use crate::value::{ErrorView, Value, ValueView};

verus! {

/// What `GET` answers.
pub open spec fn got(s: StoreView, db_id: u16, key: Vec<u8>, now: u64) -> Result<ReplyView, ErrorView> {
    s.ran(DataCommand::Get { key }, db_id, now).1
}

/// `GET` gives a value.
pub open spec fn gives(s: StoreView, db_id: u16, key: Vec<u8>, now: u64, v: ValueView) -> bool {
    got(s, db_id, key, now) == Ok::<ReplyView, ErrorView>(ReplyView::Value(v))
}

/// `GET` finds no key.
pub open spec fn missing(s: StoreView, db_id: u16, key: Vec<u8>, now: u64) -> bool {
    got(s, db_id, key, now) == Err::<ReplyView, ErrorView>(ErrorView::KeyNotFound)
}

/// What a command leaves.
pub open spec fn after(s: StoreView, c: DataCommand, db_id: u16, now: u64) -> StoreView {
    s.ran(c, db_id, now).0
}

/// What a command answers.
pub open spec fn said(s: StoreView, c: DataCommand, db_id: u16, now: u64) -> Result<ReplyView, ErrorView> {
    s.ran(c, db_id, now).1
}

/// `GET` either gives a value or finds no key. `EXISTS`, `TYPE`, `TTL` and
/// `MEMORY USAGE` agree with it on whether the key is there.
pub proof fn law_there_or_not(s: StoreView, db_id: u16, key: Vec<u8>, now: u64)
    ensures
        missing(s, db_id, key, now) || exists|v: ValueView| gives(s, db_id, key, now, v),
        said(s, DataCommand::Exists { key }, db_id, now) == Ok::<ReplyView, ErrorView>(
            ReplyView::Flag(!missing(s, db_id, key, now)),
        ),
        missing(s, db_id, key, now) <==> said(s, DataCommand::Type { key }, db_id, now) == Ok::<ReplyView, ErrorView>(
            ReplyView::Text("none"@),
        ),
        missing(s, db_id, key, now) <==> said(s, DataCommand::Ttl { key }, db_id, now) == Ok::<ReplyView, ErrorView>(
            ReplyView::Number(-2),
        ),
        missing(s, db_id, key, now) <==> said(s, DataCommand::MemoryUsage { key }, db_id, now) == Err::<
            ReplyView,
            ErrorView,
        >(ErrorView::KeyNotFound),
{
    reveal_strlit("none");
    reveal_strlit("string");
    reveal_strlit("hash");
    reveal_strlit("list");
    reveal_strlit("zset");
    reveal_strlit("counter");
    reveal_strlit("json");
    let k = db_key(db_id, key@);
    match s.live(k, now) {
        None => {},
        Some(e) => {
            assert(gives(s, db_id, key, now, e.value));
            let kind = e.value.kind();
            assert(kind[0] != 'n') by {
                match e.value {
                    ValueView::String(_) => assert("string"@[0] == 's'),
                    ValueView::Hash(_) => assert("hash"@[0] == 'h'),
                    ValueView::List(_) => assert("list"@[0] == 'l'),
                    ValueView::ZSet(_) => assert("zset"@[0] == 'z'),
                    ValueView::Counter(_) => assert("counter"@[0] == 'c'),
                    ValueView::Json(_) => assert("json"@[0] == 'j'),
                }
            }
            assert("none"@[0] == 'n');
        },
    }
}

/// `TYPE` names the form of the value that `GET` gives.
pub proof fn law_type_names_the_value(s: StoreView, db_id: u16, key: Vec<u8>, now: u64, v: ValueView)
    requires
        gives(s, db_id, key, now, v),
    ensures
        said(s, DataCommand::Type { key }, db_id, now) == Ok::<ReplyView, ErrorView>(
            ReplyView::Text(
                match v {
                    ValueView::String(_) => "string"@,
                    ValueView::Hash(_) => "hash"@,
                    ValueView::List(_) => "list"@,
                    ValueView::ZSet(_) => "zset"@,
                    ValueView::Counter(_) => "counter"@,
                    ValueView::Json(_) => "json"@,
                },
            ),
        ),
{
}

/// `SET` succeeds as long as the bytes in use are below the limit, and then
/// `GET` gives the value until the time to live is over, and no longer. `TTL`
/// tells the whole seconds that are left, or -1 where there is no end. No other
/// key is touched. At the limit nothing happens.
pub proof fn law_set_answers(
    s: StoreView,
    db_id: u16,
    key: Vec<u8>,
    value: Value,
    ttl_ms: u64,
    now: u64,
    later: u64,
    other_db: u16,
    other: Vec<u8>,
)
    requires
        now + ttl_ms < u64::MAX,
        now <= later,
    ensures
        ({
            let c = DataCommand::SetKey { key, value, ttl_ms };
            let t = after(s, c, db_id, now);
            if s.used < s.limit {
                &&& said(s, c, db_id, now) == Ok::<ReplyView, ErrorView>(ReplyView::Text("OK"@))
                &&& ttl_ms == 0 || later < now + ttl_ms ==> gives(t, db_id, key, later, value@)
                &&& ttl_ms > 0 && later >= now + ttl_ms ==> missing(t, db_id, key, later)
                &&& ttl_ms == 0 ==> said(t, DataCommand::Ttl { key }, db_id, later) == Ok::<ReplyView, ErrorView>(
                    ReplyView::Number(-1),
                )
                &&& ttl_ms > 0 && later < now + ttl_ms <= i64::MAX ==> said(t, DataCommand::Ttl { key }, db_id, later) == Ok::<
                    ReplyView,
                    ErrorView,
                >(ReplyView::Number((now + ttl_ms - later) / 1000))
                &&& other_db != db_id || other@ != key@ ==> got(t, other_db, other, later) == got(s, other_db, other, later)
            } else {
                t == s && said(s, c, db_id, now) == Err::<ReplyView, ErrorView>(ErrorView::OutOfMemory)
            }
        }),
{
    law_databases_isolated(other_db, other@, db_id, key@);
}

/// `EXPIRE` gives a key an end that depends on the time and the seconds alone,
/// whatever end it had or had not: `GET` gives the same value before that end
/// and finds no key from then on, and `TTL` answers the seconds. A key that is
/// not there gets no end.
pub proof fn law_expire_sets_the_end(s: StoreView, db_id: u16, key: Vec<u8>, seconds: u64, now: u64, v: ValueView, later: u64)
    requires
        now + seconds * 1000 <= u64::MAX,
        now <= later,
        now + seconds * 1000 > 0,
    ensures
        ({
            let c = DataCommand::Expire { key, seconds };
            let t = after(s, c, db_id, now);
            &&& missing(s, db_id, key, now) ==> {
                &&& said(s, c, db_id, now) == Ok::<ReplyView, ErrorView>(ReplyView::Count(0))
                &&& missing(t, db_id, key, later)
            }
            &&& gives(s, db_id, key, now, v) ==> {
                &&& said(s, c, db_id, now) == Ok::<ReplyView, ErrorView>(ReplyView::Count(1))
                &&& later < now + seconds * 1000 ==> gives(t, db_id, key, later, v)
                &&& later >= now + seconds * 1000 ==> missing(t, db_id, key, later)
                &&& 0 < seconds && seconds * 1000 <= i64::MAX ==> said(t, DataCommand::Ttl { key }, db_id, now) == Ok::<
                    ReplyView,
                    ErrorView,
                >(ReplyView::Number(seconds as int))
                &&& later < now + seconds * 1000 && seconds * 1000 <= i64::MAX ==> said(
                    t,
                    DataCommand::Ttl { key },
                    db_id,
                    later,
                ) == Ok::<ReplyView, ErrorView>(ReplyView::Number((now + seconds * 1000 - later) / 1000))
            }
        }),
{
}

/// The end that `EXPIRE` gives is replicated: a store that applies what was
/// replicated holds the value to the same end.
pub proof fn law_expire_replicates(s: StoreView, replica: StoreView, db_id: u16, key: Vec<u8>, seconds: u64, now: u64, v: ValueView, later: u64)
    requires
        0 < seconds,
        now + seconds * 1000 < u64::MAX,
        now <= later,
        gives(s, db_id, key, now, v),
    ensures
        ({
            let p = s.ran(DataCommand::Expire { key, seconds }, db_id, now).2;
            &&& p.len() == 1
            &&& got(replica.applied(p[0], now), db_id, key, later) == got(
                after(s, DataCommand::Expire { key, seconds }, db_id, now),
                db_id,
                key,
                later,
            )
        }),
{
}

/// `GETSET` answers what `GET` would have, or that there was nothing; then
/// `GET` gives the new value, without end.
pub proof fn law_getset_swaps(s: StoreView, db_id: u16, key: Vec<u8>, value: Value, now: u64, v: ValueView, later: u64)
    ensures
        ({
            let c = DataCommand::GetSet { key, value };
            let t = after(s, c, db_id, now);
            &&& gives(s, db_id, key, now, v) ==> said(s, c, db_id, now) == Ok::<ReplyView, ErrorView>(ReplyView::Value(v))
            &&& missing(s, db_id, key, now) ==> said(s, c, db_id, now) == Ok::<ReplyView, ErrorView>(ReplyView::NoValue)
            &&& gives(t, db_id, key, later, value@)
            &&& said(t, DataCommand::Ttl { key }, db_id, later) == Ok::<ReplyView, ErrorView>(ReplyView::Number(-1))
        }),
{
}

proof fn lemma_read_all(s: StoreView, db_id: u16, keys: Seq<Seq<u8>>, now: u64)
    ensures
        s.read_all(db_id, keys, now).1.len() == keys.len(),
        forall|i: int|
            0 <= i < keys.len() ==> (#[trigger] s.read_all(db_id, keys, now).1[i]) == match s.live(
                db_key(db_id, keys[i]),
                now,
            ) {
                Some(e) => Some(e.value),
                None => None,
            },
        forall|k: Seq<u8>|
            match s.live(k, now) {
                Some(e) => (#[trigger] s.read_all(db_id, keys, now).0.live(k, now)) matches Some(x) && x.value == e.value,
                None => s.read_all(db_id, keys, now).0.live(k, now) is None,
            },
    decreases keys.len(),
{
    if keys.len() > 0 {
        lemma_read_all(s, db_id, keys.drop_last(), now);
        let r = s.read_all(db_id, keys, now).1;
        let q = s.read_all(db_id, keys.drop_last(), now).1;
        assert forall|i: int| 0 <= i < keys.len() implies (#[trigger] r[i]) == match s.live(db_key(db_id, keys[i]), now) {
            Some(e) => Some(e.value),
            None => None,
        } by {
            if i < keys.len() - 1 {
                assert(r[i] == q[i]);
                assert(keys.drop_last()[i] == keys[i]);
            }
        }
        let before = s.read_all(db_id, keys.drop_last(), now).0;
        let ended = s.read_all(db_id, keys, now).0;
        assert forall|k: Seq<u8>|
            match s.live(k, now) {
                Some(e) => (#[trigger] ended.live(k, now)) matches Some(x) && x.value == e.value,
                None => ended.live(k, now) is None,
            } by {
            assert(before.live(k, now) is Some <==> s.live(k, now) is Some);
            assert(ended == before.read(db_key(db_id, keys.last()), now).0);
        }
    }
}

/// `MGET` answers for each key, in order, what `GET` would.
pub proof fn law_mget_is_get_for_each(s: StoreView, db_id: u16, keys: Vec<Vec<u8>>, now: u64, i: int)
    requires
        0 <= i < keys@.len(),
    ensures
        said(s, DataCommand::MGet { keys }, db_id, now) matches Ok(ReplyView::Values(r)) && r.len() == keys@.len() && match r[i] {
            Some(v) => gives(s, db_id, keys@[i], now, v),
            None => missing(s, db_id, keys@[i], now),
        },
{
    lemma_read_all(s, db_id, views(keys@), now);
    assert(views(keys@)[i] == keys@[i]@);
}

proof fn lemma_set_all(s: StoreView, db_id: u16, pairs: Seq<(Seq<u8>, ValueView, u64)>, now: u64, i: int)
    requires
        0 <= i < pairs.len(),
        forall|j: int| i < j < pairs.len() ==> (#[trigger] pairs[j]).0 != pairs[i].0,
    ensures
        s.set_all(db_id, pairs, now).0.map.contains_key(db_key(db_id, pairs[i].0)),
        s.set_all(db_id, pairs, now).0.map[db_key(db_id, pairs[i].0)] == s.put_for(
            db_key(db_id, pairs[i].0),
            pairs[i].1,
            crate::iris::slot_of(pairs[i].0),
            pairs[i].2,
            now,
        ).map[db_key(db_id, pairs[i].0)],
    decreases pairs.len(),
{
    let p = pairs.drop_last();
    if i < pairs.len() - 1 {
        assert(forall|j: int| 0 <= j < p.len() ==> #[trigger] p[j] == pairs[j]);
        lemma_set_all(s, db_id, p, now, i);
        assert(pairs[pairs.len() - 1].0 != pairs[i].0);
        law_databases_isolated(db_id, pairs[i].0, db_id, pairs.last().0);
    }
}

/// `MSET` sets each key: `GET` then gives the value that was given last for it,
/// until its own time to live is over. At the limit nothing happens.
pub proof fn law_mset_sets_each(s: StoreView, db_id: u16, pairs: Vec<(Vec<u8>, Value, u64)>, now: u64, i: int, later: u64)
    requires
        0 <= i < pairs@.len(),
        forall|j: int| i < j < pairs@.len() ==> (#[trigger] pairs@[j]).0@ != pairs@[i].0@,
        now + pairs@[i].2 < u64::MAX,
    ensures
        ({
            let c = DataCommand::MSet { pairs };
            let t = after(s, c, db_id, now);
            let (key, value, ttl) = pairs@[i];
            if s.used < s.limit {
                &&& said(s, c, db_id, now) == Ok::<ReplyView, ErrorView>(ReplyView::Text("OK"@))
                &&& ttl == 0 || later < now + ttl ==> gives(t, db_id, key, later, value@)
                &&& ttl > 0 && later >= now + ttl ==> missing(t, db_id, key, later)
            } else {
                t == s && said(s, c, db_id, now) == Err::<ReplyView, ErrorView>(ErrorView::OutOfMemory)
            }
        }),
{
    let p = triple_views(pairs@);
    assert(p[i] == (pairs@[i].0@, pairs@[i].1@, pairs@[i].2));
    assert forall|j: int| i < j < p.len() implies (#[trigger] p[j]).0 != p[i].0 by {
        assert(p[j].0 == pairs@[j].0@);
    }
    lemma_set_all(s, db_id, p, now, i);
}

proof fn lemma_del_count(s: StoreView, db_id: u16, keys: Seq<Seq<u8>>, there: Set<Seq<u8>>)
    requires
        forall|k: Seq<u8>| #[trigger] there.contains(k) <==> keys.contains(k) && s.map.contains_key(db_key(db_id, k)),
    ensures
        there.finite(),
        s.del_all(db_id, keys).1 == there.len(),
        forall|k: Seq<u8>|
            #[trigger] s.del_all(db_id, keys).0.map.contains_key(db_key(db_id, k)) <==> s.map.contains_key(db_key(db_id, k))
                && !keys.contains(k),
    decreases keys.len(),
{
    if keys.len() == 0 {
        assert(there =~= Set::empty());
    } else {
        let rest = keys.drop_last();
        let x = keys.last();
        let before = Set::new(|k: Seq<u8>| rest.contains(k) && s.map.contains_key(db_key(db_id, k)));
        lemma_del_count(s, db_id, rest, before);
        assert(keys =~= rest.push(x));
        assert forall|k: Seq<u8>| #[trigger] keys.contains(k) <==> rest.contains(k) || k == x by {
            if keys.contains(k) {
                let i = choose|i: int| 0 <= i < keys.len() && keys[i] == k;
                if i < rest.len() {
                    assert(rest[i] == k);
                }
            }
            if rest.contains(k) {
                let i = choose|i: int| 0 <= i < rest.len() && rest[i] == k;
                assert(keys[i] == k);
            }
            if k == x {
                assert(keys[rest.len() as int] == k);
            }
        }
        let s1 = s.del_all(db_id, rest).0;
        if s1.map.contains_key(db_key(db_id, x)) {
            assert(there =~= before.insert(x));
            assert(!before.contains(x));
        } else {
            assert(there =~= before);
        }
        assert forall|k: Seq<u8>|
            #[trigger] s.del_all(db_id, keys).0.map.contains_key(db_key(db_id, k)) <==> s.map.contains_key(db_key(db_id, k))
                && !keys.contains(k) by {
            law_databases_isolated(db_id, k, db_id, x);
            assert(s1.map.contains_key(db_key(db_id, k)) <==> s.map.contains_key(db_key(db_id, k)) && !rest.contains(k));
        }
    }
}

/// `DEL` answers how many of the keys the store held, each counted once, and
/// none of them is found afterwards; other keys are left alone.
pub proof fn law_del_counts(s: StoreView, db_id: u16, keys: Vec<Vec<u8>>, now: u64, later: u64, other: Vec<u8>)
    ensures
        ({
            let c = DataCommand::Del { keys };
            let there = Set::new(|k: Seq<u8>| views(keys@).contains(k) && s.map.contains_key(db_key(db_id, k)));
            let t = after(s, c, db_id, now);
            &&& there.finite()
            &&& said(s, c, db_id, now) == Ok::<ReplyView, ErrorView>(ReplyView::Count(there.len() as int))
            &&& views(keys@).contains(other@) ==> missing(t, db_id, other, later)
            &&& !views(keys@).contains(other@) ==> got(t, db_id, other, later) == got(s, db_id, other, later)
        }),
{
    let there = Set::new(|k: Seq<u8>| views(keys@).contains(k) && s.map.contains_key(db_key(db_id, k)));
    lemma_del_count(s, db_id, views(keys@), there);
    crate::store_laws::law_del_removes(s, db_id, views(keys@));
    let gone = crate::store_laws::db_keys_of(db_id, views(keys@));
    let t = s.del_all(db_id, views(keys@)).0;
    assert(t.map.contains_key(db_key(db_id, other@)) <==> s.map.contains_key(db_key(db_id, other@)) && !views(
        keys@,
    ).contains(other@));
}

// ---- numbers ----

/// The number that a key stands for: that of a counter, that which a string
/// spells out, or zero where there is no key.
pub open spec fn stands_for(s: StoreView, db_id: u16, key: Vec<u8>, now: u64, n: int) -> bool {
    ||| missing(s, db_id, key, now) && n == 0
    ||| i64::MIN <= n <= i64::MAX && gives(s, db_id, key, now, ValueView::Counter(n as i64))
    ||| exists|b: Seq<u8>| gives(s, db_id, key, now, ValueView::String(b)) && #[trigger] spells(b, n)
}

/// Digits, perhaps behind a sign, that spell out a number in the range of 64
/// bits.
pub open spec fn spells(b: Seq<u8>, n: int) -> bool {
    &&& i64::MIN <= n <= i64::MAX
    &&& exists|d: Seq<u8>|
        #[trigger] all_digits(d) && {
            ||| b == d && n == digits_value(d)
            ||| b == seq![0x2bu8] + d && n == digits_value(d)
            ||| b == seq![0x2du8] + d && n == -(digits_value(d) as int)
        }
}

/// The digits of a number spell it out: each digit counts ten times as much as
/// the one behind it.
pub proof fn law_digits_count(d: Seq<u8>, x: u8)
    requires
        0x30 <= x <= 0x39,
    ensures
        digits_value(seq![x]) == x - 0x30,
        digits_value(d.push(x)) == 10 * digits_value(d) + (x - 0x30),
        all_digits(seq![x]),
        all_digits(d) ==> all_digits(d.push(x)),
        all_digits(d) ==> d.len() > 0 && forall|i: int| 0 <= i < d.len() ==> 0x30 <= #[trigger] d[i] <= 0x39,
{
    assert(d.push(x).drop_last() =~= d);
    assert(seq![x].drop_last() =~= Seq::empty());
    reveal_with_fuel(digits_value, 2);
    assert forall|i: int| 0 <= i < d.len() && all_digits(d) implies 0x30 <= #[trigger] d[i] <= 0x39 by {
        assert(crate::num::is_digit(d[i]));
    }
}

proof fn lemma_spelled(b: Seq<u8>, n: int)
    ensures
        spells(b, n) <==> decimal_i64(b) == Some(n),
{
    if spells(b, n) {
        let d = choose|d: Seq<u8>|
            #[trigger] all_digits(d) && {
                ||| b == d && n == digits_value(d)
                ||| b == seq![0x2bu8] + d && n == digits_value(d)
                ||| b == seq![0x2du8] + d && n == -(digits_value(d) as int)
            };
        if b == d {
            assert(crate::num::is_digit(d[0]));
        } else {
            assert(b.subrange(1, b.len() as int) =~= d);
        }
    }
    if decimal_i64(b) == Some(n) {
        let d = crate::num::unsigned_part(b, true);
        assert(all_digits(d));
        if d != b {
            assert(b =~= seq![b[0]] + d);
        }
    }
}

/// Counting adds to the number that a key stands for, answers the sum, and
/// leaves a counter that holds it; by one, up or down, or by a given amount. A
/// key that was there keeps its end. A sum out of range, or a key that stands
/// for no number, is answered with an error and left alone.
pub proof fn law_counting_adds(s: StoreView, db_id: u16, key: Vec<u8>, delta: i64, now: u64, n: int)
    requires
        stands_for(s, db_id, key, now, n),
    ensures
        said(s, DataCommand::Incr { key }, db_id, now) == sum_or_error(n + 1),
        said(s, DataCommand::Decr { key }, db_id, now) == sum_or_error(n - 1),
        said(s, DataCommand::IncrBy { key, delta }, db_id, now) == sum_or_error(n + delta),
        delta > i64::MIN ==> said(s, DataCommand::DecrBy { key, delta }, db_id, now) == sum_or_error(n - delta),
        leaves_counter(s, DataCommand::Incr { key }, db_id, key, now, n + 1),
        leaves_counter(s, DataCommand::Decr { key }, db_id, key, now, n - 1),
        leaves_counter(s, DataCommand::IncrBy { key, delta }, db_id, key, now, n + delta),
        delta > i64::MIN ==> leaves_counter(s, DataCommand::DecrBy { key, delta }, db_id, key, now, n - delta),
{
    lemma_counts(s, db_id, key, 1, now, n);
    lemma_counts(s, db_id, key, -1, now, n);
    lemma_counts(s, db_id, key, delta as int, now, n);
    if delta > i64::MIN {
        lemma_counts(s, db_id, key, -(delta as int), now, n);
    }
}

proof fn lemma_counts(s: StoreView, db_id: u16, key: Vec<u8>, delta: int, now: u64, n: int)
    requires
        stands_for(s, db_id, key, now, n),
        i64::MIN <= delta <= i64::MAX,
    ensures
        s.counter_op(db_id, key@, delta, now).1 == sum_or_error(n + delta),
        ({
            let t = s.counter_op(db_id, key@, delta, now).0;
            let e = s.live(db_key(db_id, key@), now);
            if i64::MIN <= n + delta <= i64::MAX {
                &&& t.live(db_key(db_id, key@), now) matches Some(x) && x.value == ValueView::Counter((n + delta) as i64)
                    && x.expires_at_ms == match e {
                    Some(y) => y.expires_at_ms,
                    None => 0,
                }
            } else {
                t == s
            }
        }),
{
    if !missing(s, db_id, key, now) && !(i64::MIN <= n <= i64::MAX && gives(
        s,
        db_id,
        key,
        now,
        ValueView::Counter(n as i64),
    )) {
        let b = choose|b: Seq<u8>| gives(s, db_id, key, now, ValueView::String(b)) && #[trigger] spells(b, n);
        lemma_spelled(b, n);
    }
}

/// The answer to counting up or down to a sum.
pub open spec fn sum_or_error(n: int) -> Result<ReplyView, ErrorView> {
    if i64::MIN <= n <= i64::MAX {
        Ok(ReplyView::Number(n))
    } else {
        Err(ErrorView::Protocol("counter overflow"@))
    }
}

/// A command leaves a counter with a sum in range, and everything as it was
/// otherwise; the end of the key is what it was.
pub open spec fn leaves_counter(s: StoreView, c: DataCommand, db_id: u16, key: Vec<u8>, now: u64, n: int) -> bool {
    let t = after(s, c, db_id, now);
    if i64::MIN <= n <= i64::MAX {
        &&& gives(t, db_id, key, now, ValueView::Counter(n as i64))
        &&& said(t, DataCommand::Ttl { key }, db_id, now) == if missing(s, db_id, key, now) {
            Ok::<ReplyView, ErrorView>(ReplyView::Number(-1))
        } else {
            said(s, DataCommand::Ttl { key }, db_id, now)
        }
    } else {
        t == s
    }
}

/// A value that is neither a counter nor a string that spells out a number
/// cannot be counted on.
pub proof fn law_only_numbers_count(s: StoreView, db_id: u16, key: Vec<u8>, delta: i64, now: u64, v: ValueView)
    requires
        gives(s, db_id, key, now, v),
        v !is Counter,
        forall|b: Seq<u8>, n: int| v == ValueView::String(b) ==> !#[trigger] spells(b, n),
    ensures
        ({
            let c = DataCommand::IncrBy { key, delta };
            &&& after(s, c, db_id, now) == s
            &&& said(s, c, db_id, now) matches Err(ErrorView::WrongType(want, have)) && want == "counter"@
        }),
{
    match v {
        ValueView::String(b) => {
            match decimal_i64(b) {
                Some(n) => {
                    lemma_spelled(b, n);
                    assert(!spells(b, n));
                },
                None => {},
            }
        },
        _ => {},
    }
}

/// `MEMORY USAGE` answers the bytes of the value and of the key, and two for the
/// number of the database.
pub proof fn law_memory_usage_weighs(s: StoreView, db_id: u16, key: Vec<u8>, now: u64, v: ValueView)
    requires
        gives(s, db_id, key, now, v),
        v.size() + key@.len() + 2 <= u64::MAX,
    ensures
        said(s, DataCommand::MemoryUsage { key }, db_id, now) == Ok::<ReplyView, ErrorView>(
            ReplyView::Count((v.size() + key@.len() + 2) as int),
        ),
{
    assert(db_key(db_id, key@).len() == key@.len() + 2);
}

} // verus!
