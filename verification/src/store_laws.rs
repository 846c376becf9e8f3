//! What holds of the store across commands.

use vstd::prelude::*;

use crate::iris::slot_of;
use crate::pool::{db_key, in_db, law_databases_isolated};
use crate::proto::PushView;
use crate::reply::ReplyView;
use crate::store::StoreView;
use crate::value::{ErrorView, ValueView};

verus! {

/// What was set is read back, under its key and in its database, until its
/// time to live is over.
pub proof fn law_set_then_get(s: StoreView, db_id: u16, key: Seq<u8>, value: ValueView, ttl_ms: u64, now: u64, later: u64)
    requires
        !s.full(),
        ttl_ms == 0 || later < now + ttl_ms && later < u64::MAX,
    ensures
        s.set(db_id, key, value, ttl_ms, now).0.get(db_id, key, later).1 == Ok::<ReplyView, ErrorView>(
            ReplyView::Value(value),
        ),
{
}

/// Once the time to live is over, the key is not found any more.
pub proof fn law_expired_is_gone(s: StoreView, db_id: u16, key: Seq<u8>, value: ValueView, ttl_ms: u64, now: u64, later: u64)
    requires
        !s.full(),
        0 < ttl_ms,
        now + ttl_ms <= later,
    ensures
        s.set(db_id, key, value, ttl_ms, now).0.get(db_id, key, later).1 == Err::<ReplyView, ErrorView>(
            ErrorView::KeyNotFound,
        ),
{
}

/// Setting a key leaves every other key, of this database or another, as it
/// was.
pub proof fn law_set_leaves_others(
    s: StoreView,
    db1: u16,
    k1: Seq<u8>,
    value: ValueView,
    ttl_ms: u64,
    now: u64,
    db2: u16,
    k2: Seq<u8>,
    at: u64,
)
    requires
        db1 != db2 || k1 != k2,
    ensures
        s.set(db1, k1, value, ttl_ms, now).0.live(db_key(db2, k2), at) == s.live(db_key(db2, k2), at),
{
    law_databases_isolated(db1, k1, db2, k2);
}

/// Removing keys takes just these keys of the database out, whether they come
/// once or more often.
pub proof fn law_del_removes(s: StoreView, db_id: u16, keys: Seq<Seq<u8>>)
    ensures
        s.del_all(db_id, keys).0.map == s.map.remove_keys(db_keys_of(db_id, keys)),
        s.del_all(db_id, keys).1 <= keys.len(),
    decreases keys.len(),
{
    if keys.len() == 0 {
        assert(db_keys_of(db_id, keys) =~= Set::empty());
        assert(s.map.remove_keys(Set::empty()) =~= s.map);
    } else {
        law_del_removes(s, db_id, keys.drop_last());
        let t = s.del_all(db_id, keys.drop_last()).0;
        let x = db_key(db_id, keys.last());
        assert forall|q: Seq<u8>| #[trigger] db_keys_of(db_id, keys).contains(q) <==> db_keys_of(
            db_id,
            keys.drop_last(),
        ).contains(q) || q == x by {
            if db_keys_of(db_id, keys).contains(q) {
                let i = choose|i: int| 0 <= i < keys.len() && q == db_key(db_id, #[trigger] keys[i]);
                if i < keys.len() - 1 {
                    assert(keys.drop_last()[i] == keys[i]);
                }
            }
            if db_keys_of(db_id, keys.drop_last()).contains(q) {
                let i = choose|i: int|
                    0 <= i < keys.drop_last().len() && q == db_key(db_id, #[trigger] keys.drop_last()[i]);
                assert(keys[i] == keys.drop_last()[i]);
            }
            if q == x {
                assert(keys[keys.len() - 1] == keys.last());
            }
        }
        assert(s.del_all(db_id, keys).0.map =~= s.map.remove_keys(db_keys_of(db_id, keys)));
    }
}

/// Where the pool keeps some keys of a database.
pub open spec fn db_keys_of(db_id: u16, keys: Seq<Seq<u8>>) -> Set<Seq<u8>> {
    Set::new(|k: Seq<u8>| exists|i: int| 0 <= i < keys.len() && k == db_key(db_id, #[trigger] keys[i]))
}

/// Emptying a database removes its keys and leaves the other databases alone.
pub proof fn law_flush_isolated(s: StoreView, db_id: u16, other: u16, key: Seq<u8>, at: u64)
    ensures
        s.flushed(db_id).live(db_key(db_id, key), at) is None,
        other != db_id ==> s.flushed(db_id).live(db_key(other, key), at) == s.live(db_key(other, key), at),
{
    law_databases_isolated(db_id, key, db_id, key);
    law_databases_isolated(other, key, db_id, key);
}

/// Applying the replicated form of a write gives another store the same entry
/// under the key.
pub proof fn law_write_replicates(
    s: StoreView,
    replica: StoreView,
    db_id: u16,
    key: Seq<u8>,
    value: ValueView,
    ttl_ms: u64,
    now: u64,
)
    requires
        !s.full(),
    ensures
        s.set(db_id, key, value, ttl_ms, now).2.len() == 1,
        replica.applied(s.set(db_id, key, value, ttl_ms, now).2[0], now).map[db_key(db_id, key)] == s.set(
            db_id,
            key,
            value,
            ttl_ms,
            now,
        ).0.map[db_key(db_id, key)],
        replica.applied(s.set(db_id, key, value, ttl_ms, now).2[0], now).map == replica.map.insert(
            db_key(db_id, key),
            s.set(db_id, key, value, ttl_ms, now).0.map[db_key(db_id, key)],
        ),
{
}

/// Applying the replicated form of a removal removes the key there too.
pub proof fn law_removal_replicates(s: StoreView, replica: StoreView, db_id: u16, key: Seq<u8>, now: u64)
    requires
        s.map.contains_key(db_key(db_id, key)),
        key.len() > 0,
    ensures
        s.del(db_id, seq![key]).2 == seq![PushView::tombstone(db_key(db_id, key), slot_of(key), db_id)],
        !s.del(db_id, seq![key]).0.map.contains_key(db_key(db_id, key)),
        replica.applied(PushView::tombstone(db_key(db_id, key), slot_of(key), db_id), now) == replica.removed(
            db_key(db_id, key),
        ),
{
    let keys = seq![key];
    assert(keys.drop_last() =~= Seq::empty());
    reveal_with_fuel(StoreView::del_all, 2);
    assert(s.del(db_id, keys).2 =~= seq![PushView::tombstone(db_key(db_id, key), slot_of(key), db_id)]);
}

/// Adding up to a number takes it back again.
pub proof fn law_incr_then_decr(s: StoreView, db_id: u16, key: Seq<u8>, n: i64, delta: int, now: u64)
    requires
        s.live(db_key(db_id, key), now) matches Some(e) && e.value == ValueView::Counter(n),
        i64::MIN <= delta <= i64::MAX,
        i64::MIN <= n + delta <= i64::MAX,
        i64::MIN <= -delta <= i64::MAX,
    ensures
        s.counter_op(db_id, key, delta, now).1 == Ok::<ReplyView, ErrorView>(ReplyView::Number(n + delta)),
        s.counter_op(db_id, key, delta, now).0.counter_op(db_id, key, -delta, now) == (
            s,
            Ok::<ReplyView, ErrorView>(ReplyView::Number(n as int)),
        ),
{
    let k = db_key(db_id, key);
    let t = s.counter_op(db_id, key, delta, now).0.counter_op(db_id, key, -delta, now).0;
    assert(t.map =~= s.map);
}

/// A value that was pushed to one end of a list comes back from that end.
pub proof fn law_push_then_pop_list(s: StoreView, db_id: u16, key: Seq<u8>, l: Seq<Seq<u8>>, v: Seq<u8>, front: bool, now: u64)
    requires
        !s.full(),
        s.live(db_key(db_id, key), now) matches Some(e) && e.value == ValueView::List(l),
    ensures
        s.push_list(db_id, key, seq![v], front, now).0.pop_list(db_id, key, front, now) == (
            s,
            Ok::<ReplyView, ErrorView>(ReplyView::Bytes(v)),
        ),
{
    crate::data::law_push_then_pop(l, v);
    let t = s.push_list(db_id, key, seq![v], front, now).0;
    let u = t.pop_list(db_id, key, front, now).0;
    assert(u.map =~= s.map);
}

/// Reading commands answer the same whatever database other writes go to:
/// what a database holds depends on its own keys alone.
pub proof fn law_reads_are_local(s: StoreView, t: StoreView, db_id: u16, key: Seq<u8>, at: u64)
    requires
        forall|k: Seq<u8>| in_db(k, db_id) ==> s.live(k, at) == t.live(k, at),
    ensures
        s.get(db_id, key, at).1 == t.get(db_id, key, at).1,
        s.ttl(db_id, key, at) == t.ttl(db_id, key, at),
        s.hgetall(db_id, key, at) == t.hgetall(db_id, key, at),
        s.zcard(db_id, key, at) == t.zcard(db_id, key, at),
        s.has_key(db_id, key, at) == t.has_key(db_id, key, at),
{
    law_databases_isolated(db_id, key, db_id, key);
}

/// The number of keys that go when the wheels move on is how many fewer there
/// are.
pub proof fn law_expired_are_counted(s: StoreView, now: u64)
    requires
        s.map.dom().finite(),
    ensures
        s.expired_at(now).map.dom().len() + s.expired_count(now) == s.map.dom().len(),
{
    let (w, due) = s.wheels.ticked(now);
    lemma_cleared_count(StoreView { wheels: w, ..s }, crate::lethe::keys_of(due), now);
}

proof fn lemma_cleared_count(s: StoreView, keys: Seq<Seq<u8>>, now: u64)
    requires
        s.map.dom().finite(),
    ensures
        s.cleared_all(keys, now).map.dom().finite(),
        s.cleared_all(keys, now).map.dom().len() + s.cleared_count(keys, now) == s.map.dom().len(),
    decreases keys.len(),
{
    if keys.len() > 0 {
        lemma_cleared_count(s, keys.drop_last(), now);
        let t = s.cleared_all(keys.drop_last(), now);
        let k = keys.last();
        assert(t.removed(k).map.dom() =~= t.map.dom().remove(k));
    }
}

} // verus!
