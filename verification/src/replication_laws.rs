//! What of the commands is replicated, and what a replicated write does where
//! it arrives.

use vstd::prelude::*;

use crate::bytes::views;
use crate::commands::DataCommand;
use crate::iris::slot_of;
use crate::key_laws::{after, gives, missing, said};
use crate::lethe::law_uses_count;
use crate::pool::{db_key, law_databases_isolated};
use crate::proto::PushView;
use crate::reply::ReplyView;
use crate::scan_laws::kept;
use crate::store::{triple_views, StoreView};
use crate::value::{EntryView, ErrorView, Value, ValueView};

verus! {

/// What a command has replicated.
pub open spec fn sent(s: StoreView, c: DataCommand, db_id: u16, now: u64) -> Seq<PushView> {
    s.ran(c, db_id, now).2
}

/// A replicated write of a value under a key of a database.
pub open spec fn writes_value(p: PushView, db_id: u16, key: Seq<u8>, value: ValueView, ttl_ms: int) -> bool {
    &&& p.key == seq![(db_id / 256) as u8, (db_id % 256) as u8] + key
    &&& p.value == value
    &&& p.ttl_ms == ttl_ms
    &&& p.slot == slot_of(key)
    &&& p.db_id == db_id
    &&& !p.deleted
}

/// A replicated removal of a key of a database.
pub open spec fn removes_key(p: PushView, db_id: u16, key: Seq<u8>) -> bool {
    &&& p.key == seq![(db_id / 256) as u8, (db_id % 256) as u8] + key
    &&& p.slot == slot_of(key)
    &&& p.db_id == db_id
    &&& p.deleted
}

/// `SET` is replicated as the value with its time to live, and not at all where
/// it is refused.
pub proof fn law_set_is_sent(s: StoreView, db_id: u16, key: Vec<u8>, value: Value, ttl_ms: u64, now: u64)
    ensures
        ({
            let out = sent(s, DataCommand::SetKey { key, value, ttl_ms }, db_id, now);
            if s.used < s.limit {
                out.len() == 1 && writes_value(out[0], db_id, key@, value@, ttl_ms as int)
            } else {
                out.len() == 0
            }
        }),
{
}

/// `EXPIRE` is replicated as the value with the new time to live; of a key that
/// is not there nothing is.
pub proof fn law_expire_is_sent(s: StoreView, db_id: u16, key: Vec<u8>, seconds: u64, now: u64, v: ValueView)
    requires
        seconds * 1000 + now <= u64::MAX,
    ensures
        ({
            let out = sent(s, DataCommand::Expire { key, seconds }, db_id, now);
            &&& missing(s, db_id, key, now) ==> out.len() == 0
            &&& gives(s, db_id, key, now, v) && seconds > 0 ==> out.len() == 1 && writes_value(
                out[0],
                db_id,
                key@,
                v,
                seconds * 1000,
            )
        }),
{
}

proof fn lemma_set_all_sent(s: StoreView, db_id: u16, pairs: Seq<(Seq<u8>, ValueView, u64)>, now: u64, i: int)
    requires
        0 <= i < pairs.len(),
    ensures
        s.set_all(db_id, pairs, now).1.len() == pairs.len(),
        writes_value(s.set_all(db_id, pairs, now).1[i], db_id, pairs[i].0, pairs[i].1, pairs[i].2 as int),
    decreases pairs.len(),
{
    let t = pairs.drop_last();
    if i < t.len() {
        lemma_set_all_sent(s, db_id, t, now, i);
    } else if t.len() > 0 {
        lemma_set_all_sent(s, db_id, t, now, 0);
    }
}

/// `MSET` is replicated as one write for each pair, in their order.
pub proof fn law_mset_is_sent(s: StoreView, db_id: u16, pairs: Vec<(Vec<u8>, Value, u64)>, now: u64, i: int)
    requires
        0 <= i < pairs@.len(),
    ensures
        ({
            let out = sent(s, DataCommand::MSet { pairs }, db_id, now);
            if s.used < s.limit {
                out.len() == pairs@.len() && writes_value(
                    out[i],
                    db_id,
                    pairs@[i].0@,
                    pairs@[i].1@,
                    pairs@[i].2 as int,
                )
            } else {
                out.len() == 0
            }
        }),
{
    lemma_set_all_sent(s, db_id, triple_views(pairs@), now, i);
}

/// A replicated write removes one of the keys.
pub open spec fn one_of(p: PushView, db_id: u16, keys: Seq<Seq<u8>>) -> bool {
    exists|j: int| 0 <= j < keys.len() && removes_key(p, db_id, #[trigger] keys[j])
}

/// The removal of a key is among what is replicated.
pub open spec fn is_sent(out: Seq<PushView>, db_id: u16, key: Seq<u8>) -> bool {
    exists|i: int| 0 <= i < out.len() && removes_key(#[trigger] out[i], db_id, key)
}

proof fn lemma_del_all_sent(s: StoreView, db_id: u16, keys: Seq<Seq<u8>>)
    ensures
        ({
            let (t, n, out) = s.del_all(db_id, keys);
            &&& out.len() == n
            &&& forall|i: int| 0 <= i < out.len() ==> one_of(#[trigger] out[i], db_id, keys)
            &&& forall|k: Seq<u8>|
                keys.contains(k) && s.map.contains_key(db_key(db_id, k)) ==> #[trigger] is_sent(out, db_id, k)
            &&& forall|k: Seq<u8>|
                #[trigger] t.map.contains_key(db_key(db_id, k)) <==> s.map.contains_key(db_key(db_id, k)) && !keys.contains(k)
        }),
    decreases keys.len(),
{
    if keys.len() > 0 {
        let rest = keys.drop_last();
        let x = keys.last();
        lemma_del_all_sent(s, db_id, rest);
        let (s1, n1, out1) = s.del_all(db_id, rest);
        let (t, n, out) = s.del_all(db_id, keys);
        assert(keys =~= rest.push(x));
        assert forall|k: Seq<u8>| #[trigger] keys.contains(k) <==> rest.contains(k) || k == x by {
            if keys.contains(k) {
                let i = choose|i: int| 0 <= i < keys.len() && keys[i] == k;
                if i < rest.len() {
                    assert(rest[i] == k);
                }
            }
            if rest.contains(k) {
                let i = choose|i: int| 0 <= i < rest.len() && rest[i] == k;
                assert(keys[i] == k);
            }
            if k == x {
                assert(keys[rest.len() as int] == k);
            }
        }
        assert forall|i: int| 0 <= i < out.len() implies one_of(#[trigger] out[i], db_id, keys) by {
            if i < out1.len() {
                assert(one_of(out1[i], db_id, rest));
                let j = choose|j: int| 0 <= j < rest.len() && removes_key(out1[i], db_id, #[trigger] rest[j]);
                assert(keys[j] == rest[j]);
                assert(removes_key(out[i], db_id, keys[j]));
            } else {
                assert(removes_key(out[i], db_id, keys[rest.len() as int]));
            }
        }
        assert forall|k: Seq<u8>|
            #[trigger] t.map.contains_key(db_key(db_id, k)) <==> s.map.contains_key(db_key(db_id, k)) && !keys.contains(k) by {
            law_databases_isolated(db_id, k, db_id, x);
            assert(s1.map.contains_key(db_key(db_id, k)) <==> s.map.contains_key(db_key(db_id, k)) && !rest.contains(k));
        }
        assert forall|k: Seq<u8>|
            keys.contains(k) && s.map.contains_key(db_key(db_id, k)) implies #[trigger] is_sent(out, db_id, k) by {
            if rest.contains(k) {
                assert(is_sent(out1, db_id, k));
                let i = choose|i: int| 0 <= i < out1.len() && removes_key(#[trigger] out1[i], db_id, k);
                assert(removes_key(out[i], db_id, k));
            } else {
                assert(s1.map.contains_key(db_key(db_id, x)));
                assert(removes_key(out[out1.len() as int], db_id, k));
            }
        }
    }
}

/// `DEL` is replicated as the removal of each key that was there, as many as it
/// answers, and of no other.
pub proof fn law_del_is_sent(s: StoreView, db_id: u16, keys: Vec<Vec<u8>>, now: u64, i: int, key: Seq<u8>)
    ensures
        ({
            let c = DataCommand::Del { keys };
            let out = sent(s, c, db_id, now);
            &&& said(s, c, db_id, now) == Ok::<ReplyView, ErrorView>(ReplyView::Count(out.len() as int))
            &&& 0 <= i < out.len() ==> one_of(out[i], db_id, views(keys@))
            &&& views(keys@).contains(key) && kept(s, db_id, key) ==> is_sent(out, db_id, key)
        }),
{
    lemma_del_all_sent(s, db_id, views(keys@));
    assert(db_key(db_id, key) == seq![(db_id / 256) as u8, (db_id % 256) as u8] + key);
}

/// The other commands on data have nothing replicated.
pub proof fn law_others_are_not_sent(s: StoreView, c: DataCommand, db_id: u16, now: u64)
    requires
        !(c is SetKey || c is MSet || c is Del || c is Expire),
    ensures
        sent(s, c, db_id, now).len() == 0,
{
}

/// A replicated write puts the value under its key, with its slot, to end after
/// its time to live or never; a removal takes its key away, and one whose key
/// is nothing but the number of a database takes all keys of that database.
/// Other keys stay as they are.
pub proof fn law_replicated_write_arrives(s: StoreView, p: PushView, now: u64, other: Seq<u8>, db: u16, user_key: Seq<u8>)
    requires
        now + p.ttl_ms <= u64::MAX,
    ensures
        ({
            let t = s.applied(p, now);
            let end: int = if p.ttl_ms == 0 { 0 } else { now + p.ttl_ms };
            &&& !p.deleted ==> {
                &&& t.map.contains_key(p.key)
                &&& t.map[p.key].value == p.value
                &&& t.map[p.key].slot == p.slot
                &&& t.map[p.key].expires_at_ms == end
            }
            &&& p.deleted && p.key.len() != 2 ==> !t.map.contains_key(p.key)
            &&& !p.deleted || p.key.len() != 2 ==> (other != p.key ==> (t.map.contains_key(other) <==> s.map.contains_key(
                other,
            )) && (s.map.contains_key(other) ==> t.map[other] == s.map[other]))
            &&& p.deleted && p.key.len() == 2 ==> !kept(t, p.db_id, user_key) && (db != p.db_id ==> (kept(t, db, user_key)
                <==> kept(s, db, user_key)))
        }),
{
    law_databases_isolated(p.db_id, user_key, p.db_id, user_key);
    law_databases_isolated(db, user_key, p.db_id, user_key);
    assert(db_key(p.db_id, user_key) == seq![(p.db_id / 256) as u8, (p.db_id % 256) as u8] + user_key);
    assert(db_key(db, user_key) == seq![(db / 256) as u8, (db % 256) as u8] + user_key);
}

/// Rows that were kept on disk are put back in turn, each with its value, slot
/// and end, except those whose time is over; both are counted.
pub proof fn law_rows_are_put_back(
    s: StoreView,
    rows: Seq<(Seq<u8>, ValueView, u64, u16)>,
    r: (Seq<u8>, ValueView, u64, u16),
    now: u64,
)
    ensures
        s.restored(Seq::empty(), now) == (s, 0nat, 0nat),
        ({
            let (a, back, gone) = s.restored(rows, now);
            let (b, back1, gone1) = s.restored(rows.push(r), now);
            if r.2 == 0 || now < r.2 {
                &&& b.map == a.map.insert(r.0, (EntryView { value: r.1, slot: r.3, expires_at_ms: r.2, lfu_counter: 0 }))
                &&& back1 == back + 1 && gone1 == gone
            } else {
                b == a && back1 == back && gone1 == gone + 1
            }
        }),
{
    assert(rows.push(r).drop_last() =~= rows);
}

/// Reading a key counts the use and changes nothing else of it: below five uses
/// every one counts.
pub proof fn law_get_counts_the_use(s: StoreView, db_id: u16, key: Vec<u8>, now: u64, v: ValueView)
    requires
        gives(s, db_id, key, now, v),
    ensures
        ({
            let k = seq![(db_id / 256) as u8, (db_id % 256) as u8] + key@;
            let t = after(s, DataCommand::Get { key }, db_id, now);
            let n = s.map[k].lfu_counter;
            let m = t.map[k].lfu_counter;
            &&& t.map == s.map.insert(k, EntryView { lfu_counter: m, ..s.map[k] })
            &&& n < 5 ==> m == n + 1
            &&& n >= 5 ==> m == n || m == n + 1
            &&& n == 255 ==> m == 255
        }),
{
    let k = db_key(db_id, key@);
    law_uses_count(s.map[k].lfu_counter, crate::lethe::xorshift(s.rng));
    law_uses_count(s.map[k].lfu_counter, 0);
}

} // verus!
