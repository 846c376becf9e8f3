//! What holds of the commands as a whole.

use vstd::prelude::*;

use crate::bytes::views;
use crate::commands::DataCommand;
use crate::lethe::keys_of;
use crate::pool::{db_key, law_databases_isolated};
use crate::proto::PushView;
use crate::rbac::{reads, writes};
use crate::reply::ReplyView;
use crate::store::{triple_views, StoreView};
use crate::value::{EntryView, ErrorView, ValueView};

verus! {

/// Two stores hold the same under a key.
pub open spec fn same_at(s: StoreView, t: StoreView, k: Seq<u8>) -> bool {
    s.map.contains_key(k) == t.map.contains_key(k) && (s.map.contains_key(k) ==> s.map[k] == t.map[k])
}

/// A live entry with its use counter left aside.
pub open spec fn content_of(e: Option<EntryView>) -> Option<(ValueView, u64, u16)> {
    match e {
        Some(e) => Some((e.value, e.expires_at_ms, e.slot)),
        None => None,
    }
}

/// All that can be read of a store is the same. An entry whose time is over may
/// have gone.
pub open spec fn same_content(s: StoreView, t: StoreView, now: u64) -> bool {
    &&& forall|k: Seq<u8>| content_of(#[trigger] t.live(k, now)) == content_of(s.live(k, now))
    &&& t.limit == s.limit
    &&& t.wheels == s.wheels
}

/// The key of a command on one key.
pub open spec fn key_of(c: DataCommand) -> Option<Seq<u8>> {
    match c {
        DataCommand::Get { key } => Some(key@),
        DataCommand::SetKey { key, .. } => Some(key@),
        DataCommand::Exists { key } => Some(key@),
        DataCommand::Expire { key, .. } => Some(key@),
        DataCommand::Ttl { key } => Some(key@),
        DataCommand::GetSet { key, .. } => Some(key@),
        DataCommand::HSet { key, .. } => Some(key@),
        DataCommand::HGet { key, .. } => Some(key@),
        DataCommand::HDel { key, .. } => Some(key@),
        DataCommand::HGetAll { key } => Some(key@),
        DataCommand::LPush { key, .. } => Some(key@),
        DataCommand::RPush { key, .. } => Some(key@),
        DataCommand::LPop { key } => Some(key@),
        DataCommand::RPop { key } => Some(key@),
        DataCommand::LRange { key, .. } => Some(key@),
        DataCommand::ZAdd { key, .. } => Some(key@),
        DataCommand::ZRank { key, .. } => Some(key@),
        DataCommand::ZRange { key, .. } => Some(key@),
        DataCommand::ZRangeByScore { key, .. } => Some(key@),
        DataCommand::ZCard { key } => Some(key@),
        DataCommand::ZRem { key, .. } => Some(key@),
        DataCommand::ZScore { key, .. } => Some(key@),
        DataCommand::Incr { key } => Some(key@),
        DataCommand::Decr { key } => Some(key@),
        DataCommand::IncrBy { key, .. } => Some(key@),
        DataCommand::DecrBy { key, .. } => Some(key@),
        DataCommand::IncrByFloat { key, .. } => Some(key@),
        DataCommand::JsonGet { key, .. } => Some(key@),
        DataCommand::JsonSet { key, .. } => Some(key@),
        DataCommand::JsonDel { key, .. } => Some(key@),
        DataCommand::JsonExists { key, .. } => Some(key@),
        DataCommand::JsonType { key, .. } => Some(key@),
        DataCommand::JsonArrAppend { key, .. } => Some(key@),
        DataCommand::JsonNumIncrBy { key, .. } => Some(key@),
        DataCommand::MemoryUsage { key } => Some(key@),
        DataCommand::Type { key } => Some(key@),
        DataCommand::Del { .. } => None,
        DataCommand::MGet { .. } => None,
        DataCommand::MSet { .. } => None,
        DataCommand::Scan { .. } => None,
    }
}

/// The command names the key.
pub open spec fn concerns(c: DataCommand, key: Seq<u8>) -> bool {
    match c {
        DataCommand::Del { keys } => views(keys@).contains(key),
        DataCommand::MGet { keys } => views(keys@).contains(key),
        DataCommand::MSet { pairs } => keys_of_pairs(triple_views(pairs@)).contains(key),
        _ => key_of(c) == Some(key),
    }
}

/// The keys of keys with values and times to live.
pub open spec fn keys_of_pairs(pairs: Seq<(Seq<u8>, ValueView, u64)>) -> Seq<Seq<u8>> {
    pairs.map_values(|p: (Seq<u8>, ValueView, u64)| p.0)
}

/// The command writes the key.
pub open spec fn writes_key(c: DataCommand, key: Seq<u8>) -> bool {
    writes(c.id()) && concerns(c, key)
}

/// None of these keys of a database is kept at a place.
spec fn kept_elsewhere(db_id: u16, keys: Seq<Seq<u8>>, k: Seq<u8>) -> bool {
    forall|i: int| 0 <= i < keys.len() ==> db_key(db_id, #[trigger] keys[i]) != k
}

proof fn lemma_del_elsewhere(s: StoreView, db_id: u16, keys: Seq<Seq<u8>>, k: Seq<u8>)
    requires
        kept_elsewhere(db_id, keys, k),
    ensures
        same_at(s, s.del_all(db_id, keys).0, k),
    decreases keys.len(),
{
    if keys.len() > 0 {
        assert(forall|i: int| 0 <= i < keys.len() - 1 ==> #[trigger] keys.drop_last()[i] == keys[i]);
        assert(db_key(db_id, keys[keys.len() - 1]) != k);
        lemma_del_elsewhere(s, db_id, keys.drop_last(), k);
    }
}

proof fn lemma_read_elsewhere(s: StoreView, db_id: u16, keys: Seq<Seq<u8>>, now: u64, k: Seq<u8>)
    requires
        kept_elsewhere(db_id, keys, k),
    ensures
        same_at(s, s.read_all(db_id, keys, now).0, k),
    decreases keys.len(),
{
    if keys.len() > 0 {
        assert(forall|i: int| 0 <= i < keys.len() - 1 ==> #[trigger] keys.drop_last()[i] == keys[i]);
        assert(db_key(db_id, keys[keys.len() - 1]) != k);
        lemma_read_elsewhere(s, db_id, keys.drop_last(), now, k);
    }
}

proof fn lemma_set_elsewhere(s: StoreView, db_id: u16, pairs: Seq<(Seq<u8>, ValueView, u64)>, now: u64, k: Seq<u8>)
    requires
        kept_elsewhere(db_id, keys_of_pairs(pairs), k),
    ensures
        same_at(s, s.set_all(db_id, pairs, now).0, k),
    decreases pairs.len(),
{
    if pairs.len() > 0 {
        let a = keys_of_pairs(pairs);
        assert(forall|i: int|
            0 <= i < pairs.len() - 1 ==> #[trigger] keys_of_pairs(pairs.drop_last())[i] == a[i]);
        assert(db_key(db_id, a[pairs.len() - 1]) != k);
        lemma_set_elsewhere(s, db_id, pairs.drop_last(), now, k);
    }
}

proof fn lemma_fields_elsewhere(s: StoreView, c: DataCommand, db_id: u16, now: u64, k: Seq<u8>)
    requires
        c is HSet || c is HDel || c is ZAdd || c is ZRem,
        k != db_key(db_id, key_of(c)->0),
    ensures
        same_at(s, s.ran(c, db_id, now).0, k),
{
}

proof fn lemma_documents_elsewhere(s: StoreView, c: DataCommand, db_id: u16, now: u64, k: Seq<u8>)
    requires
        c is JsonSet || c is JsonDel || c is JsonArrAppend || c is JsonNumIncrBy || c is IncrByFloat,
        k != db_key(db_id, key_of(c)->0),
    ensures
        same_at(s, s.ran(c, db_id, now).0, k),
{
}

proof fn lemma_key_elsewhere(s: StoreView, c: DataCommand, db_id: u16, now: u64, k: Seq<u8>)
    requires
        key_of(c) is Some,
        k != db_key(db_id, key_of(c)->0),
    ensures
        same_at(s, s.ran(c, db_id, now).0, k),
{
    match c {
        DataCommand::JsonSet { .. } | DataCommand::JsonDel { .. } | DataCommand::JsonArrAppend { .. }
        | DataCommand::JsonNumIncrBy { .. } | DataCommand::IncrByFloat { .. } => {
            lemma_documents_elsewhere(s, c, db_id, now, k);
        },
        DataCommand::HSet { .. } | DataCommand::HDel { .. } | DataCommand::ZAdd { .. } | DataCommand::ZRem { .. } => {
            lemma_fields_elsewhere(s, c, db_id, now, k);
        },
        _ => {},
    }
}

/// A command leaves every key that it does not name, and every key of another
/// database, as it was.
pub proof fn law_commands_leave_others(s: StoreView, c: DataCommand, db_id: u16, now: u64, other: u16, key: Seq<u8>)
    requires
        other != db_id || !concerns(c, key),
    ensures
        same_at(s, s.ran(c, db_id, now).0, db_key(other, key)),
{
    let k = db_key(other, key);
    match c {
        DataCommand::Del { keys } => {
            lemma_kept_elsewhere(db_id, views(keys@), other, key);
            lemma_del_elsewhere(s, db_id, views(keys@), k);
        },
        DataCommand::MGet { keys } => {
            lemma_kept_elsewhere(db_id, views(keys@), other, key);
            lemma_read_elsewhere(s, db_id, views(keys@), now, k);
        },
        DataCommand::MSet { pairs } => {
            lemma_kept_elsewhere(db_id, keys_of_pairs(triple_views(pairs@)), other, key);
            lemma_set_elsewhere(s, db_id, triple_views(pairs@), now, k);
        },
        DataCommand::Scan { .. } => {},
        _ => {
            law_databases_isolated(db_id, key_of(c)->0, other, key);
            lemma_key_elsewhere(s, c, db_id, now, k);
        },
    }
}

proof fn lemma_kept_elsewhere(db_id: u16, keys: Seq<Seq<u8>>, other: u16, key: Seq<u8>)
    requires
        other != db_id || !keys.contains(key),
    ensures
        kept_elsewhere(db_id, keys, db_key(other, key)),
{
    assert forall|i: int| 0 <= i < keys.len() implies db_key(db_id, #[trigger] keys[i]) != db_key(other, key) by {
        law_databases_isolated(db_id, keys[i], other, key);
    }
}

/// A command on one database leaves every key of the others as it was.
pub proof fn law_commands_stay_in_their_database(s: StoreView, c: DataCommand, db_id: u16, now: u64, other: u16, key: Seq<u8>)
    requires
        other != db_id,
    ensures
        same_at(s, s.ran(c, db_id, now).0, db_key(other, key)),
{
    law_commands_leave_others(s, c, db_id, now, other, key);
}

/// What stands under a key keeps its value, its expiry and its slot from one
/// store to the next. It goes only if its time is over, and nothing comes.
pub open spec fn keeps(s: StoreView, t: StoreView, k: Seq<u8>, now: u64) -> bool {
    if t.map.contains_key(k) {
        &&& s.map.contains_key(k)
        &&& t.map[k].value == s.map[k].value
        &&& t.map[k].expires_at_ms == s.map[k].expires_at_ms
        &&& t.map[k].slot == s.map[k].slot
    } else {
        s.map.contains_key(k) ==> s.map[k].expired(now)
    }
}

proof fn lemma_read_keeps(s: StoreView, db_id: u16, keys: Seq<Seq<u8>>, now: u64, k: Seq<u8>)
    ensures
        keeps(s, s.read_all(db_id, keys, now).0, k, now),
    decreases keys.len(),
{
    if keys.len() > 0 {
        lemma_read_keeps(s, db_id, keys.drop_last(), now, k);
    }
}

/// A command that does not write a key of a database keeps what stands there.
pub proof fn law_only_writes_change(s: StoreView, c: DataCommand, db_id: u16, now: u64, other: u16, key: Seq<u8>)
    requires
        !(other == db_id && writes_key(c, key)),
    ensures
        keeps(s, s.ran(c, db_id, now).0, db_key(other, key), now),
{
    if other != db_id || !concerns(c, key) {
        law_commands_leave_others(s, c, db_id, now, other, key);
    } else {
        match c {
            DataCommand::MGet { keys } => lemma_read_keeps(s, db_id, views(keys@), now, db_key(other, key)),
            _ => {},
        }
    }
}

proof fn lemma_read_content(s: StoreView, db_id: u16, keys: Seq<Seq<u8>>, now: u64)
    ensures
        same_content(s, s.read_all(db_id, keys, now).0, now),
    decreases keys.len(),
{
    if keys.len() > 0 {
        lemma_read_content(s, db_id, keys.drop_last(), now);
        let t = s.read_all(db_id, keys.drop_last(), now).0;
        let u = t.read(db_key(db_id, keys.last()), now).0;
        assert forall|k: Seq<u8>| content_of(#[trigger] u.live(k, now)) == content_of(s.live(k, now)) by {
            assert(content_of(t.live(k, now)) == content_of(s.live(k, now)));
        }
    }
}

/// A command that reads changes nothing that can be read. All it does is count
/// the use.
pub proof fn law_reads_change_nothing(s: StoreView, c: DataCommand, db_id: u16, now: u64)
    requires
        reads(c.id()),
    ensures
        same_content(s, s.ran(c, db_id, now).0, now),
        s.ran(c, db_id, now).2.len() == 0,
{
    match c {
        DataCommand::MGet { keys } => lemma_read_content(s, db_id, views(keys@), now),
        _ => {},
    }
}

/// Something that happens to a store.
pub enum StoreEvent {
    /// A command on a database runs.
    Ran { c: DataCommand, db_id: u16 },
    /// A database is emptied.
    Flushed { db_id: u16 },
    /// The wheels move on.
    Expired,
    /// A replicated write is applied.
    Applied { push: PushView },
}

/// The store after something happened to it.
pub open spec fn store_after(s: StoreView, e: StoreEvent, now: u64) -> StoreView {
    match e {
        StoreEvent::Ran { c, db_id } => s.ran(c, db_id, now).0,
        StoreEvent::Flushed { db_id } => s.flushed(db_id),
        StoreEvent::Expired => s.expired_at(now),
        StoreEvent::Applied { push } => s.applied(push, now),
    }
}

/// What happens writes the key of the database.
pub open spec fn event_writes(e: StoreEvent, db_id: u16, key: Seq<u8>) -> bool {
    match e {
        StoreEvent::Ran { c, db_id: d } => d == db_id && writes_key(c, key),
        StoreEvent::Flushed { db_id: d } => d == db_id,
        StoreEvent::Expired => false,
        StoreEvent::Applied { push } => push.key == db_key(db_id, key) || push.deleted && push.key.len() == 2 && push.db_id
            == db_id,
    }
}

/// The store after a history, each event with its time.
pub open spec fn store_at_end(s: StoreView, history: Seq<(StoreEvent, u64)>) -> StoreView
    decreases history.len(),
{
    if history.len() == 0 {
        s
    } else {
        store_after(store_at_end(s, history.drop_last()), history.last().0, history.last().1)
    }
}

/// Nothing in a history writes the key of the database, and all of it happens
/// by `later`.
pub open spec fn spared(history: Seq<(StoreEvent, u64)>, db_id: u16, key: Seq<u8>, later: u64) -> bool {
    forall|i: int|
        0 <= i < history.len() ==> !event_writes((#[trigger] history[i]).0, db_id, key) && history[i].1 <= later
}

proof fn lemma_cleared_keeps(s: StoreView, keys: Seq<Seq<u8>>, now: u64, k: Seq<u8>)
    ensures
        keeps(s, s.cleared_all(keys, now), k, now),
    decreases keys.len(),
{
    if keys.len() > 0 {
        lemma_cleared_keeps(s, keys.drop_last(), now, k);
    }
}

/// What does not write a key of a database keeps what stands there.
pub proof fn law_events_keep(s: StoreView, e: StoreEvent, now: u64, db_id: u16, key: Seq<u8>)
    requires
        !event_writes(e, db_id, key),
    ensures
        keeps(s, store_after(s, e, now), db_key(db_id, key), now),
{
    match e {
        StoreEvent::Ran { c, db_id: d } => law_only_writes_change(s, c, d, now, db_id, key),
        StoreEvent::Flushed { db_id: d } => law_databases_isolated(db_id, key, d, key),
        StoreEvent::Expired => {
            let (w, due) = s.wheels.ticked(now);
            lemma_cleared_keeps(StoreView { wheels: w, ..s }, keys_of(due), now, db_key(db_id, key));
        },
        StoreEvent::Applied { push } => law_databases_isolated(db_id, key, push.db_id, key),
    }
}

proof fn lemma_kept_to_the_end(s: StoreView, history: Seq<(StoreEvent, u64)>, db_id: u16, key: Seq<u8>, later: u64)
    requires
        spared(history, db_id, key, later),
    ensures
        keeps(s, store_at_end(s, history), db_key(db_id, key), later),
    decreases history.len(),
{
    if history.len() > 0 {
        let t = store_at_end(s, history.drop_last());
        let (e, now) = history.last();
        assert(history[history.len() - 1] == history.last());
        assert(spared(history.drop_last(), db_id, key, later)) by {
            assert forall|i: int| 0 <= i < history.len() - 1 implies !event_writes(
                (#[trigger] history.drop_last()[i]).0,
                db_id,
                key,
            ) && history.drop_last()[i].1 <= later by {
                assert(history.drop_last()[i] == history[i]);
            }
        }
        lemma_kept_to_the_end(s, history.drop_last(), db_id, key, later);
        law_events_keep(t, e, now, db_id, key);
    }
}

/// What was set is read back after any history that does not write its key,
/// until its time to live is over.
pub proof fn law_written_lasts(
    s: StoreView,
    db_id: u16,
    key: Seq<u8>,
    value: ValueView,
    ttl_ms: u64,
    now: u64,
    history: Seq<(StoreEvent, u64)>,
    later: u64,
)
    requires
        !s.full(),
        spared(history, db_id, key, later),
        ttl_ms == 0 || later < now + ttl_ms && later < u64::MAX,
    ensures
        store_at_end(s.set(db_id, key, value, ttl_ms, now).0, history).get(db_id, key, later).1 == Ok::<
            ReplyView,
            ErrorView,
        >(ReplyView::Value(value)),
{
    lemma_kept_to_the_end(s.set(db_id, key, value, ttl_ms, now).0, history, db_id, key, later);
}

/// A key that a database does not hold is not found there after any history
/// that does not write it, whatever the other databases hold under its name.
pub proof fn law_unwritten_is_not_found(s: StoreView, db_id: u16, key: Seq<u8>, history: Seq<(StoreEvent, u64)>, later: u64)
    requires
        !s.map.contains_key(db_key(db_id, key)),
        spared(history, db_id, key, later),
    ensures
        store_at_end(s, history).get(db_id, key, later).1 == Err::<ReplyView, ErrorView>(ErrorView::KeyNotFound),
{
    lemma_kept_to_the_end(s, history, db_id, key, later);
}

} // verus!
