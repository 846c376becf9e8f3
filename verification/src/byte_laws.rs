//! What holds of the count of bytes in use.

use vstd::prelude::*;

use crate::bytes::views;
use crate::command_laws::{store_after, store_at_end, StoreEvent};
use crate::commands::DataCommand;
use crate::iris::slot_of;
use crate::lethe::keys_of;
use crate::pool::{
    all_db_keys, db_key, law_total_weight, law_weight_of_removed, lemma_wrap_diff, total_weight, weight, weight_of, wrap,
};
use crate::store::{triple_views, Store, StoreView};
use crate::value::{EntryView, ValueView};

verus! {

/// The bytes in use are what all entries count for, modulo 2^64.
pub open spec fn accounted(s: StoreView) -> bool {
    s.map.dom().finite() && s.used == wrap(total_weight(s.map))
}

/// Putting, removing and emptying keep the count of bytes right.
pub proof fn law_bytes_accounted(s: StoreView, k: Seq<u8>, e: EntryView, db_id: u16)
    requires
        accounted(s),
    ensures
        accounted(s.put(k, e)),
        accounted(s.removed(k)),
        accounted(s.flushed(db_id)),
{
    law_total_weight(s.map, k, e);
    let total = total_weight(s.map);
    let gone = if s.map.contains_key(k) { weight(k, s.map[k]) } else { 0 };
    lemma_wrap_diff(total, weight(k, e) - gone);
    lemma_wrap_diff(total, gone);
    if !s.map.contains_key(k) {
        assert(s.map.remove(k) =~= s.map);
    }
    let keys = all_db_keys(s.map, db_id);
    law_weight_of_removed(s.map, keys);
    lemma_wrap_diff(total, weight_of(s.map, keys));
    let left = s.map.remove_keys(keys);
    assert(left.dom() =~= s.map.dom().difference(keys));
}

proof fn lemma_steps(s: StoreView)
    requires
        accounted(s),
    ensures
        forall|k: Seq<u8>, e: EntryView| accounted(#[trigger] s.put(k, e)),
        forall|k: Seq<u8>| accounted(#[trigger] s.removed(k)),
{
    assert forall|k: Seq<u8>, e: EntryView| accounted(#[trigger] s.put(k, e)) by {
        law_bytes_accounted(s, k, e, 0);
    }
    assert forall|k: Seq<u8>| accounted(#[trigger] s.removed(k)) by {
        law_bytes_accounted(s, k, EntryView::fresh(ValueView::Counter(0), 0), 0);
    }
}

proof fn lemma_put_for(s: StoreView, k: Seq<u8>, value: ValueView, slot: u16, ttl_ms: u64, now: u64)
    requires
        accounted(s),
    ensures
        accounted(s.put_for(k, value, slot, ttl_ms, now)),
{
    let e = EntryView::fresh(value, slot);
    law_bytes_accounted(s, k, e, 0);
    law_bytes_accounted(s.scheduled(k, e.expiring(ttl_ms, now).expires_at_ms, now), k, e.expiring(ttl_ms, now), 0);
}

proof fn lemma_del_all(s: StoreView, db_id: u16, keys: Seq<Seq<u8>>)
    requires
        accounted(s),
    ensures
        accounted(s.del_all(db_id, keys).0),
    decreases keys.len(),
{
    if keys.len() > 0 {
        lemma_del_all(s, db_id, keys.drop_last());
        lemma_steps(s.del_all(db_id, keys.drop_last()).0);
    }
}

proof fn lemma_read_all(s: StoreView, db_id: u16, keys: Seq<Seq<u8>>, now: u64)
    requires
        accounted(s),
    ensures
        accounted(s.read_all(db_id, keys, now).0),
    decreases keys.len(),
{
    if keys.len() > 0 {
        lemma_read_all(s, db_id, keys.drop_last(), now);
        lemma_steps(s.read_all(db_id, keys.drop_last(), now).0);
    }
}

proof fn lemma_set_all(s: StoreView, db_id: u16, pairs: Seq<(Seq<u8>, ValueView, u64)>, now: u64)
    requires
        accounted(s),
    ensures
        accounted(s.set_all(db_id, pairs, now).0),
    decreases pairs.len(),
{
    if pairs.len() > 0 {
        lemma_set_all(s, db_id, pairs.drop_last(), now);
        let (key, value, ttl) = pairs.last();
        lemma_put_for(
            s.set_all(db_id, pairs.drop_last(), now).0,
            db_key(db_id, key),
            value,
            slot_of(key),
            ttl,
            now,
        );
    }
}

/// Every command keeps the count of bytes right.
pub proof fn law_commands_account(s: StoreView, c: DataCommand, db_id: u16, now: u64)
    requires
        accounted(s),
    ensures
        accounted(s.ran(c, db_id, now).0),
{
    lemma_steps(s);
    match c {
        DataCommand::Del { keys } => lemma_del_all(s, db_id, views(keys@)),
        DataCommand::MGet { keys } => lemma_read_all(s, db_id, views(keys@), now),
        DataCommand::MSet { pairs } => lemma_set_all(s, db_id, triple_views(pairs@), now),
        DataCommand::SetKey { key, value, ttl_ms } => lemma_put_for(
            s,
            db_key(db_id, key@),
            value@,
            slot_of(key@),
            ttl_ms,
            now,
        ),
        DataCommand::Expire { key, seconds } => {
            let k = db_key(db_id, key@);
            let ttl = (seconds * 1000) as u64;
            lemma_steps(s.scheduled(k, (now + ttl) as u64, now));
        },
        _ => {},
    }
}

proof fn lemma_cleared_all(s: StoreView, keys: Seq<Seq<u8>>, now: u64)
    requires
        accounted(s),
    ensures
        accounted(s.cleared_all(keys, now)),
    decreases keys.len(),
{
    if keys.len() > 0 {
        lemma_cleared_all(s, keys.drop_last(), now);
        lemma_steps(s.cleared_all(keys.drop_last(), now));
    }
}

/// Whatever happens to a store, the bytes in use stay what all its entries
/// count for.
pub proof fn law_history_accounts(s: StoreView, history: Seq<(StoreEvent, u64)>)
    requires
        accounted(s),
    ensures
        accounted(store_at_end(s, history)),
    decreases history.len(),
{
    if history.len() > 0 {
        law_history_accounts(s, history.drop_last());
        let t = store_at_end(s, history.drop_last());
        let (e, now) = history.last();
        lemma_steps(t);
        match e {
            StoreEvent::Ran { c, db_id } => law_commands_account(t, c, db_id, now),
            StoreEvent::Flushed { db_id } => law_bytes_accounted(
                t,
                Seq::empty(),
                EntryView::fresh(ValueView::Counter(0), 0),
                db_id,
            ),
            StoreEvent::Expired => {
                let (w, due) = t.wheels.ticked(now);
                lemma_cleared_all(StoreView { wheels: w, ..t }, keys_of(due), now);
            },
            StoreEvent::Applied { push } => {
                lemma_put_for(t, push.key, push.value, push.slot, push.ttl_ms, now);
                law_bytes_accounted(t, Seq::empty(), EntryView::fresh(ValueView::Counter(0), 0), push.db_id);
            },
        }
        assert(accounted(store_after(t, e, now)));
    }
}

/// A store always counts its bytes right.
pub proof fn law_store_accounts(s: Store)
    requires
        s.wf(),
    ensures
        accounted(s@),
{
    s.pool.lemma_finite();
}

} // verus!
