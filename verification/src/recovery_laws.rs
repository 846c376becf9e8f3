//! What survives the restart of a node.

use vstd::prelude::*;

use crate::hypnos::{handed_over, KeeperState};
use crate::keeper_session::handed_rows;
use crate::oneiros::{live_rows, stale};
use crate::pool::{db_key, hands_on, is_replay, live_entry};
use crate::proto::PushView;
use crate::reply::ReplyView;
use crate::store::StoreView;
use crate::value::{EntryView, ErrorView, ValueView};

verus! {

/// Replicated writes applied in turn.
pub open spec fn applied_all(s: StoreView, ps: Seq<PushView>, now: u64) -> StoreView
    decreases ps.len(),
{
    if ps.len() == 0 {
        s
    } else {
        applied_all(s, ps.drop_last(), now).applied(ps.last(), now)
    }
}

/// No key has two rows.
pub open spec fn one_row_each(rows: Seq<(Seq<u8>, ValueView, u64, u16)>) -> bool {
    forall|i: int, j: int| 0 <= i < j < rows.len() ==> (#[trigger] rows[i]).0 != (#[trigger] rows[j]).0
}

/// The entry that a row of the cold store stands for.
pub open spec fn row_entry(r: (Seq<u8>, ValueView, u64, u16)) -> EntryView {
    EntryView { value: r.1, slot: r.3, expires_at_ms: r.2, lfu_counter: 0 }
}

/// Writes of other keys leave a key as it is.
proof fn lemma_others_applied(s: StoreView, ps: Seq<PushView>, now: u64, key: Seq<u8>)
    requires
        forall|i: int| 0 <= i < ps.len() ==> (#[trigger] ps[i]).key != key && !ps[i].deleted,
    ensures
        applied_all(s, ps, now).map.contains_key(key) == s.map.contains_key(key),
        s.map.contains_key(key) ==> applied_all(s, ps, now).map[key] == s.map[key],
    decreases ps.len(),
{
    if ps.len() > 0 {
        let t = ps.drop_last();
        assert(ps[ps.len() - 1].key != key);
        assert forall|i: int| 0 <= i < t.len() implies (#[trigger] t[i]).key != key && !t[i].deleted by {
            assert(ps[i] == t[i]);
        }
        lemma_others_applied(s, t, now, key);
    }
}

/// Of writes of different keys, each has its effect.
proof fn lemma_each_applied(s: StoreView, ps: Seq<PushView>, now: u64, i: int)
    requires
        0 <= i < ps.len(),
        forall|a: int| 0 <= a < ps.len() ==> !(#[trigger] ps[a]).deleted,
        forall|a: int, b: int| 0 <= a < b < ps.len() ==> (#[trigger] ps[a]).key != (#[trigger] ps[b]).key,
    ensures
        applied_all(s, ps, now).map.contains_key(ps[i].key),
        applied_all(s, ps, now).map[ps[i].key] == s.applied(ps[i], now).map[ps[i].key],
    decreases ps.len(),
{
    let t = ps.drop_last();
    if i < t.len() {
        assert forall|a: int| 0 <= a < t.len() implies !(#[trigger] t[a]).deleted by {
            assert(ps[a] == t[a]);
        }
        assert forall|a: int, b: int| 0 <= a < b < t.len() implies (#[trigger] t[a]).key != (#[trigger] t[b]).key by {
            assert(ps[a] == t[a] && ps[b] == t[b]);
        }
        assert(t[i] == ps[i]);
        lemma_each_applied(s, t, now, i);
        assert(ps[i].key != ps[ps.len() - 1].key);
        assert(!ps[ps.len() - 1].deleted);
    } else {
        assert(!ps[ps.len() - 1].deleted);
    }
}

/// The live rows of different keys are rows of different keys.
proof fn lemma_live_one_each(rows: Seq<(Seq<u8>, ValueView, u64, u16)>, now: u64)
    requires
        one_row_each(rows),
    ensures
        one_row_each(live_rows(rows, now)),
        forall|j: int|
            0 <= j < live_rows(rows, now).len() ==> exists|i: int|
                0 <= i < rows.len() && rows[i] == #[trigger] live_rows(rows, now)[j],
        forall|i: int|
            0 <= i < rows.len() && !stale((#[trigger] rows[i]).2, now) ==> exists|j: int|
                0 <= j < live_rows(rows, now).len() && #[trigger] live_rows(rows, now)[j] == rows[i],
    decreases rows.len(),
{
    let keep = |r: (Seq<u8>, ValueView, u64, u16)| !stale(r.2, now);
    if rows.len() == 0 {
        assert(rows.filter(keep) =~= rows);
    } else {
        let t = rows.drop_last();
        let x = rows.last();
        assert forall|i: int, j: int| 0 <= i < j < t.len() implies (#[trigger] t[i]).0 != (#[trigger] t[j]).0 by {
            assert(rows[i] == t[i] && rows[j] == t[j]);
        }
        lemma_live_one_each(t, now);
        assert(rows =~= t.push(x));
        t.lemma_filter_push(x, keep);
        let lt = live_rows(t, now);
        let l = live_rows(rows, now);
        assert(l == if keep(x) {
            lt.push(x)
        } else {
            lt
        });
        assert forall|j: int| 0 <= j < l.len() implies exists|i: int| 0 <= i < rows.len() && rows[i] == #[trigger] l[j] by {
            if j < lt.len() {
                let i = choose|i: int| 0 <= i < t.len() && t[i] == lt[j];
                assert(rows[i] == l[j]);
            } else {
                assert(rows[rows.len() - 1] == l[j]);
            }
        }
        assert forall|i: int, j: int| 0 <= i < j < l.len() implies (#[trigger] l[i]).0 != (#[trigger] l[j]).0 by {
            let a = choose|a: int| 0 <= a < t.len() && t[a] == lt[i];
            assert(rows[a] == l[i]);
            if j < lt.len() {
                assert(lt[i].0 != lt[j].0);
            } else {
                assert(rows[a].0 != rows[rows.len() - 1].0);
            }
        }
        assert forall|i: int| 0 <= i < rows.len() && !stale((#[trigger] rows[i]).2, now) implies exists|j: int|
            0 <= j < l.len() && #[trigger] l[j] == rows[i] by {
            if i < t.len() {
                assert(t[i] == rows[i]);
                let j = choose|j: int| 0 <= j < lt.len() && lt[j] == t[i];
                assert(l[j] == rows[i]);
            } else {
                assert(l[l.len() - 1] == rows[i]);
            }
        }
    }
}

/// A core that takes in what a keeper hands over holds every live row of it,
/// with its value, slot and expiry.
pub proof fn law_core_holds_what_was_handed_over(
    core: StoreView,
    rows: Seq<(Seq<u8>, ValueView, u64, u16)>,
    now: u64,
    i: int,
)
    requires
        one_row_each(rows),
        0 <= i < rows.len(),
        !stale(rows[i].2, now),
    ensures
        applied_all(core, handed_rows(rows, now), now).map.contains_key(rows[i].0),
        applied_all(core, handed_rows(rows, now), now).map[rows[i].0] == row_entry(rows[i]),
{
    let live = live_rows(rows, now);
    let ps = handed_rows(rows, now);
    lemma_live_one_each(rows, now);
    let j = choose|j: int| 0 <= j < live.len() && #[trigger] live[j] == rows[i];
    assert(ps[j] == handed_over(live[j], now));
    lemma_each_applied(core, ps, now, j);
}

/// A node on its own that starts again holds every row of its keeper whose
/// time is not over, with its value, slot and expiry.
pub proof fn law_restored_is_held(s: StoreView, rows: Seq<(Seq<u8>, ValueView, u64, u16)>, now: u64, i: int)
    requires
        one_row_each(rows),
        0 <= i < rows.len(),
        !stale(rows[i].2, now),
    ensures
        s.restored(rows, now).0.map.contains_key(rows[i].0),
        s.restored(rows, now).0.map[rows[i].0] == row_entry(rows[i]),
    decreases rows.len(),
{
    let t = rows.drop_last();
    if i < t.len() {
        assert forall|a: int, b: int| 0 <= a < b < t.len() implies (#[trigger] t[a]).0 != (#[trigger] t[b]).0 by {
            assert(rows[a] == t[a] && rows[b] == t[b]);
        }
        assert(t[i] == rows[i]);
        law_restored_is_held(s, t, now, i);
        assert(rows[i].0 != rows[rows.len() - 1].0);
    }
}

/// A replica that takes in the replay of its primary's pool has every live
/// entry of it, with its value, slot and expiry.
pub proof fn law_replica_holds_what_was_replayed(primary: StoreView, replica: StoreView, ps: Seq<PushView>, now: u64, key: Seq<u8>)
    requires
        is_replay(ps, primary.map, now),
        primary.live(key, now) is Some,
    ensures
        ({
            let after = applied_all(replica, ps, now);
            let e = primary.map[key];
            &&& after.map.contains_key(key)
            &&& after.map[key] == (EntryView { lfu_counter: 0, ..e })
        }),
{
    assert(live_entry(primary.map, key, now) is Some);
    assert(hands_on(ps, key));
    let i = choose|i: int| 0 <= i < ps.len() && (#[trigger] ps[i]).key == key;
    assert forall|a: int| 0 <= a < ps.len() implies !(#[trigger] ps[a]).deleted by {
        assert(live_entry(primary.map, ps[a].key, now) is Some);
    }
    lemma_each_applied(replica, ps, now, i);
}

/// What a core took survives its restart: the write goes to a keeper, which
/// hands it over to the core that starts, where it is read back until its time
/// to live is over.
pub proof fn law_write_survives_restart(
    core: StoreView,
    keeper: KeeperState,
    next: StoreView,
    db_id: u16,
    key: Seq<u8>,
    value: ValueView,
    ttl_ms: u64,
    written: u64,
    kept: u64,
    handed: u64,
    later: u64,
)
    requires
        !core.full(),
        kept + ttl_ms <= u64::MAX,
        ttl_ms == 0 || handed < kept + ttl_ms && later < kept + ttl_ms,
    ensures
        ({
            let push = core.set(db_id, key, value, ttl_ms, written).2[0];
            let k = db_key(db_id, key);
            let cold = keeper.took(push, kept).cold;
            let row = (k, cold[k].value, cold[k].expires_at_ms, cold[k].slot);
            &&& core.set(db_id, key, value, ttl_ms, written).2.len() == 1
            &&& cold.contains_key(k)
            &&& !stale(row.2, handed)
            &&& next.applied(handed_over(row, handed), handed).get(db_id, key, later).1 == Ok::<ReplyView, ErrorView>(
                ReplyView::Value(value),
            )
        }),
{
}

} // verus!
