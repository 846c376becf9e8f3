//! Hypnos, the keeper: what it does with writes from the core, what it brings
//! back after a restart, and what it hands over to a core that starts.

use vstd::prelude::*;

use crate::bytes::{copy_bytes, views};
use crate::iris::{slot_of, Iris};
use crate::melete::{keyed_views, snap_views, SnapEntry, SnapView};
use crate::oneiros::{is_stale, live_rows, row_keys, stale, stale_rows};
use crate::proto::{push_views, CmdId, PushKeyPayload, PushView};
use crate::store::{recovered_view, recovered_views};
use crate::value::{Entry, EntryView, Value, ValueView};

verus! {

/// A row of the cold store without its key.
pub struct ColdRow {
    pub value: ValueView,
    pub expires_at_ms: u64,
    pub slot: u16,
}

/// A record of the log with its value.
pub struct LogView {
    pub seq: u64,
    pub expires_at_ms: u64,
    pub key: Seq<u8>,
    pub value: ValueView,
}

/// When a write expires: never, or its time to live from now.
pub open spec fn expiry_of(ttl_ms: u64, now: u64) -> u64 {
    if ttl_ms > 0 {
        (now + ttl_ms) as u64
    } else {
        0
    }
}

/// A keeper: its cold store, its log, and the highest sequence number seen.
pub struct KeeperState {
    pub cold: Map<Seq<u8>, ColdRow>,
    pub log: Seq<LogView>,
    pub last_seq: u64,
}

pub open spec fn max_seq(a: u64, b: u64) -> u64 {
    if a < b {
        b
    } else {
        a
    }
}

/// What a keeper does with a write from the core.
pub enum ActionView {
    Remove { key: Seq<u8> },
    Store { seq: u64, expires_at_ms: u64, key: Seq<u8>, value: ValueView, slot: u16 },
}

/// A removal goes to the cold store alone, anything else to the log as well.
pub open spec fn action_of(p: PushView, now: u64) -> ActionView {
    if p.deleted {
        ActionView::Remove { key: p.key }
    } else {
        ActionView::Store {
            seq: p.seq,
            expires_at_ms: expiry_of(p.ttl_ms, now),
            key: p.key,
            value: p.value,
            slot: slot_of(p.key),
        }
    }
}

impl KeeperState {
    /// An action is carried out.
    pub open spec fn acted(self, a: ActionView) -> KeeperState {
        match a {
            ActionView::Remove { key } => KeeperState { cold: self.cold.remove(key), ..self },
            ActionView::Store { seq, expires_at_ms, key, value, slot } => KeeperState {
                cold: self.cold.insert(key, ColdRow { value, expires_at_ms, slot }),
                log: self.log.push(LogView { seq, expires_at_ms, key, value }),
                ..self
            },
        }
    }

    /// A write from the core.
    pub open spec fn took(self, p: PushView, now: u64) -> KeeperState {
        KeeperState { last_seq: max_seq(self.last_seq, p.seq), ..self.acted(action_of(p, now)) }
    }

    /// Writes from the core in turn, each at its time.
    pub open spec fn took_all(self, ps: Seq<(PushView, u64)>) -> KeeperState
        decreases ps.len(),
    {
        if ps.len() == 0 {
            self
        } else {
            self.took_all(ps.drop_last()).took(ps.last().0, ps.last().1)
        }
    }
}

/// The cold store after rows were stored in turn.
pub open spec fn stored_all(cold: Map<Seq<u8>, ColdRow>, rows: Seq<(Seq<u8>, ValueView, u64, u16)>) -> Map<Seq<u8>, ColdRow>
    decreases rows.len(),
{
    if rows.len() == 0 {
        cold
    } else {
        let r = rows.last();
        stored_all(cold, rows.drop_last()).insert(r.0, ColdRow { value: r.1, expires_at_ms: r.2, slot: r.3 })
    }
}

/// The row that a record of the log stands for.
pub open spec fn row_of(r: LogView) -> (Seq<u8>, ValueView, u64, u16) {
    (r.key, r.value, r.expires_at_ms, slot_of(r.key))
}

/// The rows that the records of a log stand for.
pub open spec fn log_rows(log: Seq<LogView>) -> Seq<(Seq<u8>, ValueView, u64, u16)> {
    log.map_values(|l: LogView| row_of(l))
}

/// The row that an entry of a snapshot stands for.
pub open spec fn snap_row(s: SnapView) -> (Seq<u8>, ValueView, u64, u16) {
    (s.key, s.value, s.expires_at_ms, s.slot)
}

/// The rows that the entries of a snapshot stand for.
pub open spec fn snap_rows(s: Seq<SnapView>) -> Seq<(Seq<u8>, ValueView, u64, u16)> {
    s.map_values(|e: SnapView| snap_row(e))
}

/// An entry of a snapshot is a row of the cold store.
pub open spec fn shows(s: SnapView, cold: Map<Seq<u8>, ColdRow>) -> bool {
    cold.contains_key(s.key) && cold[s.key] == (ColdRow { value: s.value, expires_at_ms: s.expires_at_ms, slot: s.slot })
}

/// Each entry of a snapshot was taken at some time in the course of the writes.
pub open spec fn taken_during(snapshot: Seq<SnapView>, before: KeeperState, ps: Seq<(PushView, u64)>) -> bool {
    forall|i: int|
        0 <= i < snapshot.len() ==> exists|k: int|
            0 <= k <= ps.len() && shows(#[trigger] snapshot[i], (#[trigger] before.took_all(ps.take(k))).cold)
}

/// No write of a list removes the key.
pub open spec fn never_removed(ps: Seq<(PushView, u64)>, key: Seq<u8>) -> bool {
    forall|i: int| 0 <= i < ps.len() && (#[trigger] ps[i]).0.key == key ==> !ps[i].0.deleted
}

/// Storing one list of rows and then another is storing both in turn.
proof fn lemma_stored_in_turn(
    cold: Map<Seq<u8>, ColdRow>,
    a: Seq<(Seq<u8>, ValueView, u64, u16)>,
    b: Seq<(Seq<u8>, ValueView, u64, u16)>,
)
    ensures
        stored_all(cold, a + b) == stored_all(stored_all(cold, a), b),
    decreases b.len(),
{
    if b.len() == 0 {
        assert(a + b =~= a);
    } else {
        assert((a + b).drop_last() =~= a + b.drop_last());
        lemma_stored_in_turn(cold, a, b.drop_last());
    }
}

/// A key has the value of the last row for it, or the one it had.
proof fn lemma_last_row_counts(
    one: Map<Seq<u8>, ColdRow>,
    other: Map<Seq<u8>, ColdRow>,
    rows: Seq<(Seq<u8>, ValueView, u64, u16)>,
    key: Seq<u8>,
)
    requires
        (one.contains_key(key) && other.contains_key(key) && one[key] == other[key]) || exists|i: int|
            0 <= i < rows.len() && (#[trigger] rows[i]).0 == key,
    ensures
        stored_all(one, rows).contains_key(key),
        stored_all(other, rows).contains_key(key),
        stored_all(one, rows)[key] == stored_all(other, rows)[key],
    decreases rows.len(),
{
    if rows.len() > 0 && rows.last().0 != key {
        let t = rows.drop_last();
        if exists|i: int| 0 <= i < rows.len() && (#[trigger] rows[i]).0 == key {
            let i = choose|i: int| 0 <= i < rows.len() && (#[trigger] rows[i]).0 == key;
            assert(t[i].0 == key);
        }
        lemma_last_row_counts(one, other, t, key);
    }
}

/// The log of a keeper holds the writes that its cold store holds of a key.
proof fn lemma_log_holds_writes(before: KeeperState, ps: Seq<(PushView, u64)>, key: Seq<u8>)
    requires
        before.log.len() == 0,
        never_removed(ps, key),
    ensures
        ({
            let after = before.took_all(ps);
            &&& stored_all(before.cold, log_rows(after.log)).contains_key(key) <==> after.cold.contains_key(key)
            &&& after.cold.contains_key(key) ==> stored_all(before.cold, log_rows(after.log))[key]
                == after.cold[key]
            &&& after.cold.contains_key(key) && !before.cold.contains_key(key) ==> exists|i: int|
                0 <= i < log_rows(after.log).len() && (#[trigger] log_rows(after.log)[i]).0 == key
        }),
    decreases ps.len(),
{
    if ps.len() > 0 {
        let t = ps.drop_last();
        assert forall|i: int| 0 <= i < t.len() && (#[trigger] t[i]).0.key == key implies !t[i].0.deleted by {
            assert(ps[i] == t[i]);
        }
        lemma_log_holds_writes(before, t, key);
        let mid = before.took_all(t);
        let p = ps.last().0;
        assert(ps[ps.len() - 1].0 == p);
        if !p.deleted {
            let after = mid.took(p, ps.last().1);
            let rows = log_rows(after.log);
            assert(after.log.drop_last() =~= mid.log);
            assert(rows.drop_last() =~= log_rows(mid.log));
            assert(rows.last() == row_of(after.log.last()));
            if p.key == key {
                assert(rows[rows.len() - 1].0 == key);
            } else if exists|i: int| 0 <= i < log_rows(mid.log).len() && (#[trigger] log_rows(mid.log)[i]).0 == key {
                let i = choose|i: int| 0 <= i < log_rows(mid.log).len() && (#[trigger] log_rows(mid.log)[i]).0 == key;
                assert(rows[i].0 == key);
            }
        }
    }
}

/// A key that is not written keeps what it has, whatever is written beside it.
proof fn lemma_unwritten_key(before: KeeperState, ps: Seq<(PushView, u64)>, key: Seq<u8>)
    requires
        before.log.len() == 0,
        never_removed(ps, key),
        !exists|i: int|
            0 <= i < log_rows(before.took_all(ps).log).len() && (#[trigger] log_rows(before.took_all(ps).log)[i]).0
                == key,
    ensures
        forall|k: int|
            0 <= k <= ps.len() ==> {
                let mid = (#[trigger] before.took_all(ps.take(k))).cold;
                &&& mid.contains_key(key) == before.cold.contains_key(key)
                &&& mid.contains_key(key) ==> mid[key] == before.cold[key]
            },
    decreases ps.len(),
{
    let rows = log_rows(before.took_all(ps).log);
    assert(ps.take(ps.len() as int) =~= ps);
    if ps.len() > 0 {
        let t = ps.drop_last();
        assert forall|i: int| 0 <= i < t.len() && (#[trigger] t[i]).0.key == key implies !t[i].0.deleted by {
            assert(ps[i] == t[i]);
        }
        let mid = before.took_all(t);
        let p = ps.last().0;
        assert(ps[ps.len() - 1].0 == p);
        if !p.deleted {
            assert(before.took_all(ps).log.drop_last() =~= mid.log);
            assert(rows.drop_last() =~= log_rows(mid.log));
            assert(rows.last().0 == p.key);
            assert(rows[rows.len() - 1].0 != key);
        }
        assert forall|i: int| 0 <= i < log_rows(mid.log).len() implies (#[trigger] log_rows(mid.log)[i]).0 != key by {
            assert(rows[i] == log_rows(mid.log)[i]);
        }
        lemma_unwritten_key(before, t, key);
        assert(t.take(t.len() as int) =~= t);
        assert forall|k: int| 0 <= k <= ps.len() implies {
            let mid = (#[trigger] before.took_all(ps.take(k))).cold;
            &&& mid.contains_key(key) == before.cold.contains_key(key)
            &&& mid.contains_key(key) ==> mid[key] == before.cold[key]
        } by {
            if k < ps.len() {
                assert(ps.take(k) =~= t.take(k));
            } else {
                assert(ps.take(k) =~= ps);
            }
        }
    }
}

/// A restart loses no write. The rows of a snapshot, taken row by row at any
/// time since the log was begun, and then the rows of the log are stored again:
/// every key that was not removed has the value, the expiry and the slot that
/// it had.
pub proof fn law_restart_keeps_writes(
    before: KeeperState,
    ps: Seq<(PushView, u64)>,
    snapshot: Seq<SnapView>,
    key: Seq<u8>,
)
    requires
        before.log.len() == 0,
        never_removed(ps, key),
        taken_during(snapshot, before, ps),
    ensures
        ({
            let after = before.took_all(ps);
            let back = stored_all(after.cold, snap_rows(snapshot) + log_rows(after.log));
            &&& after.cold.contains_key(key) ==> back.contains_key(key) && back[key] == after.cold[key]
            &&& back.contains_key(key) ==> after.cold.contains_key(key)
        }),
{
    let after = before.took_all(ps);
    let rows = log_rows(after.log);
    let snaps = snap_rows(snapshot);
    lemma_stored_in_turn(after.cold, snaps, rows);
    lemma_log_holds_writes(before, ps, key);
    let base = stored_all(after.cold, snaps);
    if exists|i: int| 0 <= i < rows.len() && (#[trigger] rows[i]).0 == key {
        lemma_last_row_counts(base, before.cold, rows, key);
    } else {
        lemma_unwritten_key(before, ps, key);
        assert(ps.take(ps.len() as int) =~= ps);
        assert(before.took_all(ps.take(ps.len() as int)) == after);
        assert forall|i: int| 0 <= i < snapshot.len() && (#[trigger] snapshot[i]).key == key implies shows(
            snapshot[i],
            after.cold,
        ) by {
            let k = choose|k: int|
                0 <= k <= ps.len() && shows(snapshot[i], (#[trigger] before.took_all(ps.take(k))).cold);
            assert(before.took_all(ps.take(k)).cold.contains_key(key));
        }
        lemma_snapshot_agrees(after.cold, snapshot, key);
        lemma_untouched(base, rows, key);
    }
}

/// Rows for other keys leave a key as it is.
proof fn lemma_untouched(cold: Map<Seq<u8>, ColdRow>, rows: Seq<(Seq<u8>, ValueView, u64, u16)>, key: Seq<u8>)
    requires
        forall|i: int| 0 <= i < rows.len() ==> (#[trigger] rows[i]).0 != key,
    ensures
        stored_all(cold, rows).contains_key(key) == cold.contains_key(key),
        cold.contains_key(key) ==> stored_all(cold, rows)[key] == cold[key],
    decreases rows.len(),
{
    if rows.len() > 0 {
        let t = rows.drop_last();
        assert(rows[rows.len() - 1].0 != key);
        assert forall|i: int| 0 <= i < t.len() implies (#[trigger] t[i]).0 != key by {
            assert(rows[i] == t[i]);
        }
        lemma_untouched(cold, t, key);
    }
}

/// A snapshot that agrees on a key leaves the key as it is.
proof fn lemma_snapshot_agrees(cold: Map<Seq<u8>, ColdRow>, snapshot: Seq<SnapView>, key: Seq<u8>)
    requires
        forall|i: int| 0 <= i < snapshot.len() && (#[trigger] snapshot[i]).key == key ==> shows(snapshot[i], cold),
    ensures
        stored_all(cold, snap_rows(snapshot)).contains_key(key) == cold.contains_key(key),
        cold.contains_key(key) ==> stored_all(cold, snap_rows(snapshot))[key] == cold[key],
    decreases snapshot.len(),
{
    if snapshot.len() > 0 {
        let t = snapshot.drop_last();
        assert forall|i: int| 0 <= i < t.len() && (#[trigger] t[i]).key == key implies shows(t[i], cold) by {
            assert(snapshot[i] == t[i]);
        }
        lemma_snapshot_agrees(cold, t, key);
        assert(snap_rows(snapshot).drop_last() =~= snap_rows(t));
        assert(snap_rows(snapshot).last() == snap_row(snapshot[snapshot.len() - 1]));
    }
}

/// What a keeper does with a write from the core.
#[derive(Debug)]
pub enum KeeperAction {
    /// Remove the key from the cold store.
    Remove { key: Vec<u8> },
    /// Append to the log, flush, and only when that is done store.
    Store { seq: u64, expires_at_ms: u64, key: Vec<u8>, value: Value, slot: u16 },
}

impl View for KeeperAction {
    type V = ActionView;

    open spec fn view(&self) -> ActionView {
        match self {
            KeeperAction::Remove { key } => ActionView::Remove { key: key@ },
            KeeperAction::Store { seq, expires_at_ms, key, value, slot } => ActionView::Store {
                seq: *seq,
                expires_at_ms: *expires_at_ms,
                key: key@,
                value: value@,
                slot: *slot,
            },
        }
    }
}

/// What a keeper does with a write from the core.
pub fn keeper_action(push: &PushKeyPayload, now_ms: u64) -> (r: KeeperAction)
    requires
        push.deleted || now_ms + push.ttl_ms <= u64::MAX,
    ensures
        r@ == action_of(push@, now_ms),
{
    if push.deleted {
        KeeperAction::Remove { key: copy_bytes(&push.key) }
    } else {
        let expires_at_ms: u64 = if push.ttl_ms > 0 {
            now_ms + push.ttl_ms
        } else {
            0
        };
        KeeperAction::Store {
            seq: push.seq,
            expires_at_ms,
            key: copy_bytes(&push.key),
            value: push.value.clone(),
            slot: Iris::slot_for(&push.key),
        }
    }
}

/// The highest sequence number after one more.
pub fn advance_seq(last_seq: u64, seq: u64) -> (r: u64)
    ensures
        r == max_seq(last_seq, seq),
{
    if last_seq < seq {
        seq
    } else {
        last_seq
    }
}

/// What a frame from the core asks a keeper for.
#[derive(Debug, Clone, Copy, PartialEq, Eq, Structural)]
pub enum KeeperFrame {
    /// Persist a write and confirm its number.
    Persist,
    /// Confirm with number 0.
    Confirm,
    /// Pass over: the answer to a heartbeat.
    Ignore,
    /// Answer with an error.
    Unexpected,
}

/// What a frame from the core asks a keeper for. Answers are passed over only
/// on the connection that the keeper made itself.
pub fn keeper_frame(cmd: CmdId, own_connection: bool) -> (r: KeeperFrame)
    ensures
        r == match cmd {
            CmdId::PushKey => KeeperFrame::Persist,
            CmdId::Heartbeat => KeeperFrame::Confirm,
            CmdId::SyncRequest => KeeperFrame::Confirm,
            CmdId::SyncStart => KeeperFrame::Confirm,
            CmdId::OkReply => if own_connection {
                KeeperFrame::Ignore
            } else {
                KeeperFrame::Unexpected
            },
            _ => KeeperFrame::Unexpected,
        },
{
    match cmd {
        CmdId::PushKey => KeeperFrame::Persist,
        CmdId::Heartbeat => KeeperFrame::Confirm,
        CmdId::SyncRequest => KeeperFrame::Confirm,
        CmdId::SyncStart => KeeperFrame::Confirm,
        CmdId::OkReply => if own_connection {
            KeeperFrame::Ignore
        } else {
            KeeperFrame::Unexpected
        },
        _ => KeeperFrame::Unexpected,
    }
}

/// The answer to a frame that a keeper does not expect.
pub open spec fn unexpected_text(cmd: CmdId) -> Seq<char> {
    "unexpected replication cmd: "@ + cmd.text()
}

/// The answer to a frame that a keeper does not expect.
pub fn unexpected_frame(cmd: CmdId) -> (r: String)
    ensures
        r@ == unexpected_text(cmd),
{
    let mut s = "unexpected replication cmd: ".to_string();
    s.append(cmd.name());
    s
}

/// What a record of the log with its value says.
pub open spec fn log_view(r: (u64, u64, Vec<u8>, Value)) -> LogView {
    LogView { seq: r.0, expires_at_ms: r.1, key: r.2@, value: r.3@ }
}

/// What the records of a log say.
pub open spec fn log_views(s: Seq<(u64, u64, Vec<u8>, Value)>) -> Seq<LogView> {
    s.map_values(|r: (u64, u64, Vec<u8>, Value)| log_view(r))
}

/// The highest number of a log.
pub open spec fn highest(log: Seq<LogView>, least: u64) -> u64
    decreases log.len(),
{
    if log.len() == 0 {
        least
    } else {
        max_seq(highest(log.drop_last(), least), log.last().seq)
    }
}

/// What a keeper stores when it starts again, in this order: the rows of its
/// snapshot, if there is one, and then those of its log. The log also gives the
/// highest number.
pub fn recovered_rows(snapshot: &Vec<SnapEntry>, records: &Vec<(u64, u64, Vec<u8>, Value)>) -> (r: (
    Vec<(Vec<u8>, Value, u64, u16)>,
    u64,
))
    ensures
        recovered_views(r.0@) == snap_rows(snap_views(snapshot@)) + log_rows(log_views(records@)),
        r.1 == highest(log_views(records@), 0),
{
    let ghost snaps = snap_rows(snap_views(snapshot@));
    let ghost all = log_views(records@);
    let mut rows: Vec<(Vec<u8>, Value, u64, u16)> = Vec::new();
    let mut i: usize = 0;
    while i < snapshot.len()
        invariant
            i <= snapshot@.len(),
            snaps == snap_rows(snap_views(snapshot@)),
            rows@.len() == i,
            forall|j: int| 0 <= j < i ==> recovered_view(#[trigger] rows@[j]) == snaps[j],
        decreases snapshot@.len() - i,
    {
        let e = &snapshot[i];
        rows.push((copy_bytes(&e.key), e.value.clone(), e.expires_at_ms, e.slot));
        i = i + 1;
    }
    let n: usize = snapshot.len();
    let mut last_seq: u64 = 0;
    let mut i: usize = 0;
    assert(all.take(0) =~= Seq::empty());
    while i < records.len()
        invariant
            i <= records@.len(),
            n == snaps.len(),
            all == log_views(records@),
            rows@.len() == n + i,
            forall|j: int| 0 <= j < n ==> recovered_view(#[trigger] rows@[j]) == snaps[j],
            forall|j: int| n <= j < n + i ==> recovered_view(#[trigger] rows@[j]) == row_of(all[j - n]),
            last_seq == highest(all.take(i as int), 0),
        decreases records@.len() - i,
    {
        let slot: u16 = Iris::slot_for(&records[i].2);
        rows.push((copy_bytes(&records[i].2), records[i].3.clone(), records[i].1, slot));
        last_seq = advance_seq(last_seq, records[i].0);
        assert(all.take(i + 1).drop_last() =~= all.take(i as int));
        i = i + 1;
    }
    assert(all.take(i as int) =~= all);
    assert(recovered_views(rows@) =~= snaps + log_rows(all));
    (rows, last_seq)
}

/// What was found of the keys of the cold store, one after the other: nothing
/// for a key that went away meanwhile.
pub open spec fn found_views(s: Seq<(Vec<u8>, Option<(Value, u64, u16)>)>) -> Seq<(Seq<u8>, EntryView)>
    decreases s.len(),
{
    if s.len() == 0 {
        Seq::empty()
    } else {
        let rest = found_views(s.drop_last());
        match s.last().1 {
            Some((v, at, slot)) => rest.push(
                (s.last().0@, EntryView { value: v@, slot, expires_at_ms: at, lfu_counter: 0 }),
            ),
            None => rest,
        }
    }
}

/// The entries that a snapshot is made of.
pub fn snapshot_entries(found: Vec<(Vec<u8>, Option<(Value, u64, u16)>)>) -> (r: Vec<(Vec<u8>, Entry)>)
    ensures
        keyed_views(r@) == found_views(found@),
{
    let mut out: Vec<(Vec<u8>, Entry)> = Vec::new();
    let mut i: usize = 0;
    assert(keyed_views(out@) =~= found_views(found@.take(0)));
    while i < found.len()
        invariant
            i <= found@.len(),
            keyed_views(out@) == found_views(found@.take(i as int)),
        decreases found@.len() - i,
    {
        proof {
            assert(found@.take(i + 1).drop_last() =~= found@.take(i as int));
        }
        match &found[i].1 {
            Some((v, at, slot)) => {
                let mut e = Entry::new(v.clone(), *slot);
                e.expires_at_ms = *at;
                let ghost before = out@;
                out.push((copy_bytes(&found[i].0), e));
                assert(keyed_views(out@) =~= keyed_views(before).push(
                    (
                        found@[i as int].0@,
                        EntryView { value: v@, slot: *slot, expires_at_ms: *at, lfu_counter: 0 },
                    ),
                ));
            },
            None => {},
        }
        i = i + 1;
    }
    assert(found@.take(i as int) =~= found@);
    out
}

/// The write that hands a row over to the core. The database number stands in
/// the key already.
pub open spec fn handed_over(r: (Seq<u8>, ValueView, u64, u16), now: u64) -> PushView {
    PushView::write(
        r.0,
        r.1,
        if r.2 > 0 {
            (r.2 - now) as u64
        } else {
            0
        },
        r.3,
        0,
    )
}

/// What a keeper hands over to a core that starts: the live rows in order. The
/// rows whose time is over are to be removed.
pub fn hand_over(rows: &Vec<(Vec<u8>, Value, u64, u16)>, now_ms: u64) -> (r: (Vec<PushKeyPayload>, Vec<Vec<u8>>))
    ensures
        push_views(r.0@) == live_rows(recovered_views(rows@), now_ms).map_values(
            |x: (Seq<u8>, ValueView, u64, u16)| handed_over(x, now_ms),
        ),
        views(r.1@) == row_keys(stale_rows(recovered_views(rows@), now_ms)),
{
    let ghost all = recovered_views(rows@);
    let ghost keep = |r: (Seq<u8>, ValueView, u64, u16)| !stale(r.2, now_ms);
    let ghost drop = |r: (Seq<u8>, ValueView, u64, u16)| stale(r.2, now_ms);
    let ghost hand = |x: (Seq<u8>, ValueView, u64, u16)| handed_over(x, now_ms);
    let mut pushes: Vec<PushKeyPayload> = Vec::new();
    let mut gone: Vec<Vec<u8>> = Vec::new();
    let mut i: usize = 0;
    assert(push_views(pushes@) =~= all.take(0).filter(keep).map_values(hand));
    assert(views(gone@) =~= row_keys(all.take(0).filter(drop)));
    while i < rows.len()
        invariant
            i <= rows@.len(),
            all == recovered_views(rows@),
            keep == (|r: (Seq<u8>, ValueView, u64, u16)| !stale(r.2, now_ms)),
            drop == (|r: (Seq<u8>, ValueView, u64, u16)| stale(r.2, now_ms)),
            hand == (|x: (Seq<u8>, ValueView, u64, u16)| handed_over(x, now_ms)),
            push_views(pushes@) == all.take(i as int).filter(keep).map_values(hand),
            views(gone@) == row_keys(all.take(i as int).filter(drop)),
        decreases rows@.len() - i,
    {
        let ghost had = all.take(i as int);
        let ghost row = all[i as int];
        proof {
            assert(all.take(i + 1) =~= had.push(row));
            had.lemma_filter_push(row, keep);
            had.lemma_filter_push(row, drop);
        }
        let at: u64 = rows[i].2;
        if is_stale(at, now_ms) {
            let ghost before = gone@;
            gone.push(copy_bytes(&rows[i].0));
            assert(views(gone@) =~= views(before).push(row.0));
            assert(row_keys(had.filter(drop).push(row)) =~= row_keys(had.filter(drop)).push(row.0));
        } else {
            let ttl: u64 = if at > 0 {
                at - now_ms
            } else {
                0
            };
            let ghost before = pushes@;
            let p = PushKeyPayload::write(copy_bytes(&rows[i].0), rows[i].1.clone(), ttl, rows[i].3, 0);
            pushes.push(p);
            assert(p@ == handed_over(row, now_ms));
            assert(push_views(pushes@) =~= push_views(before).push(p@));
            assert(had.filter(keep).push(row).map_values(hand) =~= had.filter(keep).map_values(hand).push(hand(row)));
        }
        i = i + 1;
    }
    assert(all.take(i as int) =~= all);
    (pushes, gone)
}

/// What a keeper hands over, a core takes in with the same value, slot and
/// remaining time.
pub proof fn law_handed_over_row(r: (Seq<u8>, ValueView, u64, u16), now: u64)
    requires
        !stale(r.2, now),
    ensures
        handed_over(r, now).key == r.0,
        handed_over(r, now).value == r.1,
        handed_over(r, now).slot == r.3,
        !handed_over(r, now).deleted,
        r.2 == 0 ==> handed_over(r, now).ttl_ms == 0,
        r.2 != 0 ==> handed_over(r, now).ttl_ms > 0 && expiry_of(handed_over(r, now).ttl_ms, now) == r.2,
{
}

/// A write that a keeper takes is in its cold store, with its value, the slot
/// of its key and its end, and last in the log; a removal takes the key out of
/// the cold store and leaves the log. Other keys stay, and the highest number
/// never falls.
pub proof fn law_keeper_takes(k: KeeperState, p: PushView, now: u64, other: Seq<u8>)
    requires
        now + p.ttl_ms <= u64::MAX,
    ensures
        ({
            let t = k.took(p, now);
            let end: int = if p.ttl_ms == 0 { 0 } else { now + p.ttl_ms };
            &&& p.deleted ==> !t.cold.contains_key(p.key) && t.log == k.log
            &&& !p.deleted ==> {
                &&& t.cold.contains_key(p.key)
                &&& t.cold[p.key].value == p.value
                &&& t.cold[p.key].expires_at_ms == end
                &&& t.cold[p.key].slot == slot_of(p.key)
                &&& t.log.len() == k.log.len() + 1
                &&& t.log.drop_last() == k.log
                &&& t.log.last().key == p.key && t.log.last().value == p.value && t.log.last().seq == p.seq
                    && t.log.last().expires_at_ms == end
            }
            &&& other != p.key ==> (t.cold.contains_key(other) <==> k.cold.contains_key(other))
            &&& other != p.key && k.cold.contains_key(other) ==> t.cold[other] == k.cold[other]
            &&& t.last_seq >= k.last_seq && t.last_seq >= p.seq && (t.last_seq == k.last_seq || t.last_seq == p.seq)
        }),
{
    let t = k.took(p, now);
    if !p.deleted {
        assert(t.log.drop_last() =~= k.log);
    }
}

/// The number that a log gives is the highest in it.
pub proof fn law_highest_number(log: Seq<LogView>, least: u64, i: int)
    requires
        0 <= i < log.len(),
    ensures
        highest(log, least) >= log[i].seq,
        highest(log, least) >= least,
        highest(log, least) == least || exists|j: int| 0 <= j < log.len() && (#[trigger] log[j]).seq == highest(log, least),
    decreases log.len(),
{
    let t = log.drop_last();
    if t.len() > 0 {
        law_highest_number(t, least, if i < t.len() { i } else { 0 });
        if highest(t, least) != least {
            let j = choose|j: int| 0 <= j < t.len() && (#[trigger] t[j]).seq == highest(t, least);
            assert(log[j].seq == highest(t, least));
        }
        assert(i < t.len() ==> t[i] == log[i]);
    } else {
        assert(highest(t, least) == least);
    }
    assert(log[log.len() - 1].seq == log.last().seq);
}

} // verus!
