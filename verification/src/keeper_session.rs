//! A keeper's session with the core: it announces itself, hands its keys over
//! one at a time, says that it has, and from there on serves the core's writes
//! and reports its figures.

use vstd::prelude::*;

use crate::bytes::views;
use crate::hypnos::{hand_over, handed_over};
use crate::keeper_link::{HeartbeatPayload, SyncCompletePayload, SyncStartPayload};
use crate::oneiros::{is_stale, live_rows, row_keys, stale, stale_rows};
use crate::proto::{push_views, PushKeyPayload, PushView};
use crate::replica::{doubled, wait_after, Backoff};
use crate::store::recovered_views;
use crate::value::{Value, ValueView};

verus! {

/// How often a keeper reports its figures, in milliseconds.
pub const HEARTBEAT_INTERVAL_MS: u64 = 10000;

/// The bytes that a key of the cold store is taken to need.
pub const BYTES_PER_KEY: u64 = 128;

/// Who a keeper says it is.
#[derive(Debug)]
pub struct KeeperIdentity {
    pub node_id: u64,
    pub cluster_secret: String,
    pub replication_addr: String,
    pub node_name: String,
    pub pool_bytes: u64,
}

/// Where a session stands.
#[derive(Debug, Clone, Copy, PartialEq, Eq, Structural)]
pub enum Phase {
    /// Announced, but not answered yet.
    Greeting,
    /// A key went out that is not confirmed yet.
    Handing,
    /// All keys are confirmed, but not the end of the handing over.
    Finishing,
    /// The core's writes are served.
    Serving,
}

/// What a keeper says next.
#[derive(Debug)]
pub enum Say {
    Push(PushKeyPayload),
    Complete(SyncCompletePayload),
    /// Nothing: the core speaks next.
    Nothing,
}

/// What a keeper says next.
pub enum SayView {
    Push(PushView),
    Complete(SyncCompletePayload),
    Nothing,
}

impl View for Say {
    type V = SayView;

    open spec fn view(&self) -> SayView {
        match self {
            Say::Push(p) => SayView::Push(p@),
            Say::Complete(c) => SayView::Complete(*c),
            Say::Nothing => SayView::Nothing,
        }
    }
}

/// The writes that hand rows over, in order.
pub open spec fn handed_rows(rows: Seq<(Seq<u8>, ValueView, u64, u16)>, now: u64) -> Seq<PushView> {
    live_rows(rows, now).map_values(|x: (Seq<u8>, ValueView, u64, u16)| handed_over(x, now))
}

/// What is said at turn `k`, from the first key on.
pub open spec fn said(node_id: u64, pushes: Seq<PushView>, k: int, last_seq: u64) -> SayView {
    if k < pushes.len() {
        SayView::Push(pushes[k])
    } else if k == pushes.len() {
        SayView::Complete(SyncCompletePayload { node_id, pushed_keys: pushes.len() as u64, highest_seq: last_seq })
    } else {
        SayView::Nothing
    }
}

/// How many rows are live.
pub fn count_live(rows: &Vec<(Vec<u8>, Value, u64, u16)>, now_ms: u64) -> (r: u64)
    ensures
        r == live_rows(recovered_views(rows@), now_ms).len(),
{
    let ghost all = recovered_views(rows@);
    let ghost keep = |r: (Seq<u8>, ValueView, u64, u16)| !stale(r.2, now_ms);
    let mut n: u64 = 0;
    let mut i: usize = 0;
    assert(all.take(0).filter(keep).len() == 0);
    while i < rows.len()
        invariant
            i <= rows@.len(),
            n <= i,
            all == recovered_views(rows@),
            keep == (|r: (Seq<u8>, ValueView, u64, u16)| !stale(r.2, now_ms)),
            n == all.take(i as int).filter(keep).len(),
        decreases rows@.len() - i,
    {
        proof {
            assert(all.take(i + 1) =~= all.take(i as int).push(all[i as int]));
            all.take(i as int).lemma_filter_push(all[i as int], keep);
        }
        if !is_stale(rows[i].2, now_ms) {
            n = n + 1;
        }
        i = i + 1;
    }
    assert(all.take(i as int) =~= all);
    n
}

/// A session with the core.
#[derive(Debug)]
pub struct KeeperSession {
    node_id: u64,
    phase: Phase,
    pushes: Vec<PushKeyPayload>,
    /// How many keys have gone out.
    sent: usize,
    next_beat_ms: u64,
}

impl KeeperSession {
    /// As many keys have gone out as the phase says.
    pub closed spec fn wf(&self) -> bool {
        match self.phase {
            Phase::Greeting => self.sent == 0 && self.pushes@.len() == 0,
            Phase::Handing => 0 < self.sent <= self.pushes@.len(),
            Phase::Finishing => self.sent == self.pushes@.len(),
            Phase::Serving => self.sent == self.pushes@.len(),
        }
    }

    pub closed spec fn id(&self) -> u64 {
        self.node_id
    }

    pub closed spec fn stands(&self) -> Phase {
        self.phase
    }

    /// The keys that are handed over.
    pub closed spec fn keys(&self) -> Seq<PushView> {
        push_views(self.pushes@)
    }

    /// How often the keeper has spoken since it was greeted.
    pub closed spec fn turns(&self) -> int {
        match self.phase {
            Phase::Greeting => 0,
            Phase::Handing => self.sent as int,
            Phase::Finishing => self.sent + 1,
            Phase::Serving => self.sent + 1,
        }
    }

    /// When the next report is due.
    pub closed spec fn next_beat(&self) -> u64 {
        self.next_beat_ms
    }

    /// Announces the keeper, with the number of keys that it will hand over.
    pub fn begin(who: &KeeperIdentity, last_seq: u64, rows: &Vec<(Vec<u8>, Value, u64, u16)>, now_ms: u64) -> (r: (
        KeeperSession,
        SyncStartPayload,
    ))
        ensures
            r.0.wf(),
            r.0.id() == who.node_id,
            r.0.stands() == Phase::Greeting,
            r.1.node_id == who.node_id,
            r.1.highest_seq == last_seq,
            r.1.cluster_secret@ == who.cluster_secret@,
            r.1.key_count == live_rows(recovered_views(rows@), now_ms).len(),
            r.1.version == 1,
            r.1.replication_addr@ == who.replication_addr@,
            r.1.node_name@ == who.node_name@,
            r.1.pool_bytes == who.pool_bytes,
    {
        let start = SyncStartPayload {
            node_id: who.node_id,
            highest_seq: last_seq,
            cluster_secret: who.cluster_secret.clone(),
            key_count: count_live(rows, now_ms),
            version: 1,
            replication_addr: who.replication_addr.clone(),
            node_name: who.node_name.clone(),
            pool_bytes: who.pool_bytes,
        };
        let session = KeeperSession {
            node_id: who.node_id,
            phase: Phase::Greeting,
            pushes: Vec::new(),
            sent: 0,
            next_beat_ms: 0,
        };
        (session, start)
    }

    /// The core has answered the announcement: the first key goes out, or the
    /// end of the handing over if there is none. The rows whose time is over
    /// are to be removed.
    pub fn greeted(&mut self, rows: &Vec<(Vec<u8>, Value, u64, u16)>, last_seq: u64, now_ms: u64) -> (r: (
        Say,
        Vec<Vec<u8>>,
    ))
        requires
            old(self).wf(),
            old(self).stands() == Phase::Greeting,
        ensures
            final(self).wf(),
            final(self).id() == old(self).id(),
            final(self).keys() == handed_rows(recovered_views(rows@), now_ms),
            final(self).turns() == 1,
            final(self).stands() == if final(self).keys().len() > 0 {
                Phase::Handing
            } else {
                Phase::Finishing
            },
            r.0@ == said(final(self).id(), final(self).keys(), 0, last_seq),
            views(r.1@) == row_keys(stale_rows(recovered_views(rows@), now_ms)),
    {
        let (pushes, gone) = hand_over(rows, now_ms);
        self.pushes = pushes;
        let say = if self.pushes.len() > 0 {
            self.phase = Phase::Handing;
            self.sent = 1;
            Say::Push(self.pushes[0].clone())
        } else {
            self.phase = Phase::Finishing;
            Say::Complete(SyncCompletePayload { node_id: self.node_id, pushed_keys: 0, highest_seq: last_seq })
        };
        (say, gone)
    }

    /// The core has confirmed what was said last. The next key goes out, or the
    /// end of the handing over; after that the core's writes are served.
    pub fn confirmed(&mut self, last_seq: u64, now_ms: u64) -> (r: Say)
        requires
            old(self).wf(),
            old(self).stands() == Phase::Handing || old(self).stands() == Phase::Finishing,
            now_ms + HEARTBEAT_INTERVAL_MS <= u64::MAX,
        ensures
            final(self).wf(),
            final(self).id() == old(self).id(),
            final(self).keys() == old(self).keys(),
            final(self).turns() == old(self).turns() + (if old(self).stands() == Phase::Handing {
                1int
            } else {
                0
            }),
            final(self).stands() == if old(self).stands() == Phase::Finishing {
                Phase::Serving
            } else if old(self).turns() < old(self).keys().len() {
                Phase::Handing
            } else {
                Phase::Finishing
            },
            final(self).stands() == Phase::Serving ==> final(self).next_beat() == now_ms + HEARTBEAT_INTERVAL_MS,
            r@ == said(old(self).id(), old(self).keys(), old(self).turns(), last_seq),
    {
        let n: usize = self.pushes.len();
        if self.phase == Phase::Finishing {
            self.phase = Phase::Serving;
            self.next_beat_ms = now_ms + HEARTBEAT_INTERVAL_MS;
            return Say::Nothing;
        }
        let at: usize = self.sent;
        if at < n {
            self.sent = at + 1;
            Say::Push(self.pushes[at].clone())
        } else {
            self.phase = Phase::Finishing;
            Say::Complete(
                SyncCompletePayload { node_id: self.node_id, pushed_keys: n as u64, highest_seq: last_seq },
            )
        }
    }

    /// How long to wait for a frame before the next report is due, in
    /// milliseconds.
    pub fn beat_wait(&self, now_ms: u64) -> (r: u64)
        ensures
            r == if self.next_beat() < now_ms {
                0
            } else {
                self.next_beat() - now_ms
            },
    {
        self.next_beat_ms.saturating_sub(now_ms)
    }

    /// A report is due: the bytes in the log, and a guess at the size of the
    /// cold store.
    pub fn beat(&mut self, wal_bytes: u64, key_count: u64, now_ms: u64) -> (r: HeartbeatPayload)
        requires
            old(self).wf(),
            key_count * BYTES_PER_KEY <= u64::MAX,
            now_ms + HEARTBEAT_INTERVAL_MS <= u64::MAX,
        ensures
            final(self).wf(),
            final(self).id() == old(self).id(),
            final(self).stands() == old(self).stands(),
            final(self).keys() == old(self).keys(),
            final(self).turns() == old(self).turns(),
            final(self).next_beat() == now_ms + HEARTBEAT_INTERVAL_MS,
            r == (HeartbeatPayload {
                node_id: old(self).id(),
                pool_bytes: wal_bytes,
                used_bytes: (key_count * BYTES_PER_KEY) as u64,
                key_count,
            }),
    {
        self.next_beat_ms = now_ms + HEARTBEAT_INTERVAL_MS;
        HeartbeatPayload {
            node_id: self.node_id,
            pool_bytes: wal_bytes,
            used_bytes: key_count * BYTES_PER_KEY,
            key_count,
        }
    }
}

/// Every live row is handed over once and in order, then the end is announced
/// with the number of keys that the session began with, and then nothing more
/// is said.
pub proof fn law_session_hands_over_all(
    node_id: u64,
    rows: Seq<(Seq<u8>, ValueView, u64, u16)>,
    now: u64,
    last_seq: u64,
    k: int,
)
    requires
        0 <= k,
    ensures
        ({
            let live = live_rows(rows, now);
            let pushes = handed_rows(rows, now);
            let say = said(node_id, pushes, k, last_seq);
            &&& k < live.len() ==> say == SayView::Push(handed_over(live[k], now))
            &&& k == live.len() ==> say == SayView::Complete(
                SyncCompletePayload { node_id, pushed_keys: live.len() as u64, highest_seq: last_seq },
            )
            &&& k > live.len() ==> say == SayView::Nothing
        }),
{
}

/// What a keeper that does not reach the core does next.
#[derive(Debug, Clone, Copy, PartialEq, Eq, Structural)]
pub struct Retry {
    pub wait_s: u64,
    /// The trouble is more than a passing one.
    pub persistent: bool,
}

/// The attempts of a keeper to reach the core.
#[derive(Debug)]
pub struct Attempts {
    backoff: Backoff,
    failures: u32,
}

impl Attempts {
    /// Failures since the core was reached last.
    pub closed spec fn failed_in_a_row(&self) -> u32 {
        self.failures
    }

    /// The next wait in seconds.
    pub closed spec fn next_wait(&self) -> u64 {
        self.backoff.next()
    }

    pub fn new() -> (r: Attempts)
        ensures
            r.failed_in_a_row() == 0,
            r.next_wait() == wait_after(0),
    {
        Attempts { backoff: Backoff::new(), failures: 0 }
    }

    /// The core was reached, and the session with it has ended: the waits
    /// begin anew.
    pub fn session_ended(&mut self) -> (wait_s: u64)
        ensures
            wait_s == wait_after(0),
            final(self).failed_in_a_row() == 0,
            final(self).next_wait() == doubled(wait_s),
    {
        self.backoff.reset();
        self.failures = 0;
        self.backoff.wait()
    }

    /// The core was not reached. From the tenth time in a row on that is more
    /// than a passing trouble.
    pub fn not_reached(&mut self) -> (r: Retry)
        ensures
            final(self).failed_in_a_row() == if old(self).failed_in_a_row() < u32::MAX {
                (old(self).failed_in_a_row() + 1) as u32
            } else {
                u32::MAX
            },
            r.wait_s == old(self).next_wait(),
            final(self).next_wait() == doubled(r.wait_s),
            r.persistent == (final(self).failed_in_a_row() >= 10),
    {
        self.failures = self.failures.saturating_add(1);
        Retry { wait_s: self.backoff.wait(), persistent: self.failures >= 10 }
    }
}

} // verus!
