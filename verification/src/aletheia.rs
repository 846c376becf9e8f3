//! Aletheia keeps the metrics.
//!
//! Counts are whole numbers that stop at the largest one. Ratios are kept as
//! numerator and denominator.

use vstd::prelude::*;

use crate::text::str_eq;

verus! {

/// A count that does not run over.
pub open spec fn raised(n: u64, by: u64) -> u64 {
    if n + by > u64::MAX {
        u64::MAX
    } else {
        (n + by) as u64
    }
}

fn raise(n: u64, by: u64) -> (r: u64)
    ensures
        r == raised(n, by),
{
    if n > u64::MAX - by {
        u64::MAX
    } else {
        n + by
    }
}

/// Counts by label. The second label is empty where a metric has only one.
#[derive(Debug)]
pub struct Counts {
    pub entries: Vec<(String, String, u64)>,
}

/// A label pair and its count.
pub struct CountView {
    pub label: (Seq<char>, Seq<char>),
    pub count: u64,
}

impl View for Counts {
    type V = Seq<CountView>;

    open spec fn view(&self) -> Seq<CountView> {
        self.entries@.map_values(|e: (String, String, u64)| CountView { label: (e.0@, e.1@), count: e.2 })
    }
}

/// The count of a label: 0 where it is not listed.
pub open spec fn count_of(s: Seq<CountView>, label: (Seq<char>, Seq<char>)) -> u64
    decreases s.len(),
{
    if s.len() == 0 {
        0
    } else if s[0].label == label {
        s[0].count
    } else {
        count_of(s.drop_first(), label)
    }
}

/// The counts after one more of a label, which is listed last if it is new.
pub open spec fn counted(s: Seq<CountView>, label: (Seq<char>, Seq<char>)) -> Seq<CountView>
    decreases s.len(),
{
    if s.len() == 0 {
        seq![CountView { label, count: 1 }]
    } else if s[0].label == label {
        seq![CountView { label, count: raised(s[0].count, 1) }] + s.drop_first()
    } else {
        seq![s[0]] + counted(s.drop_first(), label)
    }
}

/// One more of a label raises its count by one and leaves the others.
pub proof fn law_counted(s: Seq<CountView>, label: (Seq<char>, Seq<char>), other: (Seq<char>, Seq<char>))
    ensures
        count_of(counted(s, label), label) == raised(count_of(s, label), 1),
        other != label ==> count_of(counted(s, label), other) == count_of(s, other),
    decreases s.len(),
{
    let t = counted(s, label);
    if s.len() == 0 {
        reveal_with_fuel(count_of, 2);
        assert(t.drop_first() =~= Seq::empty());
    } else if s[0].label == label {
        assert(t.drop_first() =~= s.drop_first());
    } else {
        assert(t.drop_first() =~= counted(s.drop_first(), label));
        law_counted(s.drop_first(), label, other);
    }
}

proof fn lemma_counted_at(s: Seq<CountView>, label: (Seq<char>, Seq<char>), i: int)
    requires
        0 <= i < s.len(),
        s[i].label == label,
        forall|j: int| 0 <= j < i ==> (#[trigger] s[j]).label != label,
    ensures
        counted(s, label) == s.update(i, CountView { label, count: raised(s[i].count, 1) }),
    decreases s.len(),
{
    if i > 0 {
        assert(s[0].label != label);
        let t = s.drop_first();
        assert forall|j: int| 0 <= j < i - 1 implies (#[trigger] t[j]).label != label by {
            assert(s[j + 1].label != label);
        }
        lemma_counted_at(t, label, i - 1);
        assert(counted(s, label) =~= s.update(i, CountView { label, count: raised(s[i].count, 1) }));
    } else {
        assert(counted(s, label) =~= s.update(i, CountView { label, count: raised(s[i].count, 1) }));
    }
}

proof fn lemma_counted_new(s: Seq<CountView>, label: (Seq<char>, Seq<char>))
    requires
        forall|j: int| 0 <= j < s.len() ==> (#[trigger] s[j]).label != label,
    ensures
        counted(s, label) == s.push(CountView { label, count: 1 }),
    decreases s.len(),
{
    if s.len() > 0 {
        let t = s.drop_first();
        assert(s[0].label != label);
        assert forall|j: int| 0 <= j < t.len() implies (#[trigger] t[j]).label != label by {
            assert(s[j + 1].label != label);
        }
        lemma_counted_new(t, label);
    }
    assert(counted(s, label) =~= s.push(CountView { label, count: 1 }));
}

impl Counts {
    pub fn new() -> (r: Counts)
        ensures
            r@ == Seq::<CountView>::empty(),
    {
        let r = Counts { entries: Vec::new() };
        assert(r@ =~= Seq::empty());
        r
    }

    /// Counts one more of a label pair.
    pub fn bump(&mut self, first: &str, second: &str)
        ensures
            final(self)@ == counted(old(self)@, (first@, second@)),
    {
        let mut i: usize = 0;
        while i < self.entries.len()
            invariant
                i <= self.entries@.len(),
                self@ == old(self)@,
                forall|j: int| 0 <= j < i ==> (#[trigger] self@[j]).label != (first@, second@),
            decreases self.entries@.len() - i,
        {
            if str_eq(self.entries[i].0.as_str(), first) && str_eq(self.entries[i].1.as_str(), second) {
                let n: u64 = self.entries[i].2;
                proof {
                    assert(self@[i as int].label == (first@, second@));
                    lemma_counted_at(self@, (first@, second@), i as int);
                }
                self.entries.set(i, (first.to_string(), second.to_string(), raise(n, 1)));
                assert(self@ =~= counted(old(self)@, (first@, second@)));
                return;
            }
            assert(self@[i as int].label != (first@, second@));
            i = i + 1;
        }
        proof {
            lemma_counted_new(self@, (first@, second@));
        }
        self.entries.push((first.to_string(), second.to_string(), 1));
        assert(self@ =~= counted(old(self)@, (first@, second@)));
    }
}

/// The upper bounds of the latency buckets in microseconds.
pub open spec fn latency_bounds() -> Seq<u64> {
    seq![50u64, 150, 300, 800, 1200, 5000, 20000]
}

/// The first bucket whose bound is not below a latency; 7 for none.
pub open spec fn bucket_of(us: u64) -> int {
    if us <= 50 {
        0
    } else if us <= 150 {
        1
    } else if us <= 300 {
        2
    } else if us <= 800 {
        3
    } else if us <= 1200 {
        4
    } else if us <= 5000 {
        5
    } else if us <= 20000 {
        6
    } else {
        7
    }
}

/// A latency goes to the first bucket that takes it.
pub proof fn law_bucket(us: u64)
    ensures
        0 <= bucket_of(us) <= 7,
        bucket_of(us) < 7 ==> us <= latency_bounds()[bucket_of(us)],
        forall|i: int| 0 <= i < bucket_of(us) && i < 7 ==> latency_bounds()[i] < us,
{
}

/// Latencies of one command: how many fell into each bucket, and their sum.
#[derive(Debug)]
pub struct Latency {
    pub cmd: String,
    pub buckets: Vec<u64>,
    pub sum_us: u64,
}

/// The latencies of one command.
pub struct LatencyView {
    pub cmd: Seq<char>,
    pub buckets: Seq<u64>,
    pub sum_us: u64,
}

impl View for Latency {
    type V = LatencyView;

    open spec fn view(&self) -> LatencyView {
        LatencyView { cmd: self.cmd@, buckets: self.buckets@, sum_us: self.sum_us }
    }
}

/// What a list of latencies says.
pub open spec fn latency_views(s: Seq<Latency>) -> Seq<LatencyView> {
    s.map_values(|l: Latency| l@)
}

impl LatencyView {
    /// No latency yet.
    pub open spec fn none(cmd: Seq<char>) -> LatencyView {
        LatencyView { cmd, buckets: Seq::new(8, |i: int| 0u64), sum_us: 0 }
    }

    /// One more latency.
    pub open spec fn with(self, us: u64) -> LatencyView {
        LatencyView {
            cmd: self.cmd,
            buckets: self.buckets.update(bucket_of(us), raised(self.buckets[bucket_of(us)], 1)),
            sum_us: raised(self.sum_us, us),
        }
    }
}

/// The latencies after one more of a command, which is listed last if it is
/// new.
pub open spec fn observed(s: Seq<LatencyView>, cmd: Seq<char>, us: u64) -> Seq<LatencyView>
    decreases s.len(),
{
    if s.len() == 0 {
        seq![LatencyView::none(cmd).with(us)]
    } else if s[0].cmd == cmd {
        seq![s[0].with(us)] + s.drop_first()
    } else {
        seq![s[0]] + observed(s.drop_first(), cmd, us)
    }
}

proof fn lemma_observed_at(s: Seq<LatencyView>, cmd: Seq<char>, us: u64, i: int)
    requires
        0 <= i < s.len(),
        s[i].cmd == cmd,
        forall|j: int| 0 <= j < i ==> (#[trigger] s[j]).cmd != cmd,
    ensures
        observed(s, cmd, us) == s.update(i, s[i].with(us)),
    decreases s.len(),
{
    if i > 0 {
        assert(s[0].cmd != cmd);
        let t = s.drop_first();
        assert forall|j: int| 0 <= j < i - 1 implies (#[trigger] t[j]).cmd != cmd by {
            assert(s[j + 1].cmd != cmd);
        }
        lemma_observed_at(t, cmd, us, i - 1);
    }
    assert(observed(s, cmd, us) =~= s.update(i, s[i].with(us)));
}

proof fn lemma_observed_new(s: Seq<LatencyView>, cmd: Seq<char>, us: u64)
    requires
        forall|j: int| 0 <= j < s.len() ==> (#[trigger] s[j]).cmd != cmd,
    ensures
        observed(s, cmd, us) == s.push(LatencyView::none(cmd).with(us)),
    decreases s.len(),
{
    if s.len() > 0 {
        let t = s.drop_first();
        assert(s[0].cmd != cmd);
        assert forall|j: int| 0 <= j < t.len() implies (#[trigger] t[j]).cmd != cmd by {
            assert(s[j + 1].cmd != cmd);
        }
        lemma_observed_new(t, cmd, us);
    }
    assert(observed(s, cmd, us) =~= s.push(LatencyView::none(cmd).with(us)));
}

fn find_bucket(us: u64) -> (r: usize)
    ensures
        r == bucket_of(us),
{
    if us <= 50 {
        0
    } else if us <= 150 {
        1
    } else if us <= 300 {
        2
    } else if us <= 800 {
        3
    } else if us <= 1200 {
        4
    } else if us <= 5000 {
        5
    } else if us <= 20000 {
        6
    } else {
        7
    }
}

/// The metrics. A gauge holds the last value set. The pool pressure is the
/// pair of numbers that it is the ratio of.
#[derive(Debug)]
pub struct Aletheia {
    pub conn_accepted: u64,
    pub conn_rejected: Counts,
    pub conn_active: usize,
    pub conn_idle: usize,
    /// By command and result.
    pub commands: Counts,
    /// By command and consistency level.
    pub requests: Counts,
    pub latencies: Vec<Latency>,
    pub in_flight: usize,
    pub pool_used: u64,
    pub pool_total: u64,
    pub pool_pressure: (u64, u64),
    pub evictions: Counts,
    pub cold_fetches: u64,
    pub replication_frames: Counts,
    pub replication_errors: Counts,
    pub keeper_connections: usize,
    pub wal_bytes: u64,
    pub wal_rotations: u64,
    pub cluster_term: u64,
    pub is_leader: bool,
    pub live_nodes: usize,
    pub elections: u64,
    pub slot_migrations: u64,
    pub hw_enabled: bool,
    pub hw_counters: (u64, u64, u64),
}

/// What the metrics say.
#[verifier::ext_equal]
pub struct MetricsView {
    pub conn_accepted: u64,
    pub conn_rejected: Seq<CountView>,
    pub conn_active: usize,
    pub conn_idle: usize,
    pub commands: Seq<CountView>,
    pub requests: Seq<CountView>,
    pub latencies: Seq<LatencyView>,
    pub in_flight: usize,
    pub pool_used: u64,
    pub pool_total: u64,
    pub pool_pressure: (u64, u64),
    pub evictions: Seq<CountView>,
    pub cold_fetches: u64,
    pub replication_frames: Seq<CountView>,
    pub replication_errors: Seq<CountView>,
    pub keeper_connections: usize,
    pub wal_bytes: u64,
    pub wal_rotations: u64,
    pub cluster_term: u64,
    pub is_leader: bool,
    pub live_nodes: usize,
    pub elections: u64,
    pub slot_migrations: u64,
    pub hw_enabled: bool,
    pub hw_counters: (u64, u64, u64),
}

impl MetricsView {
    /// Nothing measured yet.
    pub open spec fn fresh(hw_enabled: bool) -> MetricsView {
        MetricsView {
            conn_accepted: 0,
            conn_rejected: Seq::empty(),
            conn_active: 0,
            conn_idle: 0,
            commands: Seq::empty(),
            requests: Seq::empty(),
            latencies: Seq::empty(),
            in_flight: 0,
            pool_used: 0,
            pool_total: 0,
            pool_pressure: (0, 1),
            evictions: Seq::empty(),
            cold_fetches: 0,
            replication_frames: Seq::empty(),
            replication_errors: Seq::empty(),
            keeper_connections: 0,
            wal_bytes: 0,
            wal_rotations: 0,
            cluster_term: 0,
            is_leader: false,
            live_nodes: 0,
            elections: 0,
            slot_migrations: 0,
            hw_enabled,
            hw_counters: (0, 0, 0),
        }
    }
}

impl View for Aletheia {
    type V = MetricsView;

    open spec fn view(&self) -> MetricsView {
        MetricsView {
            conn_accepted: self.conn_accepted,
            conn_rejected: self.conn_rejected@,
            conn_active: self.conn_active,
            conn_idle: self.conn_idle,
            commands: self.commands@,
            requests: self.requests@,
            latencies: latency_views(self.latencies@),
            in_flight: self.in_flight,
            pool_used: self.pool_used,
            pool_total: self.pool_total,
            pool_pressure: self.pool_pressure,
            evictions: self.evictions@,
            cold_fetches: self.cold_fetches,
            replication_frames: self.replication_frames@,
            replication_errors: self.replication_errors@,
            keeper_connections: self.keeper_connections,
            wal_bytes: self.wal_bytes,
            wal_rotations: self.wal_rotations,
            cluster_term: self.cluster_term,
            is_leader: self.is_leader,
            live_nodes: self.live_nodes,
            elections: self.elections,
            slot_migrations: self.slot_migrations,
            hw_enabled: self.hw_enabled,
            hw_counters: self.hw_counters,
        }
    }
}

impl Aletheia {
    /// Every list of latencies has a count for each bucket.
    pub open spec fn wf(self) -> bool {
        forall|i: int| 0 <= i < self.latencies@.len() ==> (#[trigger] self.latencies@[i]).buckets@.len() == 8
    }

    /// Starts with nothing measured; `hw_enabled` says whether the machine's
    /// counters can be read.
    pub fn new(hw_enabled: bool) -> (r: Aletheia)
        ensures
            r.wf(),
            r@ == MetricsView::fresh(hw_enabled),
    {
        let r = Aletheia {
            conn_accepted: 0,
            conn_rejected: Counts::new(),
            conn_active: 0,
            conn_idle: 0,
            commands: Counts::new(),
            requests: Counts::new(),
            latencies: Vec::new(),
            in_flight: 0,
            pool_used: 0,
            pool_total: 0,
            pool_pressure: (0, 1),
            evictions: Counts::new(),
            cold_fetches: 0,
            replication_frames: Counts::new(),
            replication_errors: Counts::new(),
            keeper_connections: 0,
            wal_bytes: 0,
            wal_rotations: 0,
            cluster_term: 0,
            is_leader: false,
            live_nodes: 0,
            elections: 0,
            slot_migrations: 0,
            hw_enabled,
            hw_counters: (0, 0, 0),
        };
        assert(r@ =~= MetricsView::fresh(hw_enabled));
        r
    }

    /// Counts a connection that was let in.
    pub fn record_conn_accepted(&mut self)
        requires
            old(self).wf(),
        ensures
            final(self).wf(),
            final(self)@ == (MetricsView { conn_accepted: raised(old(self)@.conn_accepted, 1), ..old(self)@ }),
    {
        self.conn_accepted = raise(self.conn_accepted, 1);
    }

    /// Counts a connection that was turned away, by reason.
    pub fn record_conn_rejected(&mut self, reason: &str)
        requires
            old(self).wf(),
        ensures
            final(self).wf(),
            final(self)@ == (MetricsView { conn_rejected: counted(old(self)@.conn_rejected, (reason@, ""@)), ..old(self)@ }),
    {
        self.conn_rejected.bump(reason, "");
    }

    /// Sets the number of open connections.
    pub fn set_conn_active(&mut self, n: usize)
        requires
            old(self).wf(),
        ensures
            final(self).wf(),
            final(self)@ == (MetricsView { conn_active: n, ..old(self)@ }),
    {
        self.conn_active = n;
    }

    /// Sets the number of idle connections.
    pub fn set_conn_idle(&mut self, n: usize)
        requires
            old(self).wf(),
        ensures
            final(self).wf(),
            final(self)@ == (MetricsView { conn_idle: n, ..old(self)@ }),
    {
        self.conn_idle = n;
    }

    /// Sets the number of requests under way.
    pub fn set_in_flight(&mut self, n: usize)
        requires
            old(self).wf(),
        ensures
            final(self).wf(),
            final(self)@ == (MetricsView { in_flight: n, ..old(self)@ }),
    {
        self.in_flight = n;
    }

    /// Sets the bytes in use and the limit. The pressure keeps its last value
    /// where the limit is 0.
    pub fn set_pool_usage(&mut self, used: u64, total: u64)
        requires
            old(self).wf(),
        ensures
            final(self).wf(),
            final(self)@ == (MetricsView {
                pool_used: used,
                pool_total: total,
                pool_pressure: if total > 0 {
                    (used, total)
                } else {
                    old(self)@.pool_pressure
                },
                ..old(self)@
            }),
    {
        self.pool_used = used;
        self.pool_total = total;
        if total > 0 {
            self.pool_pressure = (used, total);
        }
    }

    /// Counts an eviction, by reason.
    pub fn record_eviction(&mut self, reason: &str)
        requires
            old(self).wf(),
        ensures
            final(self).wf(),
            final(self)@ == (MetricsView { evictions: counted(old(self)@.evictions, (reason@, ""@)), ..old(self)@ }),
    {
        self.evictions.bump(reason, "");
    }

    /// Counts a value fetched from cold storage.
    pub fn record_cold_fetch(&mut self)
        requires
            old(self).wf(),
        ensures
            final(self).wf(),
            final(self)@ == (MetricsView { cold_fetches: raised(old(self)@.cold_fetches, 1), ..old(self)@ }),
    {
        self.cold_fetches = raise(self.cold_fetches, 1);
    }

    /// Sets the number of connected keepers.
    pub fn set_keeper_connections(&mut self, n: usize)
        requires
            old(self).wf(),
        ensures
            final(self).wf(),
            final(self)@ == (MetricsView { keeper_connections: n, ..old(self)@ }),
    {
        self.keeper_connections = n;
    }

    /// Counts a replicated frame, by keeper.
    pub fn record_replication_frame(&mut self, keeper_id: &str)
        requires
            old(self).wf(),
        ensures
            final(self).wf(),
            final(self)@ == (MetricsView { replication_frames: counted(old(self)@.replication_frames, (keeper_id@, ""@)), ..old(self)@ }),
    {
        self.replication_frames.bump(keeper_id, "");
    }

    /// Counts a failed replication, by keeper.
    pub fn record_replication_error(&mut self, keeper_id: &str)
        requires
            old(self).wf(),
        ensures
            final(self).wf(),
            final(self)@ == (MetricsView { replication_errors: counted(old(self)@.replication_errors, (keeper_id@, ""@)), ..old(self)@ }),
    {
        self.replication_errors.bump(keeper_id, "");
    }

    /// Counts bytes written to the log.
    pub fn record_wal_write(&mut self, bytes: u64)
        requires
            old(self).wf(),
        ensures
            final(self).wf(),
            final(self)@ == (MetricsView { wal_bytes: raised(old(self)@.wal_bytes, bytes), ..old(self)@ }),
    {
        self.wal_bytes = raise(self.wal_bytes, bytes);
    }

    /// Counts a rotation of the log.
    pub fn record_wal_rotation(&mut self)
        requires
            old(self).wf(),
        ensures
            final(self).wf(),
            final(self)@ == (MetricsView { wal_rotations: raised(old(self)@.wal_rotations, 1), ..old(self)@ }),
    {
        self.wal_rotations = raise(self.wal_rotations, 1);
    }

    /// Sets the current term.
    pub fn set_cluster_term(&mut self, term: u64)
        requires
            old(self).wf(),
        ensures
            final(self).wf(),
            final(self)@ == (MetricsView { cluster_term: term, ..old(self)@ }),
    {
        self.cluster_term = term;
    }

    /// Sets whether this node leads.
    pub fn set_is_leader(&mut self, v: bool)
        requires
            old(self).wf(),
        ensures
            final(self).wf(),
            final(self)@ == (MetricsView { is_leader: v, ..old(self)@ }),
    {
        self.is_leader = v;
    }

    /// Sets the number of live nodes.
    pub fn set_live_nodes(&mut self, n: usize)
        requires
            old(self).wf(),
        ensures
            final(self).wf(),
            final(self)@ == (MetricsView { live_nodes: n, ..old(self)@ }),
    {
        self.live_nodes = n;
    }

    /// Counts an election.
    pub fn record_election(&mut self)
        requires
            old(self).wf(),
        ensures
            final(self).wf(),
            final(self)@ == (MetricsView { elections: raised(old(self)@.elections, 1), ..old(self)@ }),
    {
        self.elections = raise(self.elections, 1);
    }

    /// Counts a slot that moved.
    pub fn record_slot_migration(&mut self)
        requires
            old(self).wf(),
        ensures
            final(self).wf(),
            final(self)@ == (MetricsView { slot_migrations: raised(old(self)@.slot_migrations, 1), ..old(self)@ }),
    {
        self.slot_migrations = raise(self.slot_migrations, 1);
    }

    /// Takes a reading of the machine's counters. Nothing changes where they
    /// cannot be read.
    pub fn sample_hw_counters(&mut self, reading: Option<(u64, u64, u64)>)
        requires
            old(self).wf(),
        ensures
            final(self).wf(),
            final(self)@ == (MetricsView {
                hw_counters: match reading {
                    Some(c) if old(self)@.hw_enabled => c,
                    _ => old(self)@.hw_counters,
                },
                ..old(self)@
            }),
    {
        if self.hw_enabled {
            match reading {
                Some(c) => {
                    self.hw_counters = c;
                },
                None => {},
            }
        }
    }

    /// Counts a command by the consistency level that was asked for.
    pub fn record_request(&mut self, cmd: &str, level: &str)
        requires
            old(self).wf(),
        ensures
            final(self).wf(),
            final(self)@ == (MetricsView { requests: counted(old(self)@.requests, (cmd@, level@)), ..old(self)@ }),
    {
        self.requests.bump(cmd, level);
    }

    /// Counts a command by its result, and its latency.
    pub fn record_cmd(&mut self, cmd: &str, result: &str, latency_us: u64)
        requires
            old(self).wf(),
        ensures
            final(self).wf(),
            final(self)@ == (MetricsView {
                commands: counted(old(self)@.commands, (cmd@, result@)),
                latencies: observed(old(self)@.latencies, cmd@, latency_us),
                ..old(self)@
            }),
    {
        self.commands.bump(cmd, result);
        let b = find_bucket(latency_us);
        let ghost lats = latency_views(self.latencies@);
        let mut i: usize = 0;
        while i < self.latencies.len()
            invariant
                i <= self.latencies@.len(),
                b == bucket_of(latency_us),
                self.wf(),
                lats == latency_views(self.latencies@),
                lats == old(self)@.latencies,
                self@ == (MetricsView {
                    commands: counted(old(self)@.commands, (cmd@, result@)),
                    ..old(self)@
                }),
                forall|j: int| 0 <= j < i ==> (#[trigger] lats[j]).cmd != cmd@,
            decreases self.latencies@.len() - i,
        {
            if str_eq(self.latencies[i].cmd.as_str(), cmd) {
                let n: u64 = self.latencies[i].buckets[b];
                let sum: u64 = self.latencies[i].sum_us;
                proof {
                    assert(lats[i as int].cmd == cmd@);
                    lemma_observed_at(lats, cmd@, latency_us, i as int);
                }
                let ghost before = self.latencies@;
                let l = &mut self.latencies[i];
                l.buckets.set(b, raise(n, 1));
                l.sum_us = raise(sum, latency_us);
                proof {
                    assert forall|j: int| 0 <= j < self.latencies@.len() implies (#[trigger] self.latencies@[j]).buckets@.len() == 8 by {
                        assert(before[j].buckets@.len() == 8);
                    }
                    assert(self.latencies@[i as int]@.buckets =~= lats[i as int].with(latency_us).buckets);
                    assert(latency_views(self.latencies@) =~= observed(lats, cmd@, latency_us));
                }
                return;
            }
            assert(lats[i as int].cmd != cmd@);
            i = i + 1;
        }
        proof {
            lemma_observed_new(lats, cmd@, latency_us);
        }
        let mut buckets: Vec<u64> = Vec::new();
        let mut k: usize = 0;
        while k < 8
            invariant
                k <= 8,
                buckets@ == Seq::new(k as nat, |i: int| 0u64),
            decreases 8 - k,
        {
            buckets.push(0);
            k = k + 1;
            assert(buckets@ =~= Seq::new(k as nat, |i: int| 0u64));
        }
        buckets.set(b, raise(0, 1));
        let l = Latency { cmd: cmd.to_string(), buckets, sum_us: raise(0, latency_us) };
        let ghost before = self.latencies@;
        self.latencies.push(l);
        proof {
            assert forall|j: int| 0 <= j < self.latencies@.len() implies (#[trigger] self.latencies@[j]).buckets@.len() == 8 by {
                if j < before.len() {
                    assert(before[j].buckets@.len() == 8);
                }
            }
            assert(l@.buckets =~= LatencyView::none(cmd@).with(latency_us).buckets);
            assert(latency_views(self.latencies@) =~= observed(lats, cmd@, latency_us));
        }
    }
}

/// A latency adds to the sum of its command and to one bucket, the first whose
/// bound it does not pass: 50, 150, 300, 800, 1200, 5000 and 20000 microseconds,
/// and the last for what is above. The other commands stay as they are. A
/// command without latencies is listed last.
pub proof fn law_latency_observed(s: Seq<LatencyView>, cmd: Seq<char>, us: u64, i: int, j: int, b: int)
    requires
        0 <= i < s.len(),
        0 <= j < s.len(),
        0 <= b < 8,
        forall|k: int| 0 <= k < i ==> (#[trigger] s[k]).cmd != cmd,
        s[i].buckets.len() == 8,
    ensures
        ({
            let t = observed(s, cmd, us);
            let bounds = seq![50int, 150, 300, 800, 1200, 5000, 20000];
            let falls = (b == 0 || bounds[b - 1] < us) && (b == 7 || us <= bounds[b]);
            &&& s[i].cmd == cmd ==> {
                &&& t.len() == s.len()
                &&& s[i].sum_us + us <= u64::MAX ==> t[i].sum_us == s[i].sum_us + us
                &&& t[i].cmd == cmd
                &&& falls && s[i].buckets[b] < u64::MAX ==> t[i].buckets[b] == s[i].buckets[b] + 1
                &&& !falls ==> t[i].buckets[b] == s[i].buckets[b]
                &&& j != i ==> t[j] == s[j]
            }
            &&& (forall|k: int| 0 <= k < s.len() ==> (#[trigger] s[k]).cmd != cmd) ==> {
                &&& t.len() == s.len() + 1
                &&& t.drop_last() == s
                &&& t.last().cmd == cmd && t.last().sum_us == us && t.last().buckets.len() == 8
                &&& t.last().buckets[b] == if falls { 1u64 } else { 0u64 }
            }
        }),
{
    if s[i].cmd == cmd {
        lemma_observed_at(s, cmd, us, i);
    }
    if forall|k: int| 0 <= k < s.len() ==> (#[trigger] s[k]).cmd != cmd {
        lemma_observed_new(s, cmd, us);
        assert(observed(s, cmd, us).drop_last() =~= s);
    }
}

} // verus!
