//! Mnemosyne, the node: it puts commands through the gates, runs them, and
//! keeps house in between.

use vstd::prelude::*;

use crate::aletheia::{counted, observed, Aletheia, CountView, MetricsView};
use crate::argus::{check_token, with_revoked, Argus};
use crate::assoc::{assoc, distinct_keys};
use crate::bytes::{copy_bytes, views};
use crate::cluster_info::{cluster_info, info_of, stats_line, stats_of, Figures, RaftFacts};
use crate::command_laws::{
    keeps, law_events_keep, law_only_writes_change, law_reads_change_nothing, same_content, writes_key, StoreEvent,
};
use crate::commands::DataCommand;
use crate::dbs::{by_id, created, db_views, name_not_found, resolved, seeded, DbInfo, DbRegistry};
use crate::delphi::{newest, ring_pushed, slow_views, CommandView, Delphi, MonitorEvent, SlowEntry};
use crate::herold::{bundle_of, join_bundle};
use crate::iris::{slot_of, Iris, NUM_SLOTS};
use crate::moirai::{keeper_views, KeeperInfo, Moirai};
use crate::pool::{all_db_keys, are_evicted, capped, db_key, db_keys, eviction_quota, make_db_key, weight_of, wrap, EvictionReason};
use crate::proto::{push_views, CmdId, ConsistencyLevel, PushKeyPayload, PushView};
use crate::rbac::{is_write_cmd, reads, writes};
use crate::reply::{answer, ok_str, slow_triples, Reply, ReplyView};
use crate::settings::{find_param, no_such_param, param_of, parse_size, size_value, unknown_param, NodeRole, Param, Settings, SettingsView};
use crate::store::{Store, StoreView};
use crate::store_laws::law_set_then_get;
use crate::text::{decimal, u64_text};
use crate::users::{
    by_id as users_by_id, checked, delete_refused, is_account, known, max_id, place, role_refused, with_db, with_dbs,
    with_role, with_user, without_db, without_user, UserError, UserView, SALT_LEN,
};
use crate::value::{EntryView, ErrorView, MnemeError, Value};
use crate::warmup::{blocked, gated_read, must_wait, WarmupState};

verus! {

/// From how many microseconds on a command is slow.
pub const SLOW_AFTER_US: u64 = 1000;

/// How many slow commands are kept.
pub const SLOW_ENTRIES: usize = 128;

/// The node.
pub struct Mnemosyne {
    pub store: Store,
    pub iris: Iris,
    pub moirai: Moirai,
    pub argus: Argus,
    pub aletheia: Aletheia,
    pub delphi: Delphi,
    pub settings: Settings,
    pub warmup: WarmupState,
    pub dbs: DbRegistry,
}

/// Who asks: the number of the account, and whether it is an administrator's.
#[derive(Debug, Clone, Copy, PartialEq, Eq, Structural)]
pub struct Caller {
    pub user_id: u64,
    pub admin: bool,
}

/// A command for the node. What depends on the clock of the consensus, on
/// files or on floating-point numbers was worked out before.
#[derive(Debug)]
#[allow(inconsistent_fields)]
pub enum NodeCommand {
    Data(DataCommand),
    DbSize { name: String, db_id: Option<u16> },
    FlushDb { name: String, db_id: Option<u16>, sync: bool },
    DbCreate { name: String, db_id: Option<u16> },
    DbList,
    DbDrop { name: String },
    RevokeToken { token: String },
    SlowLog { count: usize },
    Metrics,
    /// The share of the pool in use, in words.
    Stats { ratio: String },
    Monitor,
    Select,
    /// `threshold` is the value as a number in words, where it is one;
    /// `pressed` says whether the pool would be filled beyond the threshold
    /// under the new limit.
    ConfigSet { param: String, value: String, threshold: Option<String>, pressed: bool },
    ConfigGet { param: String },
    ClusterInfo { raft: RaftFacts, pressure: String },
    ClusterSlots,
    KeeperList,
    PoolStats,
    Wait { n_keepers: usize },
    /// The certificate of the authority, or why it cannot be read.
    GenerateJoinToken { ca: Result<Vec<u8>, String> },
    UserCreate { username: String, password: String, role: String },
    UserDelete { username: String },
    UserList,
    UserGrant { username: String, db_id: u16 },
    UserRevoke { username: String, db_id: u16 },
    UserSetRole { username: String, role: String },
    UserInfo { username: Option<String>, caller: Caller },
    /// Nothing that a client may ask for.
    Unhandled { cmd: CmdId },
}

impl NodeCommand {
    /// The command changes nothing.
    pub open spec fn only_asks(self) -> bool {
        match self {
            NodeCommand::Data(_) => false,
            NodeCommand::FlushDb { .. } => false,
            NodeCommand::DbCreate { .. } => false,
            NodeCommand::DbDrop { .. } => false,
            NodeCommand::RevokeToken { .. } => false,
            NodeCommand::ConfigSet { .. } => false,
            NodeCommand::UserCreate { .. } => false,
            NodeCommand::UserDelete { .. } => false,
            NodeCommand::UserGrant { .. } => false,
            NodeCommand::UserRevoke { .. } => false,
            NodeCommand::UserSetRole { .. } => false,
            _ => true,
        }
    }

    pub open spec fn id(self) -> CmdId {
        match self {
            NodeCommand::Data(c) => c.id(),
            NodeCommand::DbSize { .. } => CmdId::DbSize,
            NodeCommand::FlushDb { .. } => CmdId::FlushDb,
            NodeCommand::DbCreate { .. } => CmdId::DbCreate,
            NodeCommand::DbList => CmdId::DbList,
            NodeCommand::DbDrop { .. } => CmdId::DbDrop,
            NodeCommand::RevokeToken { .. } => CmdId::RevokeToken,
            NodeCommand::SlowLog { .. } => CmdId::SlowLog,
            NodeCommand::Metrics => CmdId::Metrics,
            NodeCommand::Stats { .. } => CmdId::Stats,
            NodeCommand::Monitor => CmdId::Monitor,
            NodeCommand::Select => CmdId::Select,
            NodeCommand::ConfigSet { .. } => CmdId::Config,
            NodeCommand::ConfigGet { .. } => CmdId::Config,
            NodeCommand::ClusterInfo { .. } => CmdId::ClusterInfo,
            NodeCommand::ClusterSlots => CmdId::ClusterSlots,
            NodeCommand::KeeperList => CmdId::KeeperList,
            NodeCommand::PoolStats => CmdId::PoolStats,
            NodeCommand::Wait { .. } => CmdId::Wait,
            NodeCommand::GenerateJoinToken { .. } => CmdId::GenerateJoinToken,
            NodeCommand::UserCreate { .. } => CmdId::UserCreate,
            NodeCommand::UserDelete { .. } => CmdId::UserDelete,
            NodeCommand::UserList => CmdId::UserList,
            NodeCommand::UserGrant { .. } => CmdId::UserGrant,
            NodeCommand::UserRevoke { .. } => CmdId::UserRevoke,
            NodeCommand::UserSetRole { .. } => CmdId::UserSetRole,
            NodeCommand::UserInfo { .. } => CmdId::UserInfo,
            NodeCommand::Unhandled { cmd } => cmd,
        }
    }
}

/// Commands that only the leader runs: those that change data, names of
/// databases, settings or accounts.
pub open spec fn leader_only(cmd: CmdId) -> bool {
    writes(cmd) || cmd == CmdId::DbCreate || cmd == CmdId::DbDrop || cmd == CmdId::Config || cmd == CmdId::UserCreate || cmd
        == CmdId::UserDelete || cmd == CmdId::UserGrant || cmd == CmdId::UserRevoke || cmd == CmdId::UserSetRole
}

/// Whether only the leader runs a command.
pub fn needs_leader(cmd: CmdId) -> (r: bool)
    ensures
        r == leader_only(cmd),
{
    match cmd {
        CmdId::DbCreate | CmdId::DbDrop | CmdId::Config | CmdId::UserCreate | CmdId::UserDelete | CmdId::UserGrant
        | CmdId::UserRevoke | CmdId::UserSetRole => true,
        _ => is_write_cmd(cmd),
    }
}

/// Commands that are refused for want of room before anything else.
pub open spec fn wants_room(cmd: CmdId) -> bool {
    cmd == CmdId::SetKey || cmd == CmdId::HSet || cmd == CmdId::LPush || cmd == CmdId::RPush || cmd == CmdId::ZAdd || cmd
        == CmdId::JsonSet || cmd == CmdId::MSet
}

fn needs_room(cmd: CmdId) -> (r: bool)
    ensures
        r == wants_room(cmd),
{
    match cmd {
        CmdId::SetKey | CmdId::HSet | CmdId::LPush | CmdId::RPush | CmdId::ZAdd | CmdId::JsonSet | CmdId::MSet => true,
        _ => false,
    }
}

/// What a command stands for whose payload could not be read: some commands
/// have a default.
pub open spec fn is_default(cmd: CmdId, c: NodeCommand, who: Caller) -> bool {
    match cmd {
        CmdId::SlowLog => c == (NodeCommand::SlowLog { count: 128 }),
        CmdId::DbSize => c matches NodeCommand::DbSize { name, db_id } && name@.len() == 0 && db_id is None,
        CmdId::FlushDb => c matches NodeCommand::FlushDb { name, db_id, sync } && name@.len() == 0 && db_id is None && sync,
        CmdId::Scan => c matches NodeCommand::Data(DataCommand::Scan { cursor, pattern, count }) && cursor == 0
            && pattern is None && count == 10,
        CmdId::UserInfo => c matches NodeCommand::UserInfo { username, caller } && username is None && caller == who,
        _ => false,
    }
}

/// Commands that have a default.
pub open spec fn has_default(cmd: CmdId) -> bool {
    cmd == CmdId::SlowLog || cmd == CmdId::DbSize || cmd == CmdId::FlushDb || cmd == CmdId::Scan || cmd == CmdId::UserInfo
}

/// The default of a command whose payload could not be read.
pub fn default_of(cmd: CmdId, who: Caller) -> (r: Option<NodeCommand>)
    ensures
        r is Some <==> has_default(cmd),
        r matches Some(c) ==> is_default(cmd, c, who) && c.id() == cmd,
{
    proof {
        reveal_strlit("");
    }
    match cmd {
        CmdId::SlowLog => Some(NodeCommand::SlowLog { count: 128 }),
        CmdId::DbSize => Some(NodeCommand::DbSize { name: "".to_string(), db_id: None }),
        CmdId::FlushDb => Some(NodeCommand::FlushDb { name: "".to_string(), db_id: None, sync: true }),
        CmdId::Scan => Some(NodeCommand::Data(DataCommand::Scan { cursor: 0, pattern: None, count: 10 })),
        CmdId::UserInfo => Some(NodeCommand::UserInfo { username: None, caller: who }),
        _ => None,
    }
}

/// Counts of a label after `n` more.
pub open spec fn counted_times(s: Seq<CountView>, label: (Seq<char>, Seq<char>), n: nat) -> Seq<CountView>
    decreases n,
{
    if n == 0 {
        s
    } else {
        counted(counted_times(s, label, (n - 1) as nat), label)
    }
}

/// The name of the reason for an eviction.
pub open spec fn reason_text(reason: EvictionReason) -> Seq<char> {
    match reason {
        EvictionReason::Oom => "oom"@,
        EvictionReason::Lfu => "lfu"@,
    }
}

/// One round of eviction took these keys for this reason.
pub open spec fn evicted_by(
    s: StoreView,
    m: MetricsView,
    t: StoreView,
    n: MetricsView,
    pressed: bool,
    now: u64,
    reason: EvictionReason,
    gone: Seq<Seq<u8>>,
) -> bool {
    &&& reason == (if s.full() {
        EvictionReason::Oom
    } else {
        EvictionReason::Lfu
    })
    &&& s.full() || pressed
    &&& are_evicted(gone, s.map, eviction_quota(reason, capped(s.map.dom().len()) as int) as usize, now)
    &&& t == (StoreView {
        map: s.map.remove_keys(gone.to_set()),
        used: wrap(s.used - weight_of(s.map, s.map.dom().intersect(gone.to_set()))),
        ..s
    })
    &&& n == (MetricsView {
        evictions: counted_times(m.evictions, (reason_text(reason), ""@), gone.len()),
        ..m
    })
}

/// One round of eviction: nothing where there is room enough, else the least
/// used of a sample go, and the metrics count them.
pub open spec fn relieved(s: StoreView, m: MetricsView, t: StoreView, n: MetricsView, pressed: bool, now: u64) -> bool {
    if !s.full() && !pressed {
        t == s && n == m
    } else {
        exists|reason: EvictionReason, gone: Seq<Seq<u8>>| #[trigger] evicted_by(s, m, t, n, pressed, now, reason, gone)
    }
}

/// Counts a label several times.
fn count_evictions(metrics: &mut Aletheia, reason: &str, n: usize)
    requires
        old(metrics).wf(),
    ensures
        final(metrics).wf(),
        final(metrics)@ == (MetricsView {
            evictions: counted_times(old(metrics)@.evictions, (reason@, ""@), n as nat),
            ..old(metrics)@
        }),
{
    let mut i: usize = 0;
    while i < n
        invariant
            i <= n,
            metrics.wf(),
            metrics@ == (MetricsView {
                evictions: counted_times(old(metrics)@.evictions, (reason@, ""@), i as nat),
                ..old(metrics)@
            }),
        decreases n - i,
    {
        metrics.record_eviction(reason);
        i = i + 1;
    }
}

/// The error of a command on accounts.
pub open spec fn user_error(what: Seq<char>, username: Seq<char>, e: UserError) -> ErrorView {
    ErrorView::Message(what + e.text_for(username))
}

fn user_failed(what: &str, username: &str, e: UserError) -> (r: MnemeError)
    ensures
        r@ == user_error(what@, username@, e),
{
    let mut s = what.to_string();
    s.append(e.message_for(username).as_str());
    MnemeError::Message(s)
}

/// What is said of an account that was made.
pub open spec fn created_text(username: Seq<char>, uid: u64, role: Seq<char>) -> Seq<char> {
    "Created user '"@ + username + "' (id="@ + decimal(uid as nat) + ", role="@ + role + ")"@
}

/// The figures of a node.
pub open spec fn figures_of(n: Mnemosyne) -> Figures {
    Figures {
        keepers: n.moirai.keepers().len() as u64,
        used: n.store@.used,
        limit: n.store@.limit,
        keys: capped(n.store@.map.dom().len()),
        hot: n.warmup.hot,
        pending: n.warmup.pending,
    }
}

/// The slow commands as they are listed.
pub open spec fn slow_list(s: Seq<CommandView>) -> Seq<(Seq<char>, Seq<u8>, u64)> {
    s.map_values(|c: CommandView| (c.cmd, c.key, c.duration_us))
}

/// The list of databases by number.
pub open spec fn is_db_list(l: Seq<(Seq<char>, u16)>, m: Map<Seq<char>, u16>) -> bool {
    by_id(l) && distinct_keys(l) && assoc(l) == m
}

impl Mnemosyne {
    pub open spec fn wf(&self) -> bool {
        &&& self.store.wf()
        &&& self.iris.wf()
        &&& self.moirai.wf()
        &&& self.argus.wf()
        &&& self.aletheia.wf()
        &&& self.delphi.wf()
        &&& self.dbs.wf()
        &&& self.settings.max_databases > 0
    }

    /// A node with nothing in it. A node on its own has no keepers to wait for
    /// and is hot at once. Names of databases from the settings come first, and
    /// those that were kept from earlier runs fill in.
    pub fn new(
        settings: Settings,
        max_bytes: u64,
        node_id: u64,
        argus: Argus,
        names: Vec<DbInfo>,
        kept_names: Vec<DbInfo>,
        hw_enabled: bool,
    ) -> (r: Mnemosyne)
        requires
            argus.wf(),
            settings.max_databases > 0,
        ensures
            r.wf(),
            r.settings == settings,
            r.argus == argus,
            r.store@.map == Map::<Seq<u8>, EntryView>::empty(),
            r.store@.used == 0,
            r.store@.limit == max_bytes,
            r.store@.wheels.origin == 0,
            forall|e: (Seq<u8>, u64)| !r.store@.wheels.holds(e),
            r.iris.node() == node_id,
            forall|s: int| 0 <= s < NUM_SLOTS ==> (#[trigger] r.iris.owners()[s]) is None,
            r.moirai.solo() == (settings.role == NodeRole::Solo),
            r.moirai.handles().len() == 0,
            r.moirai.keepers().len() == 0,
            r.aletheia@ == MetricsView::fresh(hw_enabled),
            r.delphi.threshold() == SLOW_AFTER_US,
            r.delphi.room() == SLOW_ENTRIES,
            r.delphi.slow().len() == 0,
            r.warmup == (WarmupState { hot: settings.role == NodeRole::Solo, ..WarmupState::cold() }),
            r.dbs.map() == seeded(seeded(Map::empty(), db_views(names@)), db_views(kept_names@)),
    {
        let solo: bool = settings.role == NodeRole::Solo;
        let mut dbs = DbRegistry::new();
        dbs.seed_all(names);
        dbs.seed_all(kept_names);
        let mut warmup = WarmupState::new();
        if solo {
            warmup.set_hot();
        }
        Mnemosyne {
            store: Store::new(max_bytes),
            iris: Iris::new(node_id),
            moirai: Moirai::new(solo),
            argus,
            aletheia: Aletheia::new(hw_enabled),
            delphi: Delphi::new(SLOW_AFTER_US, SLOW_ENTRIES),
            settings,
            warmup,
            dbs,
        }
    }

    /// What a command needs that no reader of its payload can see to.
    pub open spec fn may_run(&self, c: NodeCommand, now: u64) -> bool {
        match c {
            NodeCommand::Data(d) => d.in_range(now),
            NodeCommand::UserCreate { username, .. } => known(self.argus.accounts(), username@) || max_id(
                self.argus.accounts(),
            ) < u64::MAX,
            NodeCommand::GenerateJoinToken { ca } => ca matches Ok(b) ==> b@.len() <= usize::MAX / 4,
            _ => true,
        }
    }

    /// Whether a command can be run.
    pub fn can_run(&self, c: &NodeCommand, now_ms: u64) -> (r: bool)
        ensures
            r == self.may_run(*c, now_ms),
    {
        match c {
            NodeCommand::Data(d) => d.is_in_range(now_ms),
            NodeCommand::UserCreate { username, .. } => self.argus.can_create(username.as_str()),
            NodeCommand::GenerateJoinToken { ca } => match ca {
                Ok(b) => b.len() <= usize::MAX / 4,
                Err(_) => true,
            },
            _ => true,
        }
    }

    fn figures(&self) -> (r: Figures)
        requires
            self.wf(),
        ensures
            r == figures_of(*self),
    {
        Figures {
            keepers: self.moirai.keeper_infos().len() as u64,
            used: self.store.pool.pool_used(),
            limit: self.store.pool.pool_max(),
            keys: self.store.pool.total_entries(),
            hot: self.warmup.hot,
            pending: self.warmup.pending,
        }
    }

    /// One round of eviction.
    pub fn relieve(&mut self, pressed: bool, now_ms: u64)
        requires
            old(self).wf(),
        ensures
            final(self).wf(),
            *final(self) == (Mnemosyne { store: final(self).store, aletheia: final(self).aletheia, ..*old(self) }),
            relieved(
                old(self).store@,
                old(self).aletheia@,
                final(self).store@,
                final(self).aletheia@,
                pressed,
                now_ms,
            ),
    {
        let ghost s = self.store@;
        let ghost m = self.aletheia@;
        match self.store.pool.relieve(pressed, now_ms) {
            None => {},
            Some((reason, gone)) => {
                let n: usize = gone.len();
                match reason {
                    EvictionReason::Oom => {
                        count_evictions(&mut self.aletheia, "oom", n);
                    },
                    EvictionReason::Lfu => {
                        count_evictions(&mut self.aletheia, "lfu", n);
                    },
                }
                proof {
                    assert(views(gone@).len() == n);
                    assert(evicted_by(s, m, self.store@, self.aletheia@, pressed, now_ms, reason, views(gone@)));
                }
            },
        }
    }

    /// The first part of keeping house: keys whose time is over go.
    pub fn expire_due(&mut self, now_ms: u64)
        requires
            old(self).wf(),
            old(self).store@.wheels.may_tick(now_ms),
        ensures
            final(self).wf(),
            *final(self) == (Mnemosyne { store: final(self).store, aletheia: final(self).aletheia, ..*old(self) }),
            final(self).store@ == old(self).store@.expired_at(now_ms),
            final(self).aletheia@ == (MetricsView {
                evictions: counted_times(
                    old(self).aletheia@.evictions,
                    ("ttl"@, ""@),
                    old(self).store@.expired_count(now_ms),
                ),
                ..old(self).aletheia@
            }),
    {
        let n: usize = self.store.expire_due(now_ms);
        count_evictions(&mut self.aletheia, "ttl", n);
    }

    /// The second part of keeping house: a round of eviction, and the figures
    /// of the pool for the metrics.
    pub fn keep_house(&mut self, pressed: bool, now_ms: u64)
        requires
            old(self).wf(),
        ensures
            final(self).wf(),
            *final(self) == (Mnemosyne { store: final(self).store, aletheia: final(self).aletheia, ..*old(self) }),
            exists|m: MetricsView|
                {
                    &&& #[trigger] relieved(
                        old(self).store@,
                        old(self).aletheia@,
                        final(self).store@,
                        m,
                        pressed,
                        now_ms,
                    )
                    &&& final(self).aletheia@ == (MetricsView {
                        pool_used: final(self).store@.used,
                        pool_total: final(self).store@.limit,
                        pool_pressure: if final(self).store@.limit > 0 {
                            (final(self).store@.used, final(self).store@.limit)
                        } else {
                            m.pool_pressure
                        },
                        ..m
                    })
                },
    {
        self.relieve(pressed, now_ms);
        let ghost m = self.aletheia@;
        let used: u64 = self.store.pool.pool_used();
        let limit: u64 = self.store.pool.pool_max();
        self.aletheia.set_pool_usage(used, limit);
        assert(relieved(old(self).store@, old(self).aletheia@, self.store@, m, pressed, now_ms));
    }
}

/// What a command does to a node, what it answers, and what is replicated.
pub open spec fn did(
    before: Mnemosyne,
    c: NodeCommand,
    db_id: u16,
    now: u64,
    after: Mnemosyne,
    r: Result<ReplyView, ErrorView>,
    pushes: Seq<PushView>,
) -> bool {
    match c {
        NodeCommand::Data(d) => {
            &&& (after.store@, r, pushes) == before.store@.ran(d, db_id, now)
            &&& after == (Mnemosyne { store: after.store, ..before })
        },
        NodeCommand::FlushDb { name, db_id: explicit, sync } => did_flush(
            before,
            name@,
            explicit,
            sync,
            db_id,
            after,
            r,
            pushes,
        ),
        NodeCommand::DbCreate { name, db_id: explicit } => {
            &&& pushes.len() == 0
            &&& after == (Mnemosyne { dbs: after.dbs, ..before })
            &&& match r {
                Ok(v) => v matches ReplyView::Db(n, id) && n == name@ && after.dbs.map() == before.dbs.map().insert(name@, id)
                    && created(before.dbs.map(), name@, explicit, before.settings.max_databases, Ok(id)),
                Err(e) => after.dbs.map() == before.dbs.map() && created(
                    before.dbs.map(),
                    name@,
                    explicit,
                    before.settings.max_databases,
                    Err(e),
                ),
            }
        },
        NodeCommand::DbDrop { name } => {
            &&& pushes.len() == 0
            &&& after == (Mnemosyne { dbs: after.dbs, ..before })
            &&& after.dbs.map() == before.dbs.map().remove(name@)
            &&& r == if before.dbs.map().contains_key(name@) {
                Ok::<ReplyView, ErrorView>(ReplyView::Count(before.dbs.map()[name@] as int))
            } else {
                Err(ErrorView::Protocol(name_not_found(name@)))
            }
        },
        NodeCommand::RevokeToken { token } => {
            &&& pushes.len() == 0
            &&& after == (Mnemosyne { argus: after.argus, ..before })
            &&& after.argus.key() == before.argus.key() && after.argus.ttl() == before.argus.ttl()
                && after.argus.accounts() == before.argus.accounts()
            &&& match check_token(
                before.argus.key(),
                before.argus.revoked(),
                vstd::utf8::encode_utf8(token@),
                (now / 1000) as u64,
            ) {
                Ok(k) => r == Ok::<ReplyView, ErrorView>(ReplyView::Text("OK"@)) && after.argus.revoked() == with_revoked(
                    before.argus.revoked(),
                    k.jti,
                ),
                Err(e) => r == Err::<ReplyView, ErrorView>(ErrorView::Message(e.text())) && after.argus.revoked()
                    == before.argus.revoked(),
            }
        },
        NodeCommand::ConfigSet { param, value, threshold, pressed } => pushes.len() == 0 && did_config(
            before,
            param@,
            value@,
            match threshold {
                Some(t) => Some(t@),
                None => None,
            },
            pressed,
            now,
            after,
            r,
        ),
        NodeCommand::UserCreate { username, password, role } => pushes.len() == 0 && did_create(
            before,
            username@,
            password@,
            role@,
            after,
            r,
        ),
        NodeCommand::UserDelete { username } => pushes.len() == 0 && match delete_refused(
            before.argus.accounts(),
            username@,
        ) {
            Some(e) => changed_accounts(before, after, before.argus.accounts()) && r == Err::<ReplyView, ErrorView>(
                user_error("USER DELETE: "@, username@, e),
            ),
            None => changed_accounts(before, after, without_user(before.argus.accounts(), username@)) && r == Ok::<
                ReplyView,
                ErrorView,
            >(ReplyView::Text("OK"@)),
        },
        NodeCommand::UserGrant { username, db_id: d } => pushes.len() == 0 && did_grant(
            before,
            username@,
            "USER GRANT: "@,
            with_db(before.argus.accounts()[place(before.argus.accounts(), username@)].allowed_dbs, d),
            after,
            r,
        ),
        NodeCommand::UserRevoke { username, db_id: d } => pushes.len() == 0 && did_grant(
            before,
            username@,
            "USER REVOKE: "@,
            without_db(before.argus.accounts()[place(before.argus.accounts(), username@)].allowed_dbs, d),
            after,
            r,
        ),
        NodeCommand::UserSetRole { username, role } => pushes.len() == 0 && match role_refused(
            before.argus.accounts(),
            username@,
            role@,
        ) {
            Some(e) => changed_accounts(before, after, before.argus.accounts()) && r == Err::<ReplyView, ErrorView>(
                user_error("USER SETROLE: "@, username@, e),
            ),
            None => changed_accounts(before, after, with_role(before.argus.accounts(), username@, role@)) && r == Ok::<
                ReplyView,
                ErrorView,
            >(ReplyView::Text("OK"@)),
        },
        _ => pushes.len() == 0 && after == before && told(before, c, db_id, now, r),
    }
}

/// The account that is asked for by name: only administrators are told of
/// others than themselves.
pub open spec fn asked_account(username: Option<String>, caller: Caller) -> Option<Seq<char>> {
    match username {
        Some(name) if caller.admin => Some(name@),
        _ => None,
    }
}

/// What is told of an account.
pub open spec fn account_view(u: UserView) -> ReplyView {
    ReplyView::User(u.username, u.user_id, u.role, u.allowed_dbs)
}

/// What a command that changes nothing answers.
pub open spec fn told(n: Mnemosyne, c: NodeCommand, db_id: u16, now: u64, r: Result<ReplyView, ErrorView>) -> bool {
    match c {
        NodeCommand::DbSize { name, db_id: explicit } => r == (match resolved(n.dbs.map(), name@, explicit, db_id) {
            Ok(id) => Ok::<ReplyView, ErrorView>(
                ReplyView::Count(capped(db_keys(n.store@.map, id, now).len()) as int),
            ),
            Err(e) => Err(e),
        }),
        NodeCommand::DbList => r matches Ok(v) && v matches ReplyView::Dbs(l) && is_db_list(l, n.dbs.map()),
        NodeCommand::SlowLog { count } => r == Ok::<ReplyView, ErrorView>(
            ReplyView::Slow(slow_list(newest(n.delphi.slow(), count as int))),
        ),
        NodeCommand::Metrics => r == Ok::<ReplyView, ErrorView>(ReplyView::Usage(n.store@.used, n.store@.limit)),
        NodeCommand::Stats { ratio } => r == Ok::<ReplyView, ErrorView>(ReplyView::Text(stats_of(figures_of(n), ratio@))),
        NodeCommand::Monitor => r == Ok::<ReplyView, ErrorView>(ReplyView::Text("OK"@)),
        NodeCommand::Select => r == Ok::<ReplyView, ErrorView>(ReplyView::Text("OK"@)),
        NodeCommand::ConfigGet { param } => r == (match n.settings@.value_of(param@) {
            Ok(v) => Ok::<ReplyView, ErrorView>(ReplyView::Text(v)),
            Err(e) => Err(e),
        }),
        NodeCommand::ClusterInfo { raft, pressure } => r == Ok::<ReplyView, ErrorView>(
            ReplyView::Info(info_of(n.settings@, figures_of(n), raft, pressure@)),
        ),
        NodeCommand::ClusterSlots => r matches Ok(v) && v matches ReplyView::Slots(m) && {
            &&& forall|s: u16| #[trigger] m.contains_key(s) <==> s < NUM_SLOTS
            &&& forall|s: u16| s < NUM_SLOTS ==> #[trigger] m[s] == n.iris.owner_id(s as int)
        },
        NodeCommand::KeeperList => r == Ok::<ReplyView, ErrorView>(ReplyView::Keepers(n.moirai.keepers())),
        NodeCommand::PoolStats => r == Ok::<ReplyView, ErrorView>(
            ReplyView::PoolUsage(n.store@.used, n.store@.limit, n.moirai.keepers().len() as int),
        ),
        NodeCommand::Wait { n_keepers } => r == Ok::<ReplyView, ErrorView>(
            ReplyView::Count(
                if n.moirai.handles().len() < n_keepers {
                    n.moirai.handles().len() as int
                } else {
                    n_keepers as int
                },
            ),
        ),
        NodeCommand::GenerateJoinToken { ca } => r == (match ca {
            Ok(b) => Ok::<ReplyView, ErrorView>(
                ReplyView::Text(bundle_of(b@, n.settings@.cluster_secret, n.settings@.join_token)),
            ),
            Err(e) => Err(ErrorView::Protocol(e@)),
        }),
        NodeCommand::UserList => r == Ok::<ReplyView, ErrorView>(
            ReplyView::Users(
                users_by_id(n.argus.accounts()).map_values(|u: UserView| (u.username, u.role, u.allowed_dbs)),
            ),
        ),
        NodeCommand::UserInfo { username, caller } => match asked_account(username, caller) {
            Some(name) => if known(n.argus.accounts(), name) {
                r == Ok::<ReplyView, ErrorView>(account_view(n.argus.accounts()[place(n.argus.accounts(), name)]))
            } else {
                r == Err::<ReplyView, ErrorView>(ErrorView::KeyNotFound)
            },
            None => match r {
                Ok(v) => exists|u: UserView|
                    #[trigger] n.argus.accounts().contains(u) && u.user_id == caller.user_id && v == account_view(u),
                Err(e) => e == ErrorView::KeyNotFound && forall|i: int|
                    0 <= i < n.argus.accounts().len() ==> (#[trigger] n.argus.accounts()[i]).user_id != caller.user_id,
            },
        },
        NodeCommand::Unhandled { cmd } => r == Err::<ReplyView, ErrorView>(
            ErrorView::Message("unhandled command: "@ + cmd.text()),
        ),
        _ => false,
    }
}

/// A database emptied, and the emptying replicated if asked for.
pub open spec fn did_flush(
    before: Mnemosyne,
    name: Seq<char>,
    explicit: Option<u16>,
    sync: bool,
    conn_db: u16,
    after: Mnemosyne,
    r: Result<ReplyView, ErrorView>,
    pushes: Seq<PushView>,
) -> bool {
    match resolved(before.dbs.map(), name, explicit, conn_db) {
        Ok(id) => {
            &&& after == (Mnemosyne { store: after.store, ..before })
            &&& after.store@ == before.store@.flushed(id)
            &&& r == Ok::<ReplyView, ErrorView>(ReplyView::Count(capped(all_db_keys(before.store@.map, id).len()) as int))
            &&& pushes == if sync {
                seq![PushView::tombstone(db_key(id, Seq::empty()), 0, id)]
            } else {
                Seq::empty()
            }
        },
        Err(e) => after == before && r == Err::<ReplyView, ErrorView>(e) && pushes.len() == 0,
    }
}

/// A setting changed. A new limit takes effect at once.
pub open spec fn did_config(
    before: Mnemosyne,
    param: Seq<char>,
    value: Seq<char>,
    threshold: Option<Seq<char>>,
    pressed: bool,
    now: u64,
    after: Mnemosyne,
    r: Result<ReplyView, ErrorView>,
) -> bool {
    match param_of(param) {
        Param::PoolBytes => match size_value(vstd::utf8::encode_utf8(value)) {
            Some(v) => {
                &&& r == Ok::<ReplyView, ErrorView>(ReplyView::Text("OK"@))
                &&& after == (Mnemosyne {
                    store: after.store,
                    aletheia: after.aletheia,
                    settings: after.settings,
                    ..before
                })
                &&& after.settings@ == (SettingsView { pool_bytes: value, ..before.settings@ })
                &&& relieved(
                    StoreView { limit: v as u64, ..before.store@ },
                    before.aletheia@,
                    after.store@,
                    after.aletheia@,
                    pressed,
                    now,
                )
            },
            None => after == before && r == Err::<ReplyView, ErrorView>(ErrorView::Message("invalid value"@)),
        },
        Param::EvictionThreshold => match threshold {
            Some(t) => {
                &&& r == Ok::<ReplyView, ErrorView>(ReplyView::Text("OK"@))
                &&& after == (Mnemosyne { settings: after.settings, ..before })
                &&& after.settings@ == (SettingsView { eviction_threshold: t, ..before.settings@ })
            },
            None => after == before && r == Err::<ReplyView, ErrorView>(ErrorView::Message("invalid float"@)),
        },
        _ => after == before && r == Err::<ReplyView, ErrorView>(unknown_param(param)),
    }
}

/// The accounts changed and nothing else.
pub open spec fn changed_accounts(before: Mnemosyne, after: Mnemosyne, accounts: Seq<UserView>) -> bool {
    &&& after == (Mnemosyne { argus: after.argus, ..before })
    &&& after.argus.key() == before.argus.key()
    &&& after.argus.ttl() == before.argus.ttl()
    &&& after.argus.revoked() == before.argus.revoked()
    &&& after.argus.accounts() == accounts
}

/// An account made, or given a new password and role.
pub open spec fn did_create(
    before: Mnemosyne,
    username: Seq<char>,
    password: Seq<char>,
    role: Seq<char>,
    after: Mnemosyne,
    r: Result<ReplyView, ErrorView>,
) -> bool {
    let old_accounts = before.argus.accounts();
    let uid = if known(old_accounts, username) {
        old_accounts[place(old_accounts, username)].user_id
    } else {
        (max_id(old_accounts) + 1) as u64
    };
    &&& r == Ok::<ReplyView, ErrorView>(ReplyView::Text(created_text(username, uid, role)))
    &&& checked(after.argus.accounts(), username, password) == Ok::<u64, UserError>(uid)
    &&& exists|u: UserView, salt: Seq<u8>|
        salt.len() == SALT_LEN && #[trigger] is_account(u, old_accounts, username, password, role, salt) && changed_accounts(
            before,
            after,
            with_user(old_accounts, u, role),
        )
}

/// The databases of an account changed.
pub open spec fn did_grant(
    before: Mnemosyne,
    username: Seq<char>,
    what: Seq<char>,
    dbs: Seq<u16>,
    after: Mnemosyne,
    r: Result<ReplyView, ErrorView>,
) -> bool {
    if known(before.argus.accounts(), username) {
        changed_accounts(before, after, with_dbs(before.argus.accounts(), username, dbs)) && r == Ok::<ReplyView, ErrorView>(
            ReplyView::Text("OK"@),
        )
    } else {
        changed_accounts(before, after, before.argus.accounts()) && r == Err::<ReplyView, ErrorView>(
            user_error(what, username, UserError::NoSuchUser),
        )
    }
}

/// The slow commands as they are listed.
fn slow_rows(entries: Vec<SlowEntry>) -> (r: Vec<(String, Vec<u8>, u64)>)
    ensures
        slow_triples(r@) == slow_list(slow_views(entries@)),
{
    let mut out: Vec<(String, Vec<u8>, u64)> = Vec::new();
    let mut i: usize = 0;
    while i < entries.len()
        invariant
            i <= entries@.len(),
            out@.len() == i,
            forall|j: int| 0 <= j < i ==> (#[trigger] out@[j]).0@ == entries@[j].cmd@ && out@[j].1@ == entries@[j].key@
                && out@[j].2 == entries@[j].duration_us,
        decreases entries@.len() - i,
    {
        out.push((entries[i].cmd.clone(), copy_bytes(&entries[i].key), entries[i].duration_us));
        i = i + 1;
    }
    proof {
        assert forall|j: int| 0 <= j < out@.len() implies #[trigger] slow_triples(out@)[j] == slow_list(
            slow_views(entries@),
        )[j] by {
            assert(slow_views(entries@)[j] == entries@[j]@);
        }
        assert(slow_triples(out@) =~= slow_list(slow_views(entries@)));
    }
    out
}

fn copy_infos(infos: &Vec<KeeperInfo>) -> (r: Vec<KeeperInfo>)
    ensures
        keeper_views(r@) == keeper_views(infos@),
{
    let mut out: Vec<KeeperInfo> = Vec::new();
    let mut i: usize = 0;
    while i < infos.len()
        invariant
            i <= infos@.len(),
            out@.len() == i,
            forall|j: int| 0 <= j < i ==> (#[trigger] out@[j])@ == infos@[j]@,
        decreases infos@.len() - i,
    {
        out.push(infos[i].clone());
        i = i + 1;
    }
    assert(keeper_views(out@) =~= keeper_views(infos@));
    out
}

impl Mnemosyne {
    /// Answers a question on accounts.
    fn user_info(&self, username: Option<String>, caller: Caller) -> (r: Result<Reply, MnemeError>)
        requires
            self.wf(),
        ensures
            told(*self, NodeCommand::UserInfo { username, caller }, 0, 0, answer(r)),
    {
        match username {
            Some(name) if caller.admin => match self.argus.get_user(name.as_str()) {
                Some((id, role, dbs)) => {
                    proof {
                        crate::users::lemma_place_exists(self.argus.accounts(), name@);
                    }
                    Ok(Reply::User(name, id, role, dbs))
                },
                None => Err(MnemeError::KeyNotFound),
            },
            _ => match self.argus.account_of(caller.user_id) {
                Some((name, id, role, dbs)) => Ok(Reply::User(name, id, role, dbs)),
                None => Err(MnemeError::KeyNotFound),
            },
        }
    }

    /// Empties a database.
    fn flush(&mut self, name: String, explicit: Option<u16>, sync: bool, db_id: u16) -> (r: (
        Result<Reply, MnemeError>,
        Vec<PushKeyPayload>,
    ))
        requires
            old(self).wf(),
        ensures
            final(self).wf(),
            did_flush(*old(self), name@, explicit, sync, db_id, *final(self), answer(r.0), push_views(r.1@)),
    {
        let mut pushes: Vec<PushKeyPayload> = Vec::new();
        assert(push_views(pushes@) =~= Seq::empty());
        match self.dbs.resolve(name.as_str(), explicit, db_id) {
            Ok(id) => {
                let n: u64 = self.store.pool.flush_db(id);
                if sync {
                    let none: Vec<u8> = Vec::new();
                    assert(none@ =~= Seq::<u8>::empty());
                    pushes.push(PushKeyPayload::tombstone(make_db_key(id, &none), 0, id));
                    assert(push_views(pushes@) =~= seq![PushView::tombstone(db_key(id, Seq::empty()), 0, id)]);
                }
                (Ok(Reply::Count(n)), pushes)
            },
            Err(e) => (Err(e), pushes),
        }
    }

    /// Changes a setting.
    fn config_set(&mut self, param: String, value: String, threshold: Option<String>, pressed: bool, now_ms: u64) -> (r: Result<
        Reply,
        MnemeError,
    >)
        requires
            old(self).wf(),
        ensures
            final(self).wf(),
            did_config(
                *old(self),
                param@,
                value@,
                match threshold {
                    Some(t) => Some(t@),
                    None => None,
                },
                pressed,
                now_ms,
                *final(self),
                answer(r),
            ),
    {
        match find_param(param.as_str()) {
            Param::PoolBytes => match parse_size(value.as_str()) {
                Some(v) => {
                    self.settings.pool_bytes = value;
                    self.store.pool.set_pool_max(v);
                    self.relieve(pressed, now_ms);
                    ok_str()
                },
                None => Err(MnemeError::Message("invalid value".to_string())),
            },
            Param::EvictionThreshold => match threshold {
                Some(t) => {
                    self.settings.eviction_threshold = t;
                    ok_str()
                },
                None => Err(MnemeError::Message("invalid float".to_string())),
            },
            _ => Err(no_such_param(param.as_str())),
        }
    }

    /// Makes an account.
    fn user_create(&mut self, username: String, password: String, role: String) -> (r: Result<Reply, MnemeError>)
        requires
            old(self).wf(),
            known(old(self).argus.accounts(), username@) || max_id(old(self).argus.accounts()) < u64::MAX,
        ensures
            final(self).wf(),
            did_create(*old(self), username@, password@, role@, *final(self), answer(r)),
    {
        match self.argus.create_user(username.as_str(), password.as_str(), role.as_str()) {
            Ok(uid) => {
                let mut s = "Created user '".to_string();
                s.append(username.as_str());
                s.append("' (id=");
                let n = u64_text(uid);
                s.append(n.as_str());
                s.append(", role=");
                s.append(role.as_str());
                s.append(")");
                proof {
                    let (u, salt) = choose|u: UserView, salt: Seq<u8>|
                        salt.len() == SALT_LEN && #[trigger] is_account(
                            u,
                            old(self).argus.accounts(),
                            username@,
                            password@,
                            role@,
                            salt,
                        ) && self.argus.accounts() == with_user(old(self).argus.accounts(), u, role@);
                    assert(changed_accounts(*old(self), *self, with_user(old(self).argus.accounts(), u, role@)));
                }
                Ok(Reply::Text(s))
            },
            Err(e) => Err(user_failed("USER CREATE: ", username.as_str(), e)),
        }
    }
}

fn done(what: &str, username: &str, r: Result<(), UserError>) -> (a: Result<Reply, MnemeError>)
    ensures
        answer(a) == match r {
            Ok(_) => Ok::<ReplyView, ErrorView>(ReplyView::Text("OK"@)),
            Err(e) => Err(user_error(what@, username@, e)),
        },
{
    match r {
        Ok(_) => ok_str(),
        Err(e) => Err(user_failed(what, username, e)),
    }
}

impl Mnemosyne {
    /// Answers a command that changes nothing.
    fn tell(&self, c: NodeCommand, db_id: u16, now_ms: u64) -> (r: Result<Reply, MnemeError>)
        requires
            self.wf(),
            self.may_run(c, now_ms),
            c.only_asks(),
        ensures
            told(*self, c, db_id, now_ms, answer(r)),
    {
        match c {
            NodeCommand::DbSize { name, db_id: explicit } => match self.dbs.resolve(name.as_str(), explicit, db_id) {
                Ok(id) => Ok(Reply::Count(self.store.pool.db_size(id, now_ms))),
                Err(e) => Err(e),
            },
            NodeCommand::DbList => Ok(Reply::Dbs(self.dbs.list())),
            NodeCommand::SlowLog { count } => Ok(Reply::Slow(slow_rows(self.delphi.get_slowlog(count)))),
            NodeCommand::Metrics => Ok(Reply::Usage(self.store.pool.pool_used(), self.store.pool.pool_max())),
            NodeCommand::Stats { ratio } => {
                let f = self.figures();
                Ok(Reply::Text(stats_line(&f, ratio.as_str())))
            },
            NodeCommand::Monitor => ok_str(),
            NodeCommand::Select => ok_str(),
            NodeCommand::ConfigGet { param } => match self.settings.get(param.as_str()) {
                Ok(v) => Ok(Reply::Text(v)),
                Err(e) => Err(e),
            },
            NodeCommand::ClusterInfo { raft, pressure } => {
                let f = self.figures();
                Ok(Reply::Info(cluster_info(&self.settings, &f, &raft, pressure.as_str())))
            },
            NodeCommand::ClusterSlots => Ok(Reply::Slots(self.iris.slot_table())),
            NodeCommand::KeeperList => Ok(Reply::Keepers(copy_infos(self.moirai.keeper_infos()))),
            NodeCommand::PoolStats => {
                let n: usize = self.moirai.keeper_infos().len();
                Ok(Reply::PoolUsage(self.store.pool.pool_used(), self.store.pool.pool_max(), n as u64))
            },
            NodeCommand::Wait { n_keepers } => {
                let have: usize = self.moirai.keeper_count();
                let n: usize = if have < n_keepers {
                    have
                } else {
                    n_keepers
                };
                Ok(Reply::Count(n as u64))
            },
            NodeCommand::GenerateJoinToken { ca } => match ca {
                Ok(b) => Ok(
                    Reply::Text(
                        join_bundle(&b, self.settings.cluster_secret.as_str(), self.settings.join_token.as_str()),
                    ),
                ),
                Err(e) => Err(MnemeError::Protocol(e)),
            },
            NodeCommand::UserList => Ok(Reply::Users(self.argus.list_users())),
            NodeCommand::UserInfo { username, caller } => self.user_info(username, caller),
            NodeCommand::Unhandled { cmd } => {
                let mut s = "unhandled command: ".to_string();
                s.append(cmd.name());
                Err(MnemeError::Message(s))
            },
            _ => Err(MnemeError::KeyNotFound),
        }
    }

    /// Runs a command. What is replicated goes to the keepers in turn.
    pub fn run(&mut self, c: NodeCommand, db_id: u16, now_ms: u64) -> (r: (Result<Reply, MnemeError>, Vec<PushKeyPayload>))
        requires
            old(self).wf(),
            old(self).may_run(c, now_ms),
        ensures
            final(self).wf(),
            did(*old(self), c, db_id, now_ms, *final(self), answer(r.0), push_views(r.1@)),
    {
        let none: Vec<PushKeyPayload> = Vec::new();
        assert(push_views(none@).len() == 0);
        match c {
            NodeCommand::Data(d) => self.store.run(d, db_id, now_ms),
            NodeCommand::FlushDb { name, db_id: explicit, sync } => self.flush(name, explicit, sync, db_id),
            NodeCommand::DbCreate { name, db_id: explicit } => match self.dbs.create(
                name.as_str(),
                explicit,
                self.settings.max_databases,
            ) {
                Ok(id) => (Ok(Reply::Db(DbInfo { name, id })), none),
                Err(e) => (Err(e), none),
            },
            NodeCommand::DbDrop { name } => match self.dbs.drop_name(name.as_str()) {
                Ok(id) => (Ok(Reply::Count(id as u64)), none),
                Err(e) => (Err(e), none),
            },
            NodeCommand::RevokeToken { token } => match self.argus.revoke_at(token.as_str(), now_ms / 1000) {
                Ok(_) => (ok_str(), none),
                Err(e) => (Err(MnemeError::Message(e.message().to_string())), none),
            },
            NodeCommand::ConfigSet { param, value, threshold, pressed } => (
                self.config_set(param, value, threshold, pressed, now_ms),
                none,
            ),
            NodeCommand::UserCreate { username, password, role } => (self.user_create(username, password, role), none),
            NodeCommand::UserDelete { username } => {
                let r = self.argus.delete_user(username.as_str());
                (done("USER DELETE: ", username.as_str(), r), none)
            },
            NodeCommand::UserGrant { username, db_id: d } => {
                let r = self.argus.grant_db_access(username.as_str(), d);
                (done("USER GRANT: ", username.as_str(), r), none)
            },
            NodeCommand::UserRevoke { username, db_id: d } => {
                let r = self.argus.revoke_db_access(username.as_str(), d);
                (done("USER REVOKE: ", username.as_str(), r), none)
            },
            NodeCommand::UserSetRole { username, role } => {
                let r = self.argus.set_user_role(username.as_str(), role.as_str());
                (done("USER SETROLE: ", username.as_str(), r), none)
            },
            other => (self.tell(other, db_id, now_ms), none),
        }
    }
}

/// What becomes of a command: reads that need the whole cluster wait for the
/// warm-up, and only the leader takes writes. A request that could not be read
/// is refused, unless the command has a default.
pub open spec fn handled(
    before: Mnemosyne,
    cmd: CmdId,
    level: ConsistencyLevel,
    request: Result<NodeCommand, String>,
    who: Caller,
    db_id: u16,
    now: u64,
    leads: bool,
    leader: Seq<char>,
    after: Mnemosyne,
    r: Result<ReplyView, ErrorView>,
    pushes: Seq<PushView>,
) -> bool {
    if must_wait(before.warmup.hot, cmd, level) {
        after == before && pushes.len() == 0 && r == Err::<ReplyView, ErrorView>(ErrorView::QuorumNotReached(0, 1))
    } else if leader_only(cmd) && !leads {
        after == before && pushes.len() == 0 && r == Ok::<ReplyView, ErrorView>(ReplyView::Redirect(leader))
    } else {
        match request {
            Ok(c) => did(before, c, db_id, now, after, r, pushes),
            Err(e) => if wants_room(cmd) && before.store@.full() {
                after == before && pushes.len() == 0 && r == Err::<ReplyView, ErrorView>(ErrorView::OutOfMemory)
            } else if has_default(cmd) {
                exists|c: NodeCommand|
                    #[trigger] is_default(cmd, c, who) && did(before, c, db_id, now, after, r, pushes)
            } else {
                after == before && pushes.len() == 0 && r == Err::<ReplyView, ErrorView>(ErrorView::Serialization(e@))
            },
        }
    }
}

impl Mnemosyne {
    /// Puts a command through the gates and runs it. `request` is the payload
    /// as it was read, or why it could not be.
    pub fn dispatch_command(
        &mut self,
        cmd: CmdId,
        level: ConsistencyLevel,
        request: Result<NodeCommand, String>,
        who: Caller,
        db_id: u16,
        now_ms: u64,
        leads: bool,
        leader: String,
    ) -> (r: (Result<Reply, MnemeError>, Vec<PushKeyPayload>))
        requires
            old(self).wf(),
            request matches Ok(c) ==> c.id() == cmd && old(self).may_run(c, now_ms),
        ensures
            final(self).wf(),
            handled(
                *old(self),
                cmd,
                level,
                request,
                who,
                db_id,
                now_ms,
                leads,
                leader@,
                *final(self),
                answer(r.0),
                push_views(r.1@),
            ),
    {
        let none: Vec<PushKeyPayload> = Vec::new();
        assert(push_views(none@).len() == 0);
        if blocked(self.warmup.hot, cmd, level) {
            return (Err(MnemeError::QuorumNotReached { got: 0, need: 1 }), none);
        }
        if needs_leader(cmd) && !leads {
            return (Ok(Reply::Redirect(leader)), none);
        }
        match request {
            Ok(c) => self.run(c, db_id, now_ms),
            Err(e) => {
                if needs_room(cmd) && self.store.pool.is_full() {
                    return (Err(MnemeError::OutOfMemory), none);
                }
                match default_of(cmd, who) {
                    Some(c) => {
                        assert(is_default(cmd, c, who));
                        self.run(c, db_id, now_ms)
                    },
                    None => (Err(MnemeError::Serialization(e)), none),
                }
            },
        }
    }
}

impl Mnemosyne {
    /// Records a command that was run, under its name: how long it took goes to
    /// the metrics and, if that was long, to the list of slow commands. The
    /// event is for the monitors.
    pub fn note_command(&mut self, cmd: CmdId, level: ConsistencyLevel, key: &[u8], ok: bool, duration_us: u64, elapsed_us: u64) -> (event:
        MonitorEvent)
        requires
            old(self).wf(),
        ensures
            final(self).wf(),
            *final(self) == (Mnemosyne { delphi: final(self).delphi, aletheia: final(self).aletheia, ..*old(self) }),
            event@ == (CommandView { elapsed_us, cmd: cmd.text(), key: key@, duration_us }),
            final(self).delphi.threshold() == old(self).delphi.threshold(),
            final(self).delphi.room() == old(self).delphi.room(),
            final(self).delphi.slow() == (if duration_us >= old(self).delphi.threshold() {
                ring_pushed(old(self).delphi.slow(), event@, old(self).delphi.room())
            } else {
                old(self).delphi.slow()
            }),
            final(self).aletheia@ == (MetricsView {
                commands: counted(
                    old(self).aletheia@.commands,
                    (
                        cmd.text(),
                        if ok {
                            "ok"@
                        } else {
                            "err"@
                        },
                    ),
                ),
                requests: counted(old(self).aletheia@.requests, (cmd.text(), level.text())),
                latencies: observed(old(self).aletheia@.latencies, cmd.text(), duration_us),
                ..old(self).aletheia@
            }),
    {
        let name = cmd.name();
        let event = self.delphi.record(name, key, duration_us, elapsed_us);
        self.aletheia.record_request(name, level.name());
        if ok {
            self.aletheia.record_cmd(name, "ok", duration_us);
        } else {
            self.aletheia.record_cmd(name, "err", duration_us);
        }
        event
    }
}

/// What a leader took is read back from it, until its time to live is over.
pub proof fn law_what_was_written_is_read(
    n0: Mnemosyne,
    n1: Mnemosyne,
    n2: Mnemosyne,
    key: Vec<u8>,
    value: Value,
    ttl_ms: u64,
    written_at: ConsistencyLevel,
    read_at: ConsistencyLevel,
    who: Caller,
    db_id: u16,
    now: u64,
    later: u64,
    leads: bool,
    leader: Seq<char>,
    r1: Result<ReplyView, ErrorView>,
    r2: Result<ReplyView, ErrorView>,
    p1: Seq<PushView>,
    p2: Seq<PushView>,
)
    requires
        !n0.store@.full(),
        !must_wait(n1.warmup.hot, CmdId::Get, read_at),
        ttl_ms == 0 || later < now + ttl_ms && later < u64::MAX,
        handled(
            n0,
            CmdId::SetKey,
            written_at,
            Ok(NodeCommand::Data(DataCommand::SetKey { key, value, ttl_ms })),
            who,
            db_id,
            now,
            true,
            leader,
            n1,
            r1,
            p1,
        ),
        handled(
            n1,
            CmdId::Get,
            read_at,
            Ok(NodeCommand::Data(DataCommand::Get { key })),
            who,
            db_id,
            later,
            leads,
            leader,
            n2,
            r2,
            p2,
        ),
    ensures
        r1 == Ok::<ReplyView, ErrorView>(ReplyView::Text("OK"@)),
        r2 == Ok::<ReplyView, ErrorView>(ReplyView::Value(value@)),
        p1 == seq![PushView::write(db_key(db_id, key@), value@, ttl_ms, slot_of(key@), db_id)],
{
    law_set_then_get(n0.store@, db_id, key@, value@, ttl_ms, now, later);
}

/// A request does not write a key of a database, nor can it lead to eviction.
pub open spec fn spares(n: Mnemosyne, cmd: CmdId, request: Result<NodeCommand, String>, conn_db: u16, db_id: u16, key: Seq<u8>) -> bool {
    match request {
        Ok(c) => match c {
            NodeCommand::Data(d) => !(conn_db == db_id && writes_key(d, key)),
            NodeCommand::FlushDb { name, db_id: explicit, .. } => resolved(n.dbs.map(), name@, explicit, conn_db) != Ok::<
                u16,
                ErrorView,
            >(db_id),
            NodeCommand::ConfigSet { .. } => false,
            _ => true,
        },
        Err(_) => cmd != CmdId::FlushDb || conn_db != db_id,
    }
}

/// A request that does not write a key of a database keeps what stands there,
/// whatever else it does.
pub proof fn law_other_requests_keep(
    before: Mnemosyne,
    cmd: CmdId,
    level: ConsistencyLevel,
    request: Result<NodeCommand, String>,
    who: Caller,
    conn_db: u16,
    now: u64,
    leads: bool,
    leader: Seq<char>,
    after: Mnemosyne,
    r: Result<ReplyView, ErrorView>,
    pushes: Seq<PushView>,
    db_id: u16,
    key: Seq<u8>,
)
    requires
        handled(before, cmd, level, request, who, conn_db, now, leads, leader, after, r, pushes),
        spares(before, cmd, request, conn_db, db_id, key),
    ensures
        keeps(before.store@, after.store@, db_key(db_id, key), now),
{
    match request {
        Ok(c) => lemma_did_keeps(before, c, conn_db, now, after, r, pushes, db_id, key),
        Err(_) => {
            if after != before {
                let c = choose|c: NodeCommand|
                    #[trigger] is_default(cmd, c, who) && did(before, c, conn_db, now, after, r, pushes);
                lemma_did_keeps(before, c, conn_db, now, after, r, pushes, db_id, key);
            }
        },
    }
}

proof fn lemma_did_keeps(
    before: Mnemosyne,
    c: NodeCommand,
    conn_db: u16,
    now: u64,
    after: Mnemosyne,
    r: Result<ReplyView, ErrorView>,
    pushes: Seq<PushView>,
    db_id: u16,
    key: Seq<u8>,
)
    requires
        did(before, c, conn_db, now, after, r, pushes) || after == before,
        spares(before, CmdId::Get, Ok(c), conn_db, db_id, key),
    ensures
        keeps(before.store@, after.store@, db_key(db_id, key), now),
{
    match c {
        NodeCommand::Data(d) => law_only_writes_change(before.store@, d, conn_db, now, db_id, key),
        NodeCommand::FlushDb { name, db_id: explicit, .. } => {
            if let Ok(id) = resolved(before.dbs.map(), name@, explicit, conn_db) {
                law_events_keep(before.store@, StoreEvent::Flushed { db_id: id }, now, db_id, key);
            }
        },
        _ => {},
    }
}

/// A chain of nodes in which each step, at its time, keeps what stands under a
/// key.
pub open spec fn kept_along(chain: Seq<Mnemosyne>, times: Seq<u64>, k: Seq<u8>, later: u64) -> bool {
    &&& chain.len() == times.len() + 1
    &&& forall|i: int|
        0 <= i < times.len() ==> (#[trigger] times[i]) <= later && keeps(
            chain[i].store@,
            chain[i + 1].store@,
            k,
            times[i],
        )
}

proof fn lemma_kept_along(chain: Seq<Mnemosyne>, times: Seq<u64>, k: Seq<u8>, later: u64)
    requires
        kept_along(chain, times, k, later),
    ensures
        keeps(chain[0].store@, chain.last().store@, k, later),
    decreases times.len(),
{
    if times.len() > 0 {
        let c = chain.drop_last();
        let t = times.drop_last();
        assert forall|i: int| 0 <= i < t.len() implies (#[trigger] t[i]) <= later && keeps(
            c[i].store@,
            c[i + 1].store@,
            k,
            t[i],
        ) by {
            assert(t[i] == times[i]);
        }
        lemma_kept_along(c, t, k, later);
        assert(times[times.len() - 1] <= later);
        assert(chain[times.len() - 1] == c.last());
    }
}

/// What a leader took is read back from it after any number of requests that
/// do not write its key, until its time to live is over.
pub proof fn law_what_was_written_stays(
    n0: Mnemosyne,
    chain: Seq<Mnemosyne>,
    times: Seq<u64>,
    n2: Mnemosyne,
    key: Vec<u8>,
    value: Value,
    ttl_ms: u64,
    written_at: ConsistencyLevel,
    read_at: ConsistencyLevel,
    who: Caller,
    db_id: u16,
    now: u64,
    later: u64,
    leads: bool,
    leader: Seq<char>,
    r1: Result<ReplyView, ErrorView>,
    r2: Result<ReplyView, ErrorView>,
    p1: Seq<PushView>,
    p2: Seq<PushView>,
)
    requires
        !n0.store@.full(),
        kept_along(chain, times, db_key(db_id, key@), later),
        !must_wait(chain.last().warmup.hot, CmdId::Get, read_at),
        ttl_ms == 0 || later < now + ttl_ms && later < u64::MAX,
        handled(
            n0,
            CmdId::SetKey,
            written_at,
            Ok(NodeCommand::Data(DataCommand::SetKey { key, value, ttl_ms })),
            who,
            db_id,
            now,
            true,
            leader,
            chain[0],
            r1,
            p1,
        ),
        handled(
            chain.last(),
            CmdId::Get,
            read_at,
            Ok(NodeCommand::Data(DataCommand::Get { key })),
            who,
            db_id,
            later,
            leads,
            leader,
            n2,
            r2,
            p2,
        ),
    ensures
        r2 == Ok::<ReplyView, ErrorView>(ReplyView::Value(value@)),
{
    lemma_kept_along(chain, times, db_key(db_id, key@), later);
}

/// A key that a database does not hold is not found there after any number of
/// requests that do not write it, though another database may hold one of that
/// name.
pub proof fn law_what_was_not_written_is_not_found(
    chain: Seq<Mnemosyne>,
    times: Seq<u64>,
    n2: Mnemosyne,
    key: Vec<u8>,
    read_at: ConsistencyLevel,
    who: Caller,
    db_id: u16,
    later: u64,
    leads: bool,
    leader: Seq<char>,
    r: Result<ReplyView, ErrorView>,
    p: Seq<PushView>,
)
    requires
        kept_along(chain, times, db_key(db_id, key@), later),
        !chain[0].store@.map.contains_key(db_key(db_id, key@)),
        !must_wait(chain.last().warmup.hot, CmdId::Get, read_at),
        handled(
            chain.last(),
            CmdId::Get,
            read_at,
            Ok(NodeCommand::Data(DataCommand::Get { key })),
            who,
            db_id,
            later,
            leads,
            leader,
            n2,
            r,
            p,
        ),
    ensures
        r == Err::<ReplyView, ErrorView>(ErrorView::KeyNotFound),
{
    lemma_kept_along(chain, times, db_key(db_id, key@), later);
}

/// A node that does not lead changes nothing for a command that changes data,
/// names, settings or accounts, replicates nothing and names the leader.
pub proof fn law_followers_write_nothing(
    before: Mnemosyne,
    cmd: CmdId,
    level: ConsistencyLevel,
    request: Result<NodeCommand, String>,
    who: Caller,
    db_id: u16,
    now: u64,
    leader: Seq<char>,
    after: Mnemosyne,
    r: Result<ReplyView, ErrorView>,
    pushes: Seq<PushView>,
)
    requires
        writes(cmd) || leader_only(cmd),
        handled(before, cmd, level, request, who, db_id, now, false, leader, after, r, pushes),
    ensures
        after == before,
        pushes.len() == 0,
        r == Ok::<ReplyView, ErrorView>(ReplyView::Redirect(leader)),
{
}

/// Before the warm-up is over, a read at quorum or at all is refused whatever
/// the pool holds; the same read at a lower level, and any command once the
/// node is hot, is not held up.
pub proof fn law_warm_up_gates_reads(hot: bool, cmd: CmdId, level: ConsistencyLevel)
    ensures
        must_wait(hot, cmd, level) ==> !hot && !leader_only(cmd) && level != ConsistencyLevel::Eventual && level
            != ConsistencyLevel::One,
        gated_read(cmd) && (level == ConsistencyLevel::Quorum || level == ConsistencyLevel::All) ==> must_wait(
            false,
            cmd,
            level,
        ),
{
}

/// A command that reads changes nothing that can be read: neither data nor
/// accounts, settings, names or owners. Revoking a token is the one that does.
pub proof fn law_reads_leave_the_node_alone(
    before: Mnemosyne,
    c: NodeCommand,
    db_id: u16,
    now: u64,
    after: Mnemosyne,
    r: Result<ReplyView, ErrorView>,
    pushes: Seq<PushView>,
)
    requires
        reads(c.id()),
        c.id() != CmdId::RevokeToken,
        did(before, c, db_id, now, after, r, pushes),
    ensures
        same_content(before.store@, after.store@, now),
        after == (Mnemosyne { store: after.store, ..before }),
        pushes.len() == 0,
{
    match c {
        NodeCommand::Data(d) => law_reads_change_nothing(before.store@, d, db_id, now),
        _ => {},
    }
}

/// Only administrators learn anything of accounts other than their own.
pub proof fn law_others_accounts_are_hidden(n: Mnemosyne, username: Option<String>, caller: Caller, r: ReplyView)
    requires
        !caller.admin,
        told(n, NodeCommand::UserInfo { username, caller }, 0, 0, Ok(r)),
    ensures
        r matches ReplyView::User(_, id, _, _) && id == caller.user_id,
{
}

} // verus!
