//! How a node answers requests as a whole: what it lets through, what it sends
//! elsewhere, and what its settings and figures say.

use vstd::prelude::*;

use crate::aletheia::MetricsView;
use crate::commands::DataCommand;
use crate::iris::{slot_of, Iris};
use crate::mnemosyne::{did, handled, relieved, Caller, Mnemosyne, NodeCommand};
use crate::pool::{capped, eviction_quota, law_eviction_quota, law_least_used_go, EvictionReason};
use crate::proto::{CmdId, ConsistencyLevel, PushView};
use crate::rbac::{permitted, Role};
use crate::reply::ReplyView;
use crate::session::{greeted, routed_by, steered, Session, SignIn, Step};
use crate::settings::{lemma_setting_names, size_value, SettingsView};
use crate::store::StoreView;
use crate::value::ErrorView;

verus! {

/// Commands that only the leader of a cluster runs.
pub open spec fn for_the_leader(cmd: CmdId) -> bool {
    match cmd {
        CmdId::SetKey | CmdId::MSet | CmdId::GetSet | CmdId::Del | CmdId::Expire | CmdId::FlushDb => true,
        CmdId::HSet | CmdId::HDel | CmdId::LPush | CmdId::RPush | CmdId::LPop | CmdId::RPop => true,
        CmdId::ZAdd | CmdId::ZRem => true,
        CmdId::Incr | CmdId::Decr | CmdId::IncrBy | CmdId::DecrBy | CmdId::IncrByFloat => true,
        CmdId::JsonSet | CmdId::JsonDel | CmdId::JsonArrAppend | CmdId::JsonNumIncrBy => true,
        CmdId::DbCreate | CmdId::DbDrop | CmdId::Config => true,
        CmdId::UserCreate | CmdId::UserDelete | CmdId::UserGrant | CmdId::UserRevoke | CmdId::UserSetRole => true,
        _ => false,
    }
}

/// Reads of values that a node must not answer for the cluster before it has
/// all of them.
pub open spec fn reads_for_all(cmd: CmdId) -> bool {
    match cmd {
        CmdId::Get | CmdId::MGet | CmdId::HGet | CmdId::HGetAll | CmdId::LRange => true,
        CmdId::ZRange | CmdId::ZRangeByScore | CmdId::ZRank | CmdId::ZScore | CmdId::ZCard => true,
        _ => false,
    }
}

/// A request is refused while the node warms up if it reads at quorum or at
/// all; a follower sends it to the leader if it changes anything; and every
/// other request is run.
pub proof fn law_requests_pass(
    n: Mnemosyne,
    cmd: CmdId,
    level: ConsistencyLevel,
    request: Result<NodeCommand, String>,
    who: Caller,
    db_id: u16,
    now: u64,
    leads: bool,
    leader: Seq<char>,
    after: Mnemosyne,
    r: Result<ReplyView, ErrorView>,
    pushes: Seq<PushView>,
)
    requires
        handled(n, cmd, level, request, who, db_id, now, leads, leader, after, r, pushes),
    ensures
        ({
            let waits = !n.warmup.hot && reads_for_all(cmd) && (level == ConsistencyLevel::Quorum || level
                == ConsistencyLevel::All);
            let elsewhere = for_the_leader(cmd) && !leads;
            &&& waits ==> after == n && pushes.len() == 0 && r == Err::<ReplyView, ErrorView>(
                ErrorView::QuorumNotReached(0, 1),
            )
            &&& elsewhere ==> after == n && pushes.len() == 0 && r == Ok::<ReplyView, ErrorView>(
                ReplyView::Redirect(leader),
            )
            &&& !waits && !elsewhere && request is Ok ==> did(n, request->Ok_0, db_id, now, after, r, pushes)
        }),
{
}

/// A request that cannot be read is answered with an error, or, if it writes a
/// value and there is no room, as one without room; but some commands mean
/// something without a payload: the last 128 slow commands, the size of the
/// connection's database or its emptying, the first ten of its keys, and the
/// caller's own account.
pub proof fn law_unread_requests(
    n: Mnemosyne,
    cmd: CmdId,
    level: ConsistencyLevel,
    e: String,
    who: Caller,
    db_id: u16,
    now: u64,
    leader: Seq<char>,
    after: Mnemosyne,
    r: Result<ReplyView, ErrorView>,
    pushes: Seq<PushView>,
)
    requires
        n.warmup.hot,
        handled(n, cmd, level, Err(e), who, db_id, now, true, leader, after, r, pushes),
    ensures
        ({
            let wants = cmd == CmdId::SetKey || cmd == CmdId::MSet || cmd == CmdId::HSet || cmd == CmdId::LPush || cmd
                == CmdId::RPush || cmd == CmdId::ZAdd || cmd == CmdId::JsonSet;
            let means = cmd == CmdId::SlowLog || cmd == CmdId::DbSize || cmd == CmdId::FlushDb || cmd == CmdId::Scan || cmd
                == CmdId::UserInfo;
            &&& wants && n.store@.used >= n.store@.limit ==> r == Err::<ReplyView, ErrorView>(ErrorView::OutOfMemory)
            &&& (wants && n.store@.used < n.store@.limit || !wants && !means) ==> r == Err::<ReplyView, ErrorView>(
                ErrorView::Serialization(e@),
            )
            &&& !means ==> after == n && pushes.len() == 0
            &&& cmd == CmdId::SlowLog ==> did(n, NodeCommand::SlowLog { count: 128 }, db_id, now, after, r, pushes)
            &&& cmd == CmdId::Scan ==> did(
                n,
                NodeCommand::Data(DataCommand::Scan { cursor: 0, pattern: None, count: 10 }),
                db_id,
                now,
                after,
                r,
                pushes,
            )
            &&& cmd == CmdId::UserInfo ==> did(
                n,
                NodeCommand::UserInfo { username: None, caller: who },
                db_id,
                now,
                after,
                r,
                pushes,
            )
            &&& cmd == CmdId::DbSize ==> exists|name: String|
                name@.len() == 0 && #[trigger] did(
                    n,
                    NodeCommand::DbSize { name, db_id: None },
                    db_id,
                    now,
                    after,
                    r,
                    pushes,
                )
            &&& cmd == CmdId::FlushDb ==> exists|name: String|
                name@.len() == 0 && #[trigger] did(
                    n,
                    NodeCommand::FlushDb { name, db_id: None, sync: true },
                    db_id,
                    now,
                    after,
                    r,
                    pushes,
                )
        }),
{
}

/// `CONFIG SET` of the pool's limit takes a size, which counts at once and is
/// read back as it was written; of the threshold of eviction, a number. Nothing
/// else can be set, and a value that is none changes nothing.
pub proof fn law_config_set_then_get(
    n: Mnemosyne,
    param: String,
    value: String,
    threshold: Option<String>,
    pressed: bool,
    conn_db: u16,
    now: u64,
    after: Mnemosyne,
    r: Result<ReplyView, ErrorView>,
    pushes: Seq<PushView>,
)
    requires
        did(n, NodeCommand::ConfigSet { param, value, threshold, pressed }, conn_db, now, after, r, pushes),
    ensures
        ({
            let size = size_value(vstd::utf8::encode_utf8(value@));
            let was = n.settings@;
            let is = after.settings@;
            &&& param@ == "memory.pool_bytes"@ ==> {
                &&& r is Ok <==> size is Some
                &&& size matches Some(v) ==> is == (SettingsView { pool_bytes: value@, ..was }) && (0 <= v <= u64::MAX
                    ==> after.store@.limit == v)
            }
            &&& param@ == "memory.eviction_threshold"@ ==> {
                &&& r is Ok <==> threshold is Some
                &&& threshold matches Some(t) ==> is == (SettingsView { eviction_threshold: t@, ..was })
                &&& after.store == n.store
            }
            &&& param@ != "memory.pool_bytes"@ && param@ != "memory.eviction_threshold"@ ==> r is Err
            &&& r is Err ==> after == n
            &&& pushes.len() == 0 && after.argus == n.argus && after.dbs == n.dbs
        }),
{
    lemma_setting_names();
    if param@ == "memory.pool_bytes"@ {
        if let Some(v) = size_value(vstd::utf8::encode_utf8(value@)) {
            let s = StoreView { limit: v as u64, ..n.store@ };
            lemma_relieved(s, n.aletheia@, after.store@, after.aletheia@, pressed, now);
        }
    }
}

/// `CONFIG GET` answers what the settings hold.
pub proof fn law_config_get_answers(
    n: Mnemosyne,
    param: String,
    conn_db: u16,
    now: u64,
    after: Mnemosyne,
    r: Result<ReplyView, ErrorView>,
    pushes: Seq<PushView>,
)
    requires
        did(n, NodeCommand::ConfigGet { param }, conn_db, now, after, r, pushes),
    ensures
        param@ == "memory.pool_bytes"@ ==> r == Ok::<ReplyView, ErrorView>(ReplyView::Text(n.settings@.pool_bytes)),
        param@ == "memory.eviction_threshold"@ ==> r == Ok::<ReplyView, ErrorView>(
            ReplyView::Text(n.settings@.eviction_threshold),
        ),
        param@ == "node.id"@ ==> r == Ok::<ReplyView, ErrorView>(ReplyView::Text(n.settings@.node_id)),
        param@ != "memory.pool_bytes"@ && param@ != "memory.eviction_threshold"@ && param@ != "node.id"@ ==> r is Err,
        after == n,
{
    lemma_setting_names();
}

proof fn lemma_relieved(s: StoreView, m: MetricsView, t: StoreView, n: MetricsView, pressed: bool, now: u64)
    requires
        relieved(s, m, t, n, pressed, now),
    ensures
        t.limit == s.limit,
{
    if s.used >= s.limit || pressed {
        let (reason, gone) = choose|reason: EvictionReason, gone: Seq<Seq<u8>>|
            #[trigger] crate::mnemosyne::evicted_by(s, m, t, n, pressed, now, reason, gone);
        assert(crate::mnemosyne::evicted_by(s, m, t, n, pressed, now, reason, gone));
    }
}

/// A round of eviction takes nothing while the bytes in use are below the limit
/// and the pool is not pressed. Otherwise some live entries go, at most 4096
/// where there is no room and at most 512 where there is little; the rest of
/// the pool and its limit stay as they were.
pub proof fn law_relief(s: StoreView, m: MetricsView, t: StoreView, n: MetricsView, pressed: bool, now: u64) -> (gone: Set<Seq<u8>>)
    requires
        relieved(s, m, t, n, pressed, now),
    ensures
        s.used < s.limit && !pressed ==> t == s && n == m,
        gone.finite(),
        gone.len() <= if s.used >= s.limit { 4096nat } else { 512nat },
        forall|k: Seq<u8>| #[trigger] gone.contains(k) ==> s.map.contains_key(k) && (s.map[k].expires_at_ms == 0 || now
            < s.map[k].expires_at_ms),
        forall|k: Seq<u8>| #[trigger] t.map.contains_key(k) <==> s.map.contains_key(k) && !gone.contains(k),
        forall|k: Seq<u8>| #[trigger] t.map.contains_key(k) ==> t.map[k] == s.map[k],
        t.limit == s.limit && t.wheels == s.wheels,
{
    if s.used < s.limit && !pressed {
        Set::empty()
    } else {
        let (reason, gone) = choose|reason: EvictionReason, gone: Seq<Seq<u8>>|
            #[trigger] crate::mnemosyne::evicted_by(s, m, t, n, pressed, now, reason, gone);
        assert(crate::mnemosyne::evicted_by(s, m, t, n, pressed, now, reason, gone));
        let total = capped(s.map.dom().len()) as int;
        law_eviction_quota(total);
        let q = eviction_quota(reason, total) as usize;
        let sample = law_least_used_go(gone, s.map, q, now);
        vstd::seq_lib::seq_to_set_is_finite(gone);
        gone.lemma_cardinality_of_set();
        assert forall|k: Seq<u8>| #[trigger] gone.to_set().contains(k) implies s.map.contains_key(k) && (
        s.map[k].expires_at_ms == 0 || now < s.map[k].expires_at_ms) by {
            let i = choose|i: int| 0 <= i < gone.len() && gone[i] == k;
            let keys = crate::pool::listed_keys(sample);
            assert(keys.contains(gone[i]));
            let j = choose|j: int| 0 <= j < keys.len() && keys[j] == k;
            assert(sample[j].0 == k);
        }
        gone.to_set()
    }
}

/// `WAIT` answers the number of keepers that was asked for, or how many there
/// are where they are fewer.
pub proof fn law_wait_answers(
    n: Mnemosyne,
    n_keepers: usize,
    conn_db: u16,
    now: u64,
    after: Mnemosyne,
    r: Result<ReplyView, ErrorView>,
    pushes: Seq<PushView>,
)
    requires
        did(n, NodeCommand::Wait { n_keepers }, conn_db, now, after, r, pushes),
    ensures
        n.moirai.handles().len() >= n_keepers ==> r == Ok::<ReplyView, ErrorView>(ReplyView::Count(n_keepers as int)),
        n.moirai.handles().len() <= n_keepers ==> r == Ok::<ReplyView, ErrorView>(
            ReplyView::Count(n.moirai.handles().len() as int),
        ),
        after == n,
{
}

/// `SLOWLOG` shows the slow commands, the last one first, as many as asked for.
pub proof fn law_slowlog_shows(
    n: Mnemosyne,
    count: usize,
    conn_db: u16,
    now: u64,
    after: Mnemosyne,
    r: Result<ReplyView, ErrorView>,
    pushes: Seq<PushView>,
)
    requires
        did(n, NodeCommand::SlowLog { count }, conn_db, now, after, r, pushes),
    ensures
        r matches Ok(v) && v matches ReplyView::Slow(l) && {
            let all = n.delphi.slow();
            &&& all.len() <= count ==> l.len() == all.len()
            &&& all.len() > count ==> l.len() == count
            &&& forall|i: int| 0 <= i < l.len() ==> #[trigger] l[i] == {
                let c = all[all.len() - 1 - i];
                (c.cmd, c.key, c.duration_us)
            }
        },
        after == n,
{
}

/// What the node tells of its memory, keepers and slots.
pub proof fn law_figures_tell(
    n: Mnemosyne,
    c: NodeCommand,
    conn_db: u16,
    now: u64,
    after: Mnemosyne,
    r: Result<ReplyView, ErrorView>,
    pushes: Seq<PushView>,
    slot: u16,
)
    requires
        did(n, c, conn_db, now, after, r, pushes),
    ensures
        c is Metrics ==> r == Ok::<ReplyView, ErrorView>(ReplyView::Usage(n.store@.used, n.store@.limit)),
        c is PoolStats ==> r == Ok::<ReplyView, ErrorView>(
            ReplyView::PoolUsage(n.store@.used, n.store@.limit, n.moirai.keepers().len() as int),
        ),
        c is KeeperList ==> r == Ok::<ReplyView, ErrorView>(ReplyView::Keepers(n.moirai.keepers())),
        c is ClusterSlots ==> (r matches Ok(v) && v matches ReplyView::Slots(m) && {
            &&& m.contains_key(slot) <==> slot < 16384
            &&& slot < 16384 ==> m[slot] == match n.iris.owners()[slot as int] {
                Some(o) => o.0,
                None => n.iris.node(),
            }
        }),
        c is Metrics || c is PoolStats || c is KeeperList || c is ClusterSlots ==> after == n && pushes.len() == 0,
{
}

/// A connection that has signed in is told where its key lives if that is
/// elsewhere, and has its command run if it is here or there is no key. What it
/// may not run on the database that the command is about is refused.
pub proof fn law_connection_is_steered(
    before: Session,
    iris: Iris,
    names: Map<Seq<char>, u16>,
    max: u16,
    cmd: CmdId,
    select: Result<(Seq<char>, u16), Seq<char>>,
    named: (Seq<char>, Option<u16>),
    key: Option<Seq<u8>>,
    after: Session,
    r: Step,
)
    requires
        steered(before, iris, names, max, cmd, select, named, key, after, r),
        cmd != CmdId::Select,
    ensures
        after == before,
        ({
            let db = if cmd != CmdId::FlushDb && cmd != CmdId::DbSize {
                before.db
            } else if named.0.len() > 0 {
                if names.contains_key(named.0) {
                    names[named.0]
                } else {
                    before.db
                }
            } else {
                match named.1 {
                    Some(id) => id,
                    None => before.db,
                }
            };
            if permitted(before.role, cmd, db, before.allowed_dbs@) {
                match key {
                    None => r == Step::Run(None),
                    Some(k) => match iris.owners()[slot_of(k) as int] {
                        None => r matches Step::Run(x) && x matches Some(b) && b@ == k,
                        Some(o) => r matches Step::Moved { slot, node_id, addr } && slot == slot_of(k) && node_id == o.0
                            && addr@ == o.1,
                    },
                }
            } else {
                r is Refuse
            }
        }),
{
}

/// `SELECT` changes the database of a connection that may run it where it is,
/// to the one of a name or a number, as long as its number is in range; and
/// nothing else of the connection.
pub proof fn law_select_moves_the_connection(
    before: Session,
    iris: Iris,
    names: Map<Seq<char>, u16>,
    max: u16,
    name: Seq<char>,
    id: u16,
    named: (Seq<char>, Option<u16>),
    key: Option<Seq<u8>>,
    after: Session,
    r: Step,
)
    requires
        steered(before, iris, names, max, CmdId::Select, Ok((name, id)), named, key, after, r),
        permitted(before.role, CmdId::Select, before.db, before.allowed_dbs@),
        name.len() > 0 ==> names.contains_key(name),
    ensures
        ({
            let to = if name.len() > 0 { names[name] } else { id };
            if to < max {
                after == (Session { db: to, ..before }) && r is Say
            } else {
                after == before && r is Refuse
            }
        }),
{
}

/// Signing in gives a connection the account's number, role and databases and
/// leaves it in its database; a refusal leaves it as it was.
pub proof fn law_sign_in_enters(before: Session, outcome: SignIn, after: Session, r: Step)
    requires
        greeted(before, outcome, after, r),
    ensures
        match outcome {
            SignIn::Refused(_) => after == before && r is Refuse,
            SignIn::Known(c) => r is Say && after.authenticated && after.db == before.db && after.user_id == c@.user_id
                && after.allowed_dbs@ == c@.allowed_dbs && after.role == Role::named(c@.role),
            SignIn::Issued(token, c) => (r matches Step::Say(x) && x@ == token@) && after.authenticated && after.db
                == before.db && after.user_id == c@.user_id && after.allowed_dbs@ == c@.allowed_dbs && after.role
                == Role::named(c@.role),
        },
{
}

/// Commands that are about one key are routed by it: those whose payload is
/// just the key by the payload, the others by the first key of the request.
/// No other command is routed.
pub proof fn law_routed_by_key(c: DataCommand, cmd: CmdId, bare: Option<Seq<u8>>, first: Option<Seq<u8>>)
    ensures
        c is Get || c is Exists || c is Ttl || c is Expire || c is HGetAll || c is LPop || c is RPop || c is ZCard || c is Incr
            || c is Decr || c is MemoryUsage || c is Type ==> routed_by(c.id(), bare, first) == bare,
        c is SetKey || c is Del || c is MGet || c is MSet || c is GetSet || c is HGet || c is HSet || c is HDel || c is LPush
            || c is RPush || c is LRange || c is ZAdd || c is ZRank || c is ZRange || c is ZRangeByScore || c is ZRem
            || c is IncrBy || c is DecrBy || c is IncrByFloat || c is JsonGet || c is JsonSet || c is JsonDel
            || c is JsonExists || c is JsonType || c is JsonArrAppend || c is JsonNumIncrBy ==> routed_by(c.id(), bare, first)
            == first,
        c is Scan || c is ZScore ==> routed_by(c.id(), bare, first) is None,
        cmd == CmdId::FlushDb || cmd == CmdId::DbSize || cmd == CmdId::Select || cmd == CmdId::Auth || cmd
            == CmdId::ClusterInfo || cmd == CmdId::UserList || cmd == CmdId::Config || cmd == CmdId::Stats ==> routed_by(
            cmd,
            bare,
            first,
        ) is None,
{
}

/// Commands on accounts, settings and names of databases are for
/// administrators and for the leader; emptying a database is for the leader and
/// for those who may write; the others a follower answers itself.
pub proof fn law_commands_stand_where_they_belong(c: NodeCommand, db_id: u16, allowed_dbs: Seq<u16>)
    ensures
        c is UserCreate || c is UserDelete || c is UserGrant || c is UserRevoke || c is UserSetRole || c is ConfigSet
            || c is ConfigGet || c is DbCreate || c is DbDrop ==> for_the_leader(c.id()) && !permitted(
            Role::ReadWrite,
            c.id(),
            db_id,
            allowed_dbs,
        ),
        c is UserList || c is DbList || c is Monitor || c is GenerateJoinToken ==> !for_the_leader(c.id()) && !permitted(
            Role::ReadWrite,
            c.id(),
            db_id,
            allowed_dbs,
        ),
        c is FlushDb ==> for_the_leader(c.id()) && permitted(Role::ReadWrite, c.id(), db_id, Seq::empty()) && !permitted(
            Role::ReadOnly,
            c.id(),
            db_id,
            Seq::empty(),
        ),
        c is DbSize || c is SlowLog || c is Metrics || c is Stats || c is Select || c is ClusterInfo || c is ClusterSlots
            || c is KeeperList || c is PoolStats || c is Wait || c is UserInfo || c is RevokeToken ==> !for_the_leader(c.id())
            && permitted(Role::ReadOnly, c.id(), db_id, Seq::empty()),
{
}

/// Those who may write run every command on data. The ones that change values
/// are for the leader, and the others are those that a reader may run.
pub proof fn law_data_commands_by_role(c: DataCommand, db_id: u16)
    ensures
        permitted(Role::ReadWrite, c.id(), db_id, Seq::empty()),
        permitted(Role::ReadOnly, c.id(), db_id, Seq::empty()) <==> !for_the_leader(c.id()),
        c is SetKey || c is MSet || c is GetSet || c is Del || c is Expire || c is HSet || c is HDel || c is LPush || c is RPush
            || c is LPop || c is RPop || c is ZAdd || c is ZRem || c is Incr || c is Decr || c is IncrBy || c is DecrBy
            || c is IncrByFloat || c is JsonSet || c is JsonDel || c is JsonArrAppend || c is JsonNumIncrBy <==> for_the_leader(
            c.id(),
        ),
{
}

} // verus!
