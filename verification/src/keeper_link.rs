//! The connection of a keeper or a replica to the core: how it is accepted,
//! and what its frames do.

use vstd::prelude::*;

use crate::moirai::{grant_in, with_handle, with_keeper, with_stats, without_keeper, KeeperView, Moirai};
use crate::pool::{all_prefixed, is_replay};
use crate::proto::{push_views, CmdId, PushKeyPayload};
use crate::store::{Store, StoreView};
use crate::text::{hex, hex_text, str_eq, strip_prefix, stripped};
use crate::warmup::WarmupState;

verus! {

/// The flags of a start frame that only registers a node.
pub const REGISTER_FLAGS: u16 = 1;

/// What the first frame on the replication port asks for.
#[derive(Debug, Clone, Copy, PartialEq, Eq, Structural)]
pub enum Opening {
    /// Another core speaks to this one.
    RaftPeer,
    /// A node registers and goes away again.
    Register,
    /// A keeper or a replica starts a session.
    Sync,
    /// Nothing that belongs here.
    Unexpected,
}

/// What the first frame on the replication port asks for.
pub fn opening(cmd: CmdId, flags: u16) -> (r: Opening)
    ensures
        r == match cmd {
            CmdId::RaftAppendEntries => Opening::RaftPeer,
            CmdId::RaftVote => Opening::RaftPeer,
            CmdId::RaftInstallSnapshot => Opening::RaftPeer,
            CmdId::SyncStart => if flags == REGISTER_FLAGS {
                Opening::Register
            } else {
                Opening::Sync
            },
            _ => Opening::Unexpected,
        },
{
    match cmd {
        CmdId::RaftAppendEntries => Opening::RaftPeer,
        CmdId::RaftVote => Opening::RaftPeer,
        CmdId::RaftInstallSnapshot => Opening::RaftPeer,
        CmdId::SyncStart => if flags == REGISTER_FLAGS {
            Opening::Register
        } else {
            Opening::Sync
        },
        _ => Opening::Unexpected,
    }
}

/// What a keeper or a replica says when it starts a session.
#[derive(Debug)]
pub struct SyncStartPayload {
    pub node_id: u64,
    pub highest_seq: u64,
    pub cluster_secret: String,
    /// How many keys it will hand over.
    pub key_count: u64,
    pub version: u8,
    pub replication_addr: String,
    pub node_name: String,
    pub pool_bytes: u64,
}

/// What a keeper says when it has handed all keys over.
#[derive(Debug, Clone, Copy, PartialEq, Eq, Structural)]
pub struct SyncCompletePayload {
    pub node_id: u64,
    pub pushed_keys: u64,
    pub highest_seq: u64,
}

/// The figures that a keeper reports of itself.
#[derive(Debug, Clone, Copy, PartialEq, Eq, Structural)]
pub struct HeartbeatPayload {
    pub node_id: u64,
    pub pool_bytes: u64,
    pub used_bytes: u64,
    pub key_count: u64,
}

/// The address that a node can be reached at: its own words, except that it
/// cannot know its address where it listens on all of them.
pub open spec fn reachable_addr(said: Seq<char>, peer_ip: Seq<char>) -> Seq<char> {
    if said.len() == 0 {
        peer_ip + ":7379"@
    } else {
        match stripped(said, "0.0.0.0:"@) {
            Some(port) => peer_ip + ":"@ + port,
            None => said,
        }
    }
}

/// The address that a node can be reached at.
pub fn keeper_addr(said: &str, peer_ip: &str) -> (r: String)
    ensures
        r@ == reachable_addr(said@, peer_ip@),
{
    let n: usize = said.unicode_len();
    if n == 0 {
        let mut s = peer_ip.to_string();
        s.append(":7379");
        return s;
    }
    match strip_prefix(said, "0.0.0.0:") {
        Some(port) => {
            let mut s = peer_ip.to_string();
            s.append(":");
            s.append(port);
            s
        },
        None => said.to_string(),
    }
}

/// The name of a node: its own, or its number in sixteen hexadecimal digits.
pub open spec fn shown_name(name: Seq<char>, node_id: u64) -> Seq<char> {
    if name.len() == 0 {
        hex(node_id as nat, 16)
    } else {
        name
    }
}

/// The name of a node.
pub fn keeper_name(name: &str, node_id: u64) -> (r: String)
    ensures
        r@ == shown_name(name@, node_id),
{
    let n: usize = name.unicode_len();
    if n == 0 {
        hex_text(node_id, 16)
    } else {
        name.to_string()
    }
}

/// The secret is the cluster's. An empty one is never right.
pub open spec fn right_secret(given: Seq<char>, expected: Seq<char>) -> bool {
    given.len() > 0 && given == expected
}

/// The wrong secret was presented.
#[derive(Debug, Clone, Copy, PartialEq, Eq, Structural)]
pub struct WrongSecret;

impl WrongSecret {
    /// The error as the node sees it.
    pub fn message(self) -> (r: &'static str)
        ensures
            r@ == "wrong cluster_secret"@,
    {
        "wrong cluster_secret"
    }
}

/// A session with a keeper or a replica.
#[derive(Debug)]
pub struct KeeperLink {
    pub node_id: u64,
    /// How many keys the node said it would hand over.
    pub expected: u64,
    /// The core was hot when the session started.
    pub was_hot: bool,
    /// The node counts as pending in the warm-up.
    pub counted: bool,
}

/// What the core does when a node says that it has handed all keys over.
#[derive(Debug, Clone, Copy, PartialEq, Eq, Structural)]
pub enum Completion {
    /// The core has become hot.
    BecameHot,
    /// Others are still pending.
    Waiting,
    /// A keeper came back to a core that was hot.
    Resynced,
    /// A replica came back to a core that was hot and is handed everything.
    ReplayAll,
}

/// What a frame of an open session asks for.
#[derive(Debug, Clone, Copy, PartialEq, Eq, Structural)]
pub enum LinkFrame {
    Push,
    Complete,
    Heartbeat,
    /// Passed over without an answer.
    Ignored,
}

/// What a frame of an open session asks for.
pub fn link_frame(cmd: CmdId) -> (r: LinkFrame)
    ensures
        r == match cmd {
            CmdId::PushKey => LinkFrame::Push,
            CmdId::SyncComplete => LinkFrame::Complete,
            CmdId::Heartbeat => LinkFrame::Heartbeat,
            _ => LinkFrame::Ignored,
        },
{
    match cmd {
        CmdId::PushKey => LinkFrame::Push,
        CmdId::SyncComplete => LinkFrame::Complete,
        CmdId::Heartbeat => LinkFrame::Heartbeat,
        _ => LinkFrame::Ignored,
    }
}

/// The limit of the pool without what a keeper brought. It is left as it is
/// where that would leave nothing.
pub open spec fn limit_without(limit: u64, grant: Option<u64>) -> u64 {
    match grant {
        Some(g) => if limit > g {
            (limit - g) as u64
        } else {
            limit
        },
        None => limit,
    }
}

impl KeeperLink {
    /// Accepts a node that presents the right secret: it is listed, and counts
    /// as pending unless the core is hot already.
    pub fn accept(sync: &SyncStartPayload, secret: &str, peer_ip: &str, moirai: &mut Moirai, warmup: &mut WarmupState) -> (r: Result<
        KeeperLink,
        WrongSecret,
    >)
        requires
            old(moirai).wf(),
        ensures
            final(moirai).wf(),
            r is Err <==> !right_secret(sync.cluster_secret@, secret@),
            final(moirai).solo() == old(moirai).solo(),
            match r {
                Err(_) => {
                    &&& final(moirai).handles() == old(moirai).handles()
                    &&& final(moirai).keepers() == old(moirai).keepers()
                    &&& *final(warmup) == *old(warmup)
                },
                Ok(link) => {
                    &&& link.node_id == sync.node_id
                    &&& link.expected == sync.key_count
                    &&& link.was_hot == old(warmup).hot
                    &&& link.counted == !old(warmup).hot
                    &&& *final(warmup) == old(warmup).started(sync.key_count)
                    &&& final(moirai).handles() == with_handle(old(moirai).handles(), sync.node_id)
                    &&& final(moirai).keepers() == with_keeper(
                        old(moirai).keepers(),
                        KeeperView {
                            node_id: sync.node_id,
                            node_name: shown_name(sync.node_name@, sync.node_id),
                            addr: reachable_addr(sync.replication_addr@, peer_ip@),
                            pool_bytes: sync.pool_bytes,
                            used_bytes: 0,
                        },
                    )
                },
            },
    {
        let given: usize = sync.cluster_secret.as_str().unicode_len();
        if given == 0 || !str_eq(sync.cluster_secret.as_str(), secret) {
            return Err(WrongSecret);
        }
        let addr = keeper_addr(sync.replication_addr.as_str(), peer_ip);
        let name = keeper_name(sync.node_name.as_str(), sync.node_id);
        moirai.add_keeper(sync.node_id, name, addr, sync.pool_bytes);
        let was_hot = warmup.is_hot();
        let counted = warmup.sync_started(sync.key_count);
        Ok(KeeperLink { node_id: sync.node_id, expected: sync.key_count, was_hot, counted })
    }

    /// The node hands a key over.
    pub fn push(&self, push: PushKeyPayload, store: &mut Store, warmup: &mut WarmupState, now_ms: u64)
        requires
            old(store).wf(),
        ensures
            final(store).wf(),
            final(store)@ == old(store)@.applied(push@, now_ms),
            *final(warmup) == (WarmupState {
                total_received: crate::pool::wrap(old(warmup).total_received + 1),
                ..*old(warmup)
            }),
    {
        store.apply(push, now_ms);
        warmup.key_received();
    }

    /// The node says that it has handed all keys over. It counts once.
    pub fn complete(&mut self, warmup: &mut WarmupState) -> (r: Completion)
        ensures
            final(self).node_id == old(self).node_id,
            final(self).expected == old(self).expected,
            final(self).was_hot == old(self).was_hot,
            !final(self).counted,
            *final(warmup) == (if old(self).counted {
                old(warmup).finished()
            } else {
                *old(warmup)
            }),
            r == if old(self).was_hot {
                if old(self).expected == 0 {
                    Completion::ReplayAll
                } else {
                    Completion::Resynced
                }
            } else if old(self).counted && old(warmup).pending == 1 {
                Completion::BecameHot
            } else {
                Completion::Waiting
            },
            r == completion(old(self).was_hot, old(self).expected, old(self).counted, old(warmup).pending),
    {
        let mut became_hot = false;
        if self.counted {
            became_hot = warmup.sync_completed();
            self.counted = false;
        }
        if self.was_hot {
            if self.expected == 0 {
                Completion::ReplayAll
            } else {
                Completion::Resynced
            }
        } else if became_hot {
            Completion::BecameHot
        } else {
            Completion::Waiting
        }
    }

    /// The node reports its figures.
    pub fn heartbeat(&self, hb: &HeartbeatPayload, moirai: &mut Moirai)
        requires
            old(moirai).wf(),
        ensures
            final(moirai).wf(),
            final(moirai).solo() == old(moirai).solo(),
            final(moirai).handles() == old(moirai).handles(),
            final(moirai).keepers() == with_stats(old(moirai).keepers(), hb.node_id, hb.pool_bytes, hb.used_bytes),
    {
        moirai.update_stats(hb.node_id, hb.pool_bytes, hb.used_bytes);
    }

    /// The node went away: the pool shrinks by what it brought, it is no longer
    /// listed, and no longer pending if it was. The core does not become hot.
    pub fn closed(self, store: &mut Store, moirai: &mut Moirai, warmup: &mut WarmupState)
        requires
            old(store).wf(),
            old(moirai).wf(),
        ensures
            final(store).wf(),
            final(moirai).wf(),
            final(store)@ == (StoreView {
                limit: limit_without(old(store)@.limit, grant_in(old(moirai).keepers(), self.node_id)),
                ..old(store)@
            }),
            final(moirai).solo() == old(moirai).solo(),
            final(moirai).handles() == old(moirai).handles().filter(|k: u64| k != self.node_id),
            final(moirai).keepers() == without_keeper(old(moirai).keepers(), self.node_id),
            *final(warmup) == (if self.counted {
                old(warmup).dropped()
            } else {
                *old(warmup)
            }),
    {
        match moirai.grant_of(self.node_id) {
            Some(grant) => {
                let limit: u64 = store.pool.pool_max();
                if limit > grant {
                    store.pool.set_pool_max(limit - grant);
                }
            },
            None => {},
        }
        moirai.remove_keeper(self.node_id);
        if self.counted {
            warmup.keeper_dropped();
        }
    }
}

/// Everything that is live, for a replica that came back. A pool that holds a
/// key without a database number has nothing to hand over.
pub fn replay_all(store: &Store, now_ms: u64) -> (r: Option<Vec<PushKeyPayload>>)
    requires
        store.wf(),
    ensures
        r is Some <==> all_prefixed(store@.map),
        r matches Some(p) ==> is_replay(push_views(p@), store@.map, now_ms),
{
    if store.pool.keys_prefixed() {
        Some(store.pool.replay(now_ms))
    } else {
        None
    }
}

/// What a replica does with a frame from its primary: a write is applied and
/// answered, anything else is passed over.
pub fn replica_frame(cmd: CmdId) -> (r: bool)
    ensures
        r == (cmd == CmdId::PushKey),
{
    cmd == CmdId::PushKey
}

/// A node is reached where it says, unless it says nothing or that it listens
/// everywhere: then at the address it came from, with the port it said, or 7379.
pub proof fn law_reached_where_it_says(said: Seq<char>, port: Seq<char>, peer_ip: Seq<char>)
    requires
        said.len() > 0,
        said.len() < 8 || said.take(8) != "0.0.0.0:"@,
    ensures
        reachable_addr(Seq::empty(), peer_ip) == peer_ip + ":7379"@,
        reachable_addr("0.0.0.0:"@ + port, peer_ip) == peer_ip + ":"@ + port,
        reachable_addr(said, peer_ip) == said,
{
    reveal_strlit("0.0.0.0:");
    let s = "0.0.0.0:"@ + port;
    assert("0.0.0.0:"@.len() == 8);
    assert(s.take(8) =~= "0.0.0.0:"@);
    assert(s.skip(8) =~= port);
}

/// A keeper that goes away takes from the limit what it brought, so that the
/// limit is what it was before; a limit never falls to nothing by it.
pub proof fn law_grant_is_given_back(limit: u64, grant: u64)
    ensures
        limit > 0 && limit + grant <= u64::MAX ==> limit_without((limit + grant) as u64, Some(grant)) == limit,
        limit > 0 ==> limit_without(limit, Some(grant)) > 0,
        limit_without(limit, None) == limit,
{
}

/// A secret is right just where it is the cluster's, and not empty.
pub proof fn law_secret_must_be_the_clusters(given: Seq<char>, expected: Seq<char>)
    ensures
        right_secret(expected, expected) <==> expected.len() > 0,
        right_secret(given, expected) ==> given == expected && given.len() > 0,
{
}

/// What the core does when a node says that it has handed all keys over.
pub open spec fn completion(was_hot: bool, expected: u64, counted: bool, pending: u64) -> Completion {
    if was_hot {
        if expected == 0 {
            Completion::ReplayAll
        } else {
            Completion::Resynced
        }
    } else if counted && pending == 1 {
        Completion::BecameHot
    } else {
        Completion::Waiting
    }
}

/// A core that warms up becomes hot with the last node that is pending, and
/// with no other; one that was hot already hands all its keys to a node that
/// had none, and nothing to one that had some.
pub proof fn law_completion_answers(w: WarmupState, expected: u64, counted: bool)
    requires
        !w.hot,
        w.pending > 0,
    ensures
        completion(w.hot, expected, true, w.pending) == Completion::BecameHot <==> w.finished().hot,
        completion(w.hot, expected, false, w.pending) == Completion::Waiting,
        completion(true, 0, counted, w.pending) == Completion::ReplayAll,
        expected > 0 ==> completion(true, expected, counted, w.pending) == Completion::Resynced,
{
}

} // verus!
