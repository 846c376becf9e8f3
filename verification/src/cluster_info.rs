//! What a node tells about itself and its cluster.

use vstd::prelude::*;

use crate::settings::{NodeRole, Settings, SettingsView};
use crate::text::{decimal, hex, hex_text, u64_text};

verus! {

/// What the consensus says at the moment.
#[derive(Debug)]
pub struct RaftFacts {
    pub term: u64,
    pub is_leader: bool,
    pub leader: Option<u64>,
}

/// Figures of a node.
#[derive(Debug, Clone, Copy, PartialEq, Eq, Structural)]
pub struct Figures {
    pub keepers: u64,
    pub used: u64,
    pub limit: u64,
    pub keys: u64,
    pub hot: bool,
    pub pending: u64,
}

/// The warm-up in words.
pub open spec fn warmup_text(hot: bool, pending: u64) -> Seq<char> {
    if hot {
        "hot"@
    } else if pending > 0 {
        "warming ("@ + decimal(pending as nat) + " keepers pending)"@
    } else {
        "cold"@
    }
}

fn warmup_word(hot: bool, pending: u64) -> (r: String)
    ensures
        r@ == warmup_text(hot, pending),
{
    if hot {
        "hot".to_string()
    } else if pending > 0 {
        let mut s = "warming (".to_string();
        let n = u64_text(pending);
        s.append(n.as_str());
        s.append(" keepers pending)");
        s
    } else {
        "cold".to_string()
    }
}

/// The consistency levels that a node serves now.
pub open spec fn modes_text(role: NodeRole, f: Figures) -> Seq<char> {
    if f.keepers == 0 || role == NodeRole::ReadReplica {
        "EVENTUAL"@
    } else if !f.hot {
        "EVENTUAL, ONE  (QUORUM/ALL blocked — "@ + warmup_text(f.hot, f.pending) + ")"@
    } else if f.keepers == 1 {
        "EVENTUAL, ONE, QUORUM"@
    } else {
        "EVENTUAL, ONE, QUORUM, ALL"@
    }
}

fn modes_words(role: NodeRole, f: &Figures) -> (r: String)
    ensures
        r@ == modes_text(role, *f),
{
    if f.keepers == 0 || role == NodeRole::ReadReplica {
        "EVENTUAL".to_string()
    } else if !f.hot {
        let w = warmup_word(f.hot, f.pending);
        let mut s = "EVENTUAL, ONE  (QUORUM/ALL blocked — ".to_string();
        s.append(w.as_str());
        s.append(")");
        s
    } else if f.keepers == 1 {
        "EVENTUAL, ONE, QUORUM".to_string()
    } else {
        "EVENTUAL, ONE, QUORUM, ALL".to_string()
    }
}

/// The number of the leader in sixteen hexadecimal digits.
pub open spec fn leader_text(leader: Option<u64>) -> Seq<char> {
    match leader {
        Some(id) => hex(id as nat, 16),
        None => "(unknown)"@,
    }
}

pub open spec fn bool_text(b: bool) -> Seq<char> {
    if b {
        "true"@
    } else {
        "false"@
    }
}

/// What a list of names and values says.
pub open spec fn info_views(s: Seq<(String, String)>) -> Seq<(Seq<char>, Seq<char>)> {
    s.map_values(|p: (String, String)| (p.0@, p.1@))
}

/// What a node tells about itself and its cluster, in order. `pressure` is the
/// share of the pool in use, in words.
pub open spec fn info_of(s: SettingsView, f: Figures, raft: RaftFacts, pressure: Seq<char>) -> Seq<(Seq<char>, Seq<char>)> {
    seq![
        ("state"@, "ok"@),
        ("role"@, s.role.text()),
        ("node_id"@, s.node_id),
        ("keeper_count"@, decimal(f.keepers as nat)),
        ("pool_used_bytes"@, decimal(f.used as nat)),
        ("pool_max_bytes"@, decimal(f.limit as nat)),
        ("memory_pressure"@, pressure),
        ("total_keys"@, decimal(f.keys as nat)),
        ("client_port"@, decimal(s.port as nat)),
        ("repl_port"@, decimal(s.rep_port as nat)),
        ("warmup_state"@, warmup_text(f.hot, f.pending)),
        ("supported_modes"@, modes_text(s.role, f)),
        ("raft_term"@, decimal(raft.term as nat)),
        ("is_leader"@, bool_text(raft.is_leader)),
        ("leader_id"@, leader_text(raft.leader)),
    ]
}

fn pair(name: &str, value: String) -> (r: (String, String))
    ensures
        r.0@ == name@,
        r.1@ == value@,
{
    (name.to_string(), value)
}

/// What a node tells about itself and its cluster.
pub fn cluster_info(s: &Settings, f: &Figures, raft: &RaftFacts, pressure: &str) -> (r: Vec<(String, String)>)
    ensures
        info_views(r@) == info_of(s@, *f, *raft, pressure@),
{
    let leader = match raft.leader {
        Some(id) => hex_text(id, 16),
        None => "(unknown)".to_string(),
    };
    let leads = if raft.is_leader {
        "true".to_string()
    } else {
        "false".to_string()
    };
    let mut out: Vec<(String, String)> = Vec::new();
    out.push(pair("state", "ok".to_string()));
    out.push(pair("role", s.role.name().to_string()));
    out.push(pair("node_id", s.node_id.clone()));
    out.push(pair("keeper_count", u64_text(f.keepers)));
    out.push(pair("pool_used_bytes", u64_text(f.used)));
    out.push(pair("pool_max_bytes", u64_text(f.limit)));
    out.push(pair("memory_pressure", pressure.to_string()));
    out.push(pair("total_keys", u64_text(f.keys)));
    out.push(pair("client_port", u64_text(s.port as u64)));
    out.push(pair("repl_port", u64_text(s.rep_port as u64)));
    out.push(pair("warmup_state", warmup_word(f.hot, f.pending)));
    out.push(pair("supported_modes", modes_words(s.role, f)));
    out.push(pair("raft_term", u64_text(raft.term)));
    out.push(pair("is_leader", leads));
    out.push(pair("leader_id", leader));
    assert(info_views(out@) =~= info_of(s@, *f, *raft, pressure@));
    out
}

/// The statistics of a node in one line. `ratio` is the share of the pool in
/// use, in words.
pub open spec fn stats_of(f: Figures, ratio: Seq<char>) -> Seq<char> {
    "keys="@ + decimal(f.keys as nat) + " pool_used="@ + decimal(f.used as nat) + " pool_max="@ + decimal(f.limit as nat)
        + " keepers="@ + decimal(f.keepers as nat) + " pool_ratio="@ + ratio
}

/// The statistics of a node in one line.
pub fn stats_line(f: &Figures, ratio: &str) -> (r: String)
    ensures
        r@ == stats_of(*f, ratio@),
{
    let keys = u64_text(f.keys);
    let used = u64_text(f.used);
    let limit = u64_text(f.limit);
    let keepers = u64_text(f.keepers);
    let mut s = "keys=".to_string();
    s.append(keys.as_str());
    s.append(" pool_used=");
    s.append(used.as_str());
    s.append(" pool_max=");
    s.append(limit.as_str());
    s.append(" keepers=");
    s.append(keepers.as_str());
    s.append(" pool_ratio=");
    s.append(ratio);
    s
}

/// Without keepers, and on a replica, a node serves only what needs no
/// confirmation; while it warms up, one confirmation besides; with one keeper a
/// majority too, and with more everything.
pub proof fn law_modes_served(role: NodeRole, f: Figures)
    ensures
        f.keepers == 0 || role == NodeRole::ReadReplica ==> modes_text(role, f) == "EVENTUAL"@,
        f.keepers > 0 && role != NodeRole::ReadReplica && f.hot ==> modes_text(role, f) == if f.keepers == 1 {
            "EVENTUAL, ONE, QUORUM"@
        } else {
            "EVENTUAL, ONE, QUORUM, ALL"@
        },
        f.keepers > 0 && role != NodeRole::ReadReplica && !f.hot ==> exists|why: Seq<char>|
            modes_text(role, f) == #[trigger] ("EVENTUAL, ONE  (QUORUM/ALL blocked — "@ + why),
        f.hot ==> warmup_text(f.hot, f.pending) == "hot"@,
        !f.hot && f.pending == 0 ==> warmup_text(f.hot, f.pending) == "cold"@,
        !f.hot && f.pending > 0 ==> warmup_text(f.hot, f.pending) == "warming ("@ + decimal(f.pending as nat)
            + " keepers pending)"@,
{
    if f.keepers > 0 && role != NodeRole::ReadReplica && !f.hot {
        let why = warmup_text(f.hot, f.pending) + ")"@;
        assert(modes_text(role, f) =~= "EVENTUAL, ONE  (QUORUM/ALL blocked — "@ + why);
    }
}

/// What a node tells of itself stands under its name.
pub proof fn law_info_tells(s: SettingsView, f: Figures, raft: RaftFacts, pressure: Seq<char>)
    ensures
        ({
            let i = info_of(s, f, raft, pressure);
            &&& i.contains(("role"@, s.role.text()))
            &&& i.contains(("node_id"@, s.node_id))
            &&& i.contains(("keeper_count"@, decimal(f.keepers as nat)))
            &&& i.contains(("pool_used_bytes"@, decimal(f.used as nat)))
            &&& i.contains(("pool_max_bytes"@, decimal(f.limit as nat)))
            &&& i.contains(("memory_pressure"@, pressure))
            &&& i.contains(("total_keys"@, decimal(f.keys as nat)))
            &&& i.contains(("client_port"@, decimal(s.port as nat)))
            &&& i.contains(("repl_port"@, decimal(s.rep_port as nat)))
            &&& i.contains(("warmup_state"@, warmup_text(f.hot, f.pending)))
            &&& i.contains(("supported_modes"@, modes_text(s.role, f)))
            &&& i.contains(("raft_term"@, decimal(raft.term as nat)))
            &&& i.contains(("is_leader"@, if raft.is_leader { "true"@ } else { "false"@ }))
            &&& i.contains(("leader_id"@, match raft.leader {
                Some(id) => hex(id as nat, 16),
                None => "(unknown)"@,
            }))
            &&& i.len() == 15
        }),
{
    let i = info_of(s, f, raft, pressure);
    assert(i[1] == ("role"@, s.role.text()));
    assert(i[2] == ("node_id"@, s.node_id));
    assert(i[3] == ("keeper_count"@, decimal(f.keepers as nat)));
    assert(i[4] == ("pool_used_bytes"@, decimal(f.used as nat)));
    assert(i[5] == ("pool_max_bytes"@, decimal(f.limit as nat)));
    assert(i[6] == ("memory_pressure"@, pressure));
    assert(i[7] == ("total_keys"@, decimal(f.keys as nat)));
    assert(i[8] == ("client_port"@, decimal(s.port as nat)));
    assert(i[9] == ("repl_port"@, decimal(s.rep_port as nat)));
    assert(i[10] == ("warmup_state"@, warmup_text(f.hot, f.pending)));
    assert(i[11] == ("supported_modes"@, modes_text(s.role, f)));
    assert(i[12] == ("raft_term"@, decimal(raft.term as nat)));
    assert(i[13] == ("is_leader"@, bool_text(raft.is_leader)));
    assert(i[14] == ("leader_id"@, leader_text(raft.leader)));
}

} // verus!
