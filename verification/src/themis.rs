//! Themis: who leads, who starts the cluster, and the log that the nodes of a
//! cluster agree on.

use vstd::prelude::*;

use crate::bytes::copy_bytes;
use crate::num::{decimal_u64, parse_u64};
use crate::proto::CmdId;
use crate::text::{
    decimal, law_decimal_reads_back, lemma_split_behind, lemma_split_none, rsplit_once, split_at_last, u64_text,
};

verus! {

/// The number of a node.
#[derive(Debug, Clone, Copy, PartialEq, Eq, Structural)]
pub struct MnemeNodeId(pub u64);

impl MnemeNodeId {
    /// The number as it is shown.
    pub fn text(self) -> (r: String)
        ensures
            r@ == "node-"@ + decimal(self.0 as nat),
    {
        let mut s = "node-".to_string();
        let n = u64_text(self.0);
        s.append(n.as_str());
        s
    }
}

/// What the nodes agree to do.
#[derive(Debug)]
pub enum MnemeRequest {
    Noop,
    /// A write: the bytes of its frame.
    Write { frame_bytes: Vec<u8> },
}

/// What an agreed request says.
pub enum RequestView {
    Noop,
    Write { frame_bytes: Seq<u8> },
}

impl View for MnemeRequest {
    type V = RequestView;

    open spec fn view(&self) -> RequestView {
        match self {
            MnemeRequest::Noop => RequestView::Noop,
            MnemeRequest::Write { frame_bytes } => RequestView::Write { frame_bytes: frame_bytes@ },
        }
    }
}

impl Clone for MnemeRequest {
    fn clone(&self) -> (r: Self)
        ensures
            r@ == self@,
    {
        match self {
            MnemeRequest::Noop => MnemeRequest::Noop,
            MnemeRequest::Write { frame_bytes } => MnemeRequest::Write { frame_bytes: copy_bytes(frame_bytes) },
        }
    }
}

/// The answer to an agreed request.
#[derive(Debug)]
pub struct MnemeResponse {
    pub value: Option<String>,
}

/// The client address that belongs to a replication address: the port is a
/// thousand lower. There is none without a port of at least a thousand.
pub open spec fn client_addr_of(rep_addr: Seq<char>) -> Option<Seq<char>> {
    match split_at_last(rep_addr, ':') {
        None => None,
        Some((host, port)) => match decimal_u64(vstd::utf8::encode_utf8(port)) {
            None => None,
            Some(p) => if 1000 <= p <= u16::MAX {
                Some(host + ":"@ + decimal((p - 1000) as nat))
            } else {
                None
            },
        },
    }
}

/// The client address of a node has the same host and a port that is a thousand
/// lower. There is none where the port is below that, or no port is given.
pub proof fn law_client_port_is_lower(host: Seq<char>, port: nat, other: Seq<char>)
    requires
        port <= u16::MAX,
        !other.contains(':'),
    ensures
        port >= 1000 ==> client_addr_of(host + ":"@ + decimal(port)) == Some(host + ":"@ + decimal((port - 1000) as nat)),
        port < 1000 ==> client_addr_of(host + ":"@ + decimal(port)) is None,
        client_addr_of(other) is None,
{
    reveal_strlit(":");
    law_decimal_reads_back(port);
    lemma_split_behind(host, ':', decimal(port));
    assert(host + ":"@ + decimal(port) =~= host.push(':') + decimal(port));
    assert forall|j: int| 0 <= j < other.len() implies other[j] != ':' by {
        assert(other.contains(other[j]));
    }
    lemma_split_none(other, ':');
}

/// Clients of a node that leads, or that knows of no leader, are sent nowhere;
/// the others are sent to the leader's client address.
pub proof fn law_clients_are_sent_to_the_leader(leader: u64, node_id: u64, addr: Seq<char>)
    ensures
        redirect_of(None, node_id, Some(addr)) is None,
        redirect_of(Some(node_id), node_id, Some(addr)) is None,
        leader != node_id ==> redirect_of(Some(leader), node_id, Some(addr)) == client_addr_of(addr),
        redirect_of(Some(leader), node_id, None) is None,
{
}

/// The client address that belongs to a replication address.
pub fn rep_addr_to_client_addr(rep_addr: &str) -> (r: Option<String>)
    ensures
        match client_addr_of(rep_addr@) {
            Some(a) => r matches Some(x) && x@ == a,
            None => r is None,
        },
{
    let (host, port) = match rsplit_once(rep_addr, ':') {
        None => {
            return None;
        },
        Some(x) => x,
    };
    let p: u64 = match parse_u64(port.as_bytes()) {
        None => {
            return None;
        },
        Some(p) => p,
    };
    if p > 65535 || p < 1000 {
        return None;
    }
    let mut s = host.to_string();
    s.append(":");
    let n = u64_text(p - 1000);
    s.append(n.as_str());
    Some(s)
}

/// Whether a node leads, given the leader that is known.
pub fn is_leader(current_leader: Option<u64>, node_id: u64) -> (r: bool)
    ensures
        r == (current_leader == Some(node_id)),
{
    match current_leader {
        Some(l) => l == node_id,
        None => false,
    }
}

/// Where clients are sent that reached a node that does not lead: the client
/// address of the leader, as far as the leader and its replication address are
/// known. A node that leads sends nobody away.
pub open spec fn redirect_of(current_leader: Option<u64>, node_id: u64, leader_addr: Option<Seq<char>>) -> Option<Seq<char>> {
    if current_leader is None || current_leader == Some(node_id) {
        None
    } else {
        match leader_addr {
            None => None,
            Some(a) => client_addr_of(a),
        }
    }
}

/// Where clients are sent that reached a node that does not lead.
pub fn leader_client_addr(current_leader: Option<u64>, node_id: u64, leader_addr: Option<&str>) -> (r: Option<String>)
    ensures
        match redirect_of(
            current_leader,
            node_id,
            match leader_addr {
                Some(a) => Some(a@),
                None => None,
            },
        ) {
            Some(a) => r matches Some(x) && x@ == a,
            None => r is None,
        },
{
    match current_leader {
        None => None,
        Some(l) => if l == node_id {
            None
        } else {
            match leader_addr {
                None => None,
                Some(a) => rep_addr_to_client_addr(a),
            }
        },
    }
}

/// The numbers of `n` peers: those from 1 to `n + 1` without the node's own;
/// from 1 to `n` if its own is not among them.
pub open spec fn peer_ids_of(my_id: u64, n: nat) -> Seq<u64> {
    if 1 <= my_id <= n + 1 {
        Seq::new(
            n,
            |i: int|
                if i + 1 < my_id {
                    (i + 1) as u64
                } else {
                    (i + 2) as u64
                },
        )
    } else {
        Seq::new(n, |i: int| (i + 1) as u64)
    }
}

/// The numbers of `n` peers.
pub fn peer_ids(my_id: u64, n: usize) -> (r: Vec<u64>)
    requires
        n < u64::MAX - 1,
    ensures
        r@ == peer_ids_of(my_id, n as nat),
{
    let inside = 1 <= my_id && my_id <= n as u64 + 1;
    let mut out: Vec<u64> = Vec::new();
    let mut i: usize = 0;
    while i < n
        invariant
            i <= n,
            n < u64::MAX - 1,
            inside == (1 <= my_id <= n + 1),
            out@.len() == i,
            forall|j: int| 0 <= j < i ==> out@[j] == peer_ids_of(my_id, n as nat)[j],
        decreases n - i,
    {
        let id: u64 = if inside && i as u64 + 1 >= my_id {
            i as u64 + 2
        } else {
            i as u64 + 1
        };
        out.push(id);
        i = i + 1;
    }
    assert(out@ =~= peer_ids_of(my_id, n as nat));
    out
}

/// No two peers share a number, and none has the node's own where that is one
/// of the cluster's.
pub proof fn law_peer_ids_distinct(my_id: u64, n: nat)
    requires
        n < u64::MAX - 1,
    ensures
        peer_ids_of(my_id, n).no_duplicates(),
        1 <= my_id <= n + 1 ==> !peer_ids_of(my_id, n).contains(my_id),
{
}

/// Whether a node starts the cluster: the one with the lowest number does, and
/// one on its own does.
pub fn bootstraps(node_id: u64, peers: &[u64]) -> (r: bool)
    ensures
        r == forall|i: int| 0 <= i < peers@.len() ==> node_id <= #[trigger] peers@[i],
        r == starts(node_id, peers@),
{
    let mut i: usize = 0;
    while i < peers.len()
        invariant
            i <= peers@.len(),
            forall|j: int| 0 <= j < i ==> node_id <= #[trigger] peers@[j],
        decreases peers@.len() - i,
    {
        if peers[i] < node_id {
            assert(!(node_id <= peers@[i as int]));
            return false;
        }
        i = i + 1;
    }
    true
}

/// A log of entries by index, in ascending order.
#[derive(Debug)]
pub struct MemLog<T> {
    entries: Vec<(u64, T)>,
}

impl<T> MemLog<T> {
    /// The entries by index.
    pub closed spec fn map(&self) -> Map<u64, T> {
        Map::new(|i: u64| has(self.entries@, i), |i: u64| self.entries@[place(self.entries@, i)].1)
    }

    pub closed spec fn wf(&self) -> bool {
        forall|i: int, j: int| 0 <= i < j < self.entries@.len() ==> (#[trigger] self.entries@[i]).0 < (#[trigger] self.entries@[j]).0
    }

    pub fn new() -> (r: MemLog<T>)
        ensures
            r.wf(),
            r.map() == Map::<u64, T>::empty(),
    {
        let r = MemLog { entries: Vec::new() };
        assert(r.map() =~= Map::empty());
        r
    }

    /// The first place whose index is not below `index`.
    fn lower(&self, index: u64) -> (r: usize)
        requires
            self.wf(),
        ensures
            r <= self.entries@.len(),
            forall|i: int| 0 <= i < r ==> (#[trigger] self.entries@[i]).0 < index,
            forall|i: int| r <= i < self.entries@.len() ==> (#[trigger] self.entries@[i]).0 >= index,
    {
        let mut i: usize = 0;
        while i < self.entries.len() && self.entries[i].0 < index
            invariant
                i <= self.entries@.len(),
                forall|j: int| 0 <= j < i ==> (#[trigger] self.entries@[j]).0 < index,
            decreases self.entries@.len() - i,
        {
            i = i + 1;
        }
        proof {
            if i < self.entries@.len() {
                assert forall|j: int| i <= j < self.entries@.len() implies (#[trigger] self.entries@[j]).0 >= index by {
                    if j > i {
                        assert(self.entries@[i as int].0 < self.entries@[j].0);
                    }
                }
            }
        }
        i
    }

    /// Puts an entry at its index, in place of one that is there.
    pub fn append(&mut self, index: u64, entry: T)
        requires
            old(self).wf(),
        ensures
            final(self).wf(),
            final(self).map() == old(self).map().insert(index, entry),
    {
        let at: usize = self.lower(index);
        let ghost before = *self;
        if at < self.entries.len() && self.entries[at].0 == index {
            self.entries.set(at, (index, entry));
        } else {
            self.entries.insert(at, (index, entry));
        }
        proof {
            lemma_appended(before, *self, at as int, index, entry);
        }
    }

    /// Drops the entries from `index` on.
    pub fn delete_conflict_since(&mut self, index: u64)
        requires
            old(self).wf(),
        ensures
            final(self).wf(),
            final(self).map() == old(self).map().restrict(Set::new(|i: u64| i < index)),
            final(self).map() == kept_below(old(self).map(), index),
    {
        let at: usize = self.lower(index);
        let ghost before = *self;
        self.entries.truncate(at);
        proof {
            assert(self.entries@ =~= before.entries@.take(at as int));
            lemma_cut(before, *self, 0, at as int);
            assert(self.map() =~= before.map().restrict(Set::new(|i: u64| i < index))) by {
                lemma_keys(before);
                lemma_keys(*self);
            }
        }
    }

    /// Drops the entries up to `index` and `index` itself.
    pub fn purge_upto(&mut self, index: u64)
        requires
            old(self).wf(),
        ensures
            final(self).wf(),
            final(self).map() == old(self).map().restrict(Set::new(|i: u64| i > index)),
            final(self).map() == kept_above(old(self).map(), index),
    {
        let mut at: usize = self.lower(index);
        let ghost before = *self;
        if at < self.entries.len() && self.entries[at].0 == index {
            at = at + 1;
        }
        proof {
            assert forall|j: int| at <= j < self.entries@.len() implies (#[trigger] self.entries@[j]).0 > index by {
                if at > 0 {
                    assert(self.entries@[at - 1].0 < self.entries@[j].0);
                }
            }
        }
        let kept = self.entries.split_off(at);
        self.entries = kept;
        proof {
            assert(self.entries@ =~= before.entries@.skip(at as int));
            lemma_cut(before, *self, at as int, before.entries@.len() as int);
            assert(self.map() =~= before.map().restrict(Set::new(|i: u64| i > index))) by {
                lemma_keys(before);
                lemma_keys(*self);
            }
        }
    }

    /// The index of the last entry.
    pub fn last_index(&self) -> (r: Option<u64>)
        requires
            self.wf(),
        ensures
            match r {
                Some(i) => self.map().contains_key(i) && forall|j: u64| #[trigger] self.map().contains_key(j) ==> j <= i,
                None => self.map() == Map::<u64, T>::empty(),
            },
    {
        let n: usize = self.entries.len();
        proof {
            lemma_keys(*self);
        }
        if n == 0 {
            assert(self.map() =~= Map::empty());
            return None;
        }
        let ghost last = self.entries@[n - 1].0;
        proof {
            assert(at_place(self.entries@, last, n - 1));
            assert forall|j: u64| #[trigger] self.map().contains_key(j) implies j <= last by {
                let k = place(self.entries@, j);
                assert(at_place(self.entries@, j, k));
                if k < n - 1 {
                    assert(self.entries@[k].0 < self.entries@[n - 1].0);
                }
            }
        }
        Some(self.entries[n - 1].0)
    }

    /// The entry at an index.
    pub fn get(&self, index: u64) -> (r: Option<&T>)
        requires
            self.wf(),
        ensures
            match r {
                Some(e) => self.map().contains_key(index) && *e == self.map()[index],
                None => !self.map().contains_key(index),
            },
    {
        let at: usize = self.lower(index);
        if at < self.entries.len() && self.entries[at].0 == index {
            proof {
                assert(at_place(self.entries@, index, at as int));
                lemma_place(self.entries@, index, at as int);
            }
            Some(&self.entries[at].1)
        } else {
            proof {
                if has(self.entries@, index) {
                    let k = place(self.entries@, index);
                    assert(at_place(self.entries@, index, k));
                    if k < at {
                        assert(self.entries@[k].0 < index);
                    } else if k > at {
                        assert(self.entries@[at as int].0 < self.entries@[k].0);
                    }
                }
            }
            None
        }
    }

    /// The indices from `from` on and below `upto`, in ascending order.
    pub fn range(&self, from: u64, upto: u64) -> (r: Vec<u64>)
        requires
            self.wf(),
        ensures
            forall|i: int, j: int| 0 <= i < j < r@.len() ==> r@[i] < r@[j],
            forall|x: u64| #[trigger] r@.contains(x) <==> self.map().contains_key(x) && from <= x < upto,
    {
        let mut out: Vec<u64> = Vec::new();
        let start: usize = self.lower(from);
        let mut i: usize = start;
        proof {
            lemma_keys(*self);
        }
        while i < self.entries.len() && self.entries[i].0 < upto
            invariant
                start <= i <= self.entries@.len(),
                self.wf(),
                out@.len() == i - start,
                forall|j: int| 0 <= j < out@.len() ==> #[trigger] out@[j] == self.entries@[start + j].0,
                forall|j: int| start <= j < i ==> (#[trigger] self.entries@[j]).0 < upto,
            decreases self.entries@.len() - i,
        {
            out.push(self.entries[i].0);
            i = i + 1;
        }
        proof {
            assert forall|x: u64| #[trigger] out@.contains(x) <==> self.map().contains_key(x) && from <= x < upto by {
                if out@.contains(x) {
                    let j = choose|j: int| 0 <= j < out@.len() && out@[j] == x;
                    assert(at_place(self.entries@, x, start + j));
                    assert(self.entries@[start + j].0 >= from);
                }
                if self.map().contains_key(x) && from <= x < upto {
                    let k = place(self.entries@, x);
                    assert(at_place(self.entries@, x, k));
                    if k < start {
                        assert(self.entries@[k].0 < from);
                    }
                    if k >= i {
                        if k > i {
                            assert(self.entries@[i as int].0 < self.entries@[k].0);
                        }
                    }
                    assert(out@[k - start] == x);
                }
            }
        }
        out
    }
}

/// An index stands at a place.
spec fn at_place<T>(s: Seq<(u64, T)>, index: u64, k: int) -> bool {
    0 <= k < s.len() && s[k].0 == index
}

/// An index is there.
spec fn has<T>(s: Seq<(u64, T)>, index: u64) -> bool {
    exists|k: int| at_place(s, index, k)
}

/// Where an index stands.
spec fn place<T>(s: Seq<(u64, T)>, index: u64) -> int {
    choose|k: int| at_place(s, index, k)
}

proof fn lemma_place<T>(s: Seq<(u64, T)>, index: u64, k: int)
    requires
        forall|i: int, j: int| 0 <= i < j < s.len() ==> (#[trigger] s[i]).0 < (#[trigger] s[j]).0,
        at_place(s, index, k),
    ensures
        has(s, index),
        place(s, index) == k,
{
    let q = place(s, index);
    assert(at_place(s, index, q));
    if q < k {
        assert(s[q].0 < s[k].0);
    } else if k < q {
        assert(s[k].0 < s[q].0);
    }
}

proof fn lemma_keys<T>(l: MemLog<T>)
    ensures
        forall|i: u64| #[trigger] l.map().contains_key(i) <==> has(l.entries@, i),
{
}

proof fn lemma_cut<T>(before: MemLog<T>, after: MemLog<T>, from: int, upto: int)
    requires
        before.wf(),
        0 <= from <= upto <= before.entries@.len(),
        after.entries@ == before.entries@.subrange(from, upto),
    ensures
        after.wf(),
        forall|i: u64| #[trigger] has(after.entries@, i) <==> has(before.entries@, i) && from <= place(before.entries@, i) < upto,
        forall|i: u64| #[trigger] has(after.entries@, i) ==> after.map()[i] == before.map()[i],
{
    let a = after.entries@;
    let b = before.entries@;
    assert forall|i: int, j: int| 0 <= i < j < a.len() implies (#[trigger] a[i]).0 < (#[trigger] a[j]).0 by {
        assert(b[from + i].0 < b[from + j].0);
    }
    assert forall|i: u64| #[trigger] has(a, i) <==> has(b, i) && from <= place(b, i) < upto by {
        if has(a, i) {
            let k = place(a, i);
            assert(at_place(a, i, k));
            assert(at_place(b, i, from + k));
            lemma_place(b, i, from + k);
        }
        if has(b, i) && from <= place(b, i) < upto {
            assert(at_place(b, i, place(b, i)));
            assert(at_place(a, i, place(b, i) - from));
        }
    }
    assert forall|i: u64| #[trigger] has(a, i) implies after.map()[i] == before.map()[i] by {
        let k = place(a, i);
        assert(at_place(a, i, k));
        assert(at_place(b, i, from + k));
        lemma_place(b, i, from + k);
        lemma_place(a, i, k);
    }
}

proof fn lemma_appended<T>(before: MemLog<T>, after: MemLog<T>, at: int, index: u64, entry: T)
    requires
        before.wf(),
        0 <= at <= before.entries@.len(),
        forall|i: int| 0 <= i < at ==> (#[trigger] before.entries@[i]).0 < index,
        forall|i: int| at <= i < before.entries@.len() ==> (#[trigger] before.entries@[i]).0 >= index,
        after.entries@ == (if at < before.entries@.len() && before.entries@[at].0 == index {
            before.entries@.update(at, (index, entry))
        } else {
            before.entries@.insert(at, (index, entry))
        }),
    ensures
        after.wf(),
        after.map() == before.map().insert(index, entry),
{
    let a = after.entries@;
    let b = before.entries@;
    let replaced = at < b.len() && b[at].0 == index;
    let shift: int = if replaced {
        0
    } else {
        1
    };
    assert forall|i: int, j: int| 0 <= i < j < a.len() implies (#[trigger] a[i]).0 < (#[trigger] a[j]).0 by {
        if i < at && j > at {
            assert(b[i].0 < b[j - shift].0);
        } else if i < at && j < at {
            assert(b[i].0 < b[j].0);
        } else if i > at {
            assert(b[i - shift].0 < b[j - shift].0);
        } else if i == at {
            if replaced {
                assert(b[at].0 < b[j].0);
            } else if at < b.len() {
                if j - 1 > at {
                    assert(b[at].0 < b[j - 1].0);
                }
            }
        }
    }
    let target = before.map().insert(index, entry);
    assert(at_place(a, index, at));
    lemma_place(a, index, at);
    assert forall|k: u64|
        #![trigger after.map().dom().contains(k)]
        #![trigger after.map()[k]]
        after.map().dom().contains(k) == target.dom().contains(k) && (target.dom().contains(k) ==> after.map()[k]
            == target[k]) by {
        if k != index {
            if has(a, k) {
                let p = place(a, k);
                assert(at_place(a, k, p));
                let q = if p < at {
                    p
                } else {
                    p - shift
                };
                assert(at_place(b, k, q));
                lemma_place(b, k, q);
            }
            if has(b, k) {
                let q = place(b, k);
                assert(at_place(b, k, q));
                let p = if q < at {
                    q
                } else {
                    q + shift
                };
                assert(at_place(a, k, p));
                lemma_place(a, k, p);
            }
        }
    }
    assert(after.map() =~= target);
}

/// What came of a call from another core.
#[derive(Debug)]
pub enum RaftOutcome {
    /// The call could not be read.
    Unread(String),
    Failed(String),
    Answered(Vec<u8>),
}

/// The name of a call between cores.
pub open spec fn raft_call(cmd: CmdId) -> Option<Seq<char>> {
    match cmd {
        CmdId::RaftAppendEntries => Some("append_entries: "@),
        CmdId::RaftVote => Some("vote: "@),
        CmdId::RaftInstallSnapshot => Some("install_snapshot: "@),
        _ => None,
    }
}

/// The answer to a call from another core, or the text of the error.
pub fn raft_answer(cmd: CmdId, outcome: RaftOutcome) -> (r: Result<Vec<u8>, String>)
    ensures
        match raft_call(cmd) {
            None => r matches Err(t) && t@ == "unexpected cmd_id in Raft peer conn"@,
            Some(call) => match outcome {
                RaftOutcome::Answered(b) => r matches Ok(x) && x@ == b@,
                RaftOutcome::Failed(e) => r matches Err(t) && t@ == call + e@,
                RaftOutcome::Unread(e) => r matches Err(t) && t@ == "decode: "@ + e@,
            },
        },
{
    let call = match cmd {
        CmdId::RaftAppendEntries => "append_entries: ",
        CmdId::RaftVote => "vote: ",
        CmdId::RaftInstallSnapshot => "install_snapshot: ",
        _ => {
            return Err("unexpected cmd_id in Raft peer conn".to_string());
        },
    };
    match outcome {
        RaftOutcome::Answered(b) => Ok(b),
        RaftOutcome::Failed(e) => {
            let mut s = call.to_string();
            s.append(e.as_str());
            Err(s)
        },
        RaftOutcome::Unread(e) => {
            let mut s = "decode: ".to_string();
            s.append(e.as_str());
            Err(s)
        },
    }
}

/// A node starts the cluster: no peer has a lower number.
pub open spec fn starts(node_id: u64, peers: Seq<u64>) -> bool {
    forall|i: int| 0 <= i < peers.len() ==> node_id <= #[trigger] peers[i]
}

/// A node on its own starts its cluster. Of two nodes that know each other only
/// one does, the one with the lower number if any.
pub proof fn law_one_node_starts(a: u64, a_peers: Seq<u64>, b: u64, b_peers: Seq<u64>)
    ensures
        starts(a, Seq::empty()),
        a_peers.contains(b) && b < a ==> !starts(a, a_peers),
        a_peers.contains(b) && b_peers.contains(a) && starts(a, a_peers) && starts(b, b_peers) ==> a == b,
{
    if a_peers.contains(b) {
        let i = choose|i: int| 0 <= i < a_peers.len() && a_peers[i] == b;
        assert(a_peers[i] == b);
    }
    if b_peers.contains(a) {
        let i = choose|i: int| 0 <= i < b_peers.len() && b_peers[i] == a;
        assert(b_peers[i] == a);
    }
}

/// The entries of a log below an index.
pub open spec fn kept_below<T>(m: Map<u64, T>, index: u64) -> Map<u64, T> {
    m.restrict(Set::new(|i: u64| i < index))
}

/// The entries of a log above an index.
pub open spec fn kept_above<T>(m: Map<u64, T>, index: u64) -> Map<u64, T> {
    m.restrict(Set::new(|i: u64| i > index))
}

/// Dropping from an index on takes the entry at it and all behind; purging up
/// to it takes the entry and all before. What is left is what it was, and both
/// leave nothing.
pub proof fn law_log_is_cut<T>(m: Map<u64, T>, index: u64, i: u64)
    ensures
        kept_below(m, index).contains_key(i) <==> m.contains_key(i) && i < index,
        kept_above(m, index).contains_key(i) <==> m.contains_key(i) && i > index,
        kept_below(m, index).contains_key(i) ==> kept_below(m, index)[i] == m[i],
        kept_above(m, index).contains_key(i) ==> kept_above(m, index)[i] == m[i],
        kept_above(kept_below(m, index), index) == Map::<u64, T>::empty(),
{
    assert(kept_above(kept_below(m, index), index) =~= Map::<u64, T>::empty());
}

} // verus!
