//! Moirai decides how many keepers have to confirm a write, and when a write
//! has been confirmed. It also keeps the list of keepers.

use vstd::prelude::*;

use crate::proto::ConsistencyLevel;
use crate::text::{decimal, u64_text};

verus! {

/// What is known about a keeper.
#[derive(Debug)]
pub struct KeeperInfo {
    pub node_id: u64,
    /// The name from the keeper's configuration.
    pub node_name: String,
    pub addr: String,
    pub pool_bytes: u64,
    pub used_bytes: u64,
}

/// What is known about a keeper.
pub struct KeeperView {
    pub node_id: u64,
    pub node_name: Seq<char>,
    pub addr: Seq<char>,
    pub pool_bytes: u64,
    pub used_bytes: u64,
}

impl View for KeeperInfo {
    type V = KeeperView;

    open spec fn view(&self) -> KeeperView {
        KeeperView {
            node_id: self.node_id,
            node_name: self.node_name@,
            addr: self.addr@,
            pool_bytes: self.pool_bytes,
            used_bytes: self.used_bytes,
        }
    }
}

impl Clone for KeeperInfo {
    fn clone(&self) -> (r: Self)
        ensures
            r@ == self@,
    {
        KeeperInfo {
            node_id: self.node_id,
            node_name: self.node_name.clone(),
            addr: self.addr.clone(),
            pool_bytes: self.pool_bytes,
            used_bytes: self.used_bytes,
        }
    }
}

/// What is known about the keepers of a list.
pub open spec fn keeper_views(s: Seq<KeeperInfo>) -> Seq<KeeperView> {
    s.map_values(|k: KeeperInfo| k@)
}

/// A keeper of that number is listed.
pub open spec fn listed(s: Seq<KeeperView>, node_id: u64) -> bool {
    exists|i: int| 0 <= i < s.len() && (#[trigger] s[i]).node_id == node_id
}

/// The keepers with one more; one that is listed stays as it is.
pub open spec fn with_keeper(s: Seq<KeeperView>, k: KeeperView) -> Seq<KeeperView> {
    if listed(s, k.node_id) {
        s
    } else {
        s.push(k)
    }
}

/// The connections with one more, if it is new.
pub open spec fn with_handle(h: Seq<u64>, node_id: u64) -> Seq<u64> {
    if h.contains(node_id) {
        h
    } else {
        h.push(node_id)
    }
}

/// The list without the keepers of that number.
pub open spec fn without_keeper(s: Seq<KeeperView>, node_id: u64) -> Seq<KeeperView> {
    s.filter(|k: KeeperView| k.node_id != node_id)
}

/// More than half of `n`.
pub open spec fn majority(n: int) -> int {
    n / 2 + 1
}

/// More than half of `n`.
pub fn quorum(n: usize) -> (r: usize)
    ensures
        r == majority(n as int),
{
    n / 2 + 1
}

/// Any two majorities of the same keepers share a keeper.
pub proof fn law_majorities_meet(all: Set<u64>, a: Set<u64>, b: Set<u64>)
    requires
        all.finite(),
        a.subset_of(all),
        b.subset_of(all),
        a.len() >= majority(all.len() as int),
        b.len() >= majority(all.len() as int),
    ensures
        exists|k: u64| a.contains(k) && b.contains(k),
{
    vstd::set_lib::lemma_len_subset(a, all);
    vstd::set_lib::lemma_len_subset(b, all);
    if a.disjoint(b) {
        vstd::set_lib::lemma_set_disjoint_lens(a, b);
        assert((a + b).subset_of(all));
        vstd::set_lib::lemma_len_subset(a + b, all);
        assert(false);
    }
    assert(exists|k: u64| a.contains(k) && b.contains(k));
}

/// How many of `n` keepers have to confirm a write of a level.
pub open spec fn needed(level: ConsistencyLevel, n: int) -> int {
    match level {
        ConsistencyLevel::Eventual => 0,
        ConsistencyLevel::One => if n < 1 {
            n
        } else {
            1
        },
        ConsistencyLevel::Quorum => majority(n),
        ConsistencyLevel::All => n,
    }
}

/// The level that applies: a node on its own treats quorum and all as
/// eventual.
pub open spec fn applied_level(solo: bool, level: ConsistencyLevel) -> ConsistencyLevel {
    if solo && (level == ConsistencyLevel::Quorum || level == ConsistencyLevel::All) {
        ConsistencyLevel::Eventual
    } else {
        level
    }
}

/// A write that was confirmed.
#[derive(Debug, Clone, Copy, PartialEq, Eq, Structural)]
pub struct DispatchResult {
    pub acks: usize,
    pub required: usize,
}

/// Why a write was not confirmed.
#[derive(Debug, Clone, Copy, PartialEq, Eq, Structural)]
pub enum DispatchError {
    /// Too few keepers are connected.
    NotEnough { have: usize, need: usize },
    /// Too few keepers could be sent to.
    NotReachable { sent: usize, need: usize },
    /// Too few keepers confirmed.
    NotMet { acks: usize, need: usize },
}

impl DispatchError {
    /// The text of the error at a level.
    pub open spec fn text(self, level: ConsistencyLevel) -> Seq<char> {
        match self {
            DispatchError::NotEnough { have, need } => "Not enough keepers: have "@ + decimal(have as nat) + ", need "@
                + decimal(need as nat) + " for "@ + level.text(),
            DispatchError::NotReachable { sent, need } => "Consistency "@ + level.text() + " not reachable: only "@
                + decimal(sent as nat) + "/"@ + decimal(need as nat) + " keeper channels available"@,
            DispatchError::NotMet { acks, need } => "Consistency "@ + level.text() + " not met: got "@ + decimal(
                acks as nat,
            ) + "/"@ + decimal(need as nat) + " ACKs"@,
        }
    }

    /// The text of the error at a level.
    pub fn message(self, level: ConsistencyLevel) -> (r: String)
        ensures
            r@ == self.text(level),
    {
        match self {
            DispatchError::NotEnough { have, need } => {
                let mut s = "Not enough keepers: have ".to_string();
                s.append(u64_text(have as u64).as_str());
                s.append(", need ");
                s.append(u64_text(need as u64).as_str());
                s.append(" for ");
                s.append(level.name());
                s
            },
            DispatchError::NotReachable { sent, need } => {
                let mut s = "Consistency ".to_string();
                s.append(level.name());
                s.append(" not reachable: only ");
                s.append(u64_text(sent as u64).as_str());
                s.append("/");
                s.append(u64_text(need as u64).as_str());
                s.append(" keeper channels available");
                s
            },
            DispatchError::NotMet { acks, need } => {
                let mut s = "Consistency ".to_string();
                s.append(level.name());
                s.append(" not met: got ");
                s.append(u64_text(acks as u64).as_str());
                s.append("/");
                s.append(u64_text(need as u64).as_str());
                s.append(" ACKs");
                s
            },
        }
    }
}

/// What became of the confirmation that one keeper owes.
#[derive(Debug, Clone, Copy, PartialEq, Eq, Structural)]
pub enum AckOutcome {
    Confirmed,
    /// The keeper answered with an error.
    Failed,
    /// The connection went away first.
    Closed,
    /// The time to wait was over.
    TimedOut,
}

/// How many of the first confirmations came, up to `required`.
pub open spec fn collected(outcomes: Seq<AckOutcome>, required: int) -> int
    decreases outcomes.len(),
{
    if outcomes.len() == 0 {
        0
    } else {
        let n = collected(outcomes.drop_last(), required);
        if n < required && outcomes.last() == AckOutcome::Confirmed {
            n + 1
        } else {
            n
        }
    }
}

/// How many of the outcomes confirm.
pub open spec fn confirmations(outcomes: Seq<AckOutcome>) -> int
    decreases outcomes.len(),
{
    if outcomes.len() == 0 {
        0
    } else {
        confirmations(outcomes.drop_last()) + (if outcomes.last() == AckOutcome::Confirmed {
            1int
        } else {
            0
        })
    }
}

/// Waiting stops at the number required: what is collected is the number of
/// confirmations or the number required, whichever is less.
pub proof fn law_collected(outcomes: Seq<AckOutcome>, required: int)
    requires
        required >= 0,
    ensures
        collected(outcomes, required) == if confirmations(outcomes) < required {
            confirmations(outcomes)
        } else {
            required
        },
    decreases outcomes.len(),
{
    if outcomes.len() > 0 {
        law_collected(outcomes.drop_last(), required);
        lemma_confirmations_nonneg(outcomes.drop_last());
    }
}

proof fn lemma_confirmations_nonneg(outcomes: Seq<AckOutcome>)
    ensures
        confirmations(outcomes) >= 0,
    decreases outcomes.len(),
{
    if outcomes.len() > 0 {
        lemma_confirmations_nonneg(outcomes.drop_last());
    }
}

/// What becomes of a write at a level with `n` keepers, given how many could
/// be sent to and what became of their confirmations.
pub open spec fn dispatched(
    level: ConsistencyLevel,
    n: usize,
    sent: usize,
    outcomes: Seq<AckOutcome>,
) -> Result<DispatchResult, DispatchError> {
    let need = needed(level, n as int);
    let acks = collected(outcomes, need);
    if need == 0 {
        Ok(DispatchResult { acks: 0, required: 0 })
    } else if n < need {
        Err(DispatchError::NotEnough { have: n, need: need as usize })
    } else if sent < need {
        Err(DispatchError::NotReachable { sent, need: need as usize })
    } else if acks < need {
        Err(DispatchError::NotMet { acks: acks as usize, need: need as usize })
    } else {
        Ok(DispatchResult { acks: acks as usize, required: need as usize })
    }
}

/// A confirmed write has been confirmed by as many keepers as its level asks
/// for; with keepers there, that is at least one unless the level is eventual,
/// and all of them for the level all.
pub proof fn law_confirmed_enough(level: ConsistencyLevel, n: usize, sent: usize, outcomes: Seq<AckOutcome>)
    requires
        dispatched(level, n, sent, outcomes) is Ok,
    ensures
        confirmations(outcomes) >= needed(level, n as int),
        level == ConsistencyLevel::All ==> confirmations(outcomes) >= n,
        level == ConsistencyLevel::Quorum ==> 2 * confirmations(outcomes) > n,
        level == ConsistencyLevel::One && n > 0 ==> confirmations(outcomes) >= 1,
{
    lemma_confirmations_nonneg(outcomes);
    law_collected(outcomes, needed(level, n as int));
}

/// Only confirmations count as such, each once.
pub proof fn law_confirmations_count(outcomes: Seq<AckOutcome>, o: AckOutcome)
    ensures
        confirmations(Seq::empty()) == 0,
        confirmations(outcomes.push(AckOutcome::Confirmed)) == confirmations(outcomes) + 1,
        o is Failed || o is Closed || o is TimedOut ==> confirmations(outcomes.push(o)) == confirmations(outcomes),
{
    assert(outcomes.push(o).drop_last() =~= outcomes);
    assert(outcomes.push(AckOutcome::Confirmed).drop_last() =~= outcomes);
}

/// Each level asks for just so many confirmations: eventual for none, one for
/// one where there is a keeper, quorum for the least number that is more than
/// half, and all for every keeper.
pub proof fn law_levels_ask(n: int)
    requires
        n >= 0,
    ensures
        needed(ConsistencyLevel::Eventual, n) == 0,
        n >= 1 ==> needed(ConsistencyLevel::One, n) == 1,
        n == 0 ==> needed(ConsistencyLevel::One, n) == 0,
        2 * needed(ConsistencyLevel::Quorum, n) > n,
        2 * (needed(ConsistencyLevel::Quorum, n) - 1) <= n,
        needed(ConsistencyLevel::All, n) == n,
{
}

/// A write succeeds as soon as enough keepers could be sent to and enough of
/// them confirmed, whatever the others do, and not before. At eventual, and
/// where there is no keeper to wait for at one or at all, it always does. At
/// one, a single confirmation is enough; at quorum, more than half; at all,
/// every one.
pub proof fn law_enough_confirm(n: usize, sent: usize, outcomes: Seq<AckOutcome>)
    ensures
        dispatched(ConsistencyLevel::Eventual, n, sent, outcomes) == Ok::<DispatchResult, DispatchError>(
            DispatchResult { acks: 0, required: 0 },
        ),
        n == 0 ==> dispatched(ConsistencyLevel::One, n, sent, outcomes) == Ok::<DispatchResult, DispatchError>(
            DispatchResult { acks: 0, required: 0 },
        ),
        n == 0 ==> dispatched(ConsistencyLevel::All, n, sent, outcomes) == Ok::<DispatchResult, DispatchError>(
            DispatchResult { acks: 0, required: 0 },
        ),
        n == 0 ==> dispatched(ConsistencyLevel::Quorum, n, sent, outcomes) == Err::<DispatchResult, DispatchError>(
            DispatchError::NotEnough { have: 0, need: 1 },
        ),
        n >= 1 ==> dispatched(ConsistencyLevel::One, n, sent, outcomes) == if sent < 1 {
            Err::<DispatchResult, DispatchError>(DispatchError::NotReachable { sent, need: 1 })
        } else if confirmations(outcomes) < 1 {
            Err(DispatchError::NotMet { acks: 0, need: 1 })
        } else {
            Ok(DispatchResult { acks: 1, required: 1 })
        },
        n >= 1 ==> dispatched(ConsistencyLevel::All, n, sent, outcomes) == if sent < n {
            Err::<DispatchResult, DispatchError>(DispatchError::NotReachable { sent, need: n })
        } else if confirmations(outcomes) < n {
            Err(DispatchError::NotMet { acks: confirmations(outcomes) as usize, need: n })
        } else {
            Ok(DispatchResult { acks: n, required: n })
        },
        n >= 1 ==> (dispatched(ConsistencyLevel::Quorum, n, sent, outcomes) is Ok <==> 2 * sent > n && 2 * confirmations(
            outcomes,
        ) > n),
        n >= 1 ==> (dispatched(ConsistencyLevel::Quorum, n, sent, outcomes) matches Ok(r) ==> r.acks == r.required && 2
            * r.required > n && 2 * (r.required - 1) <= n),
        n >= 1 ==> (dispatched(ConsistencyLevel::Quorum, n, sent, outcomes) matches Err(e) ==> if 2 * sent <= n {
            e matches DispatchError::NotReachable { sent: m, need } && m == sent && 2 * need > n && 2 * (need - 1) <= n
        } else {
            e matches DispatchError::NotMet { acks, need } && acks == confirmations(outcomes) && 2 * need > n && 2 * (need - 1)
                <= n
        }),
{
    lemma_confirmations_nonneg(outcomes);
    law_collected(outcomes, needed(ConsistencyLevel::One, n as int));
    law_collected(outcomes, needed(ConsistencyLevel::Quorum, n as int));
    law_collected(outcomes, needed(ConsistencyLevel::All, n as int));
}

/// A node on its own does not wait for a quorum or for all; every other node
/// goes by the level that is asked for.
pub proof fn law_level_applies(level: ConsistencyLevel, n: usize, sent: usize, outcomes: Seq<AckOutcome>)
    ensures
        applied_level(false, level) == level,
        level == ConsistencyLevel::One || level == ConsistencyLevel::Eventual ==> applied_level(true, level) == level,
        level == ConsistencyLevel::Quorum || level == ConsistencyLevel::All ==> dispatched(
            applied_level(true, level),
            n,
            sent,
            outcomes,
        ) == Ok::<DispatchResult, DispatchError>(DispatchResult { acks: 0, required: 0 }),
{
}

/// What to do with a write.
#[derive(Debug, Clone, Copy, PartialEq, Eq, Structural)]
pub enum Plan {
    /// Send to every keeper and wait for none.
    FireAndForget,
    /// Send to every keeper and collect this many confirmations.
    Collect(usize),
}

/// A write under way: the number of confirmations that it needs and has.
#[derive(Debug, Clone, Copy, PartialEq, Eq, Structural)]
pub struct Collecting {
    pub required: usize,
    pub acks: usize,
}

impl Collecting {
    /// Starts to wait, once the write was sent to `sent` keepers.
    pub fn begin(required: usize, sent: usize) -> (r: Result<Collecting, DispatchError>)
        ensures
            r == if sent < required {
                Err::<Collecting, DispatchError>(DispatchError::NotReachable { sent, need: required })
            } else {
                Ok(Collecting { required, acks: 0 })
            },
    {
        if sent < required {
            Err(DispatchError::NotReachable { sent, need: required })
        } else {
            Ok(Collecting { required, acks: 0 })
        }
    }

    /// Whether to go on waiting.
    pub fn waits(&self) -> (r: bool)
        ensures
            r == (self.acks < self.required),
    {
        self.acks < self.required
    }

    /// Takes what became of one more confirmation.
    pub fn took(&mut self, outcome: AckOutcome)
        requires
            old(self).acks < old(self).required,
        ensures
            final(self).required == old(self).required,
            final(self).acks == old(self).acks + (if outcome == AckOutcome::Confirmed {
                1int
            } else {
                0
            }),
    {
        if outcome == AckOutcome::Confirmed {
            self.acks = self.acks + 1;
        }
    }

    /// The outcome, once waiting is over.
    pub fn finish(&self) -> (r: Result<DispatchResult, DispatchError>)
        ensures
            r == if self.acks < self.required {
                Err::<DispatchResult, DispatchError>(DispatchError::NotMet { acks: self.acks, need: self.required })
            } else {
                Ok(DispatchResult { acks: self.acks, required: self.required })
            },
    {
        if self.acks < self.required {
            Err(DispatchError::NotMet { acks: self.acks, need: self.required })
        } else {
            Ok(DispatchResult { acks: self.acks, required: self.required })
        }
    }
}

/// The keepers: those with a connection, and what is known of them.
#[derive(Debug)]
pub struct Moirai {
    is_solo: bool,
    connected: Vec<u64>,
    infos: Vec<KeeperInfo>,
}

impl Moirai {
    pub closed spec fn solo(&self) -> bool {
        self.is_solo
    }

    /// The numbers of the keepers that have a connection, each once.
    pub closed spec fn handles(&self) -> Seq<u64> {
        self.connected@
    }

    pub closed spec fn keepers(&self) -> Seq<KeeperView> {
        keeper_views(self.infos@)
    }

    pub closed spec fn wf(&self) -> bool {
        self.connected@.no_duplicates()
    }

    /// No keepers yet. A node on its own is `is_solo`.
    pub fn new(is_solo: bool) -> (r: Moirai)
        ensures
            r.wf(),
            r.solo() == is_solo,
            r.handles() == Seq::<u64>::empty(),
            r.keepers() == Seq::<KeeperView>::empty(),
    {
        let r = Moirai { is_solo, connected: Vec::new(), infos: Vec::new() };
        assert(r.keepers() =~= Seq::empty());
        r
    }

    /// A keeper connected. What is known of a keeper of that number stays as
    /// it is.
    pub fn add_keeper(&mut self, node_id: u64, node_name: String, addr: String, pool_bytes: u64)
        requires
            old(self).wf(),
        ensures
            final(self).wf(),
            final(self).solo() == old(self).solo(),
            final(self).handles() == with_handle(old(self).handles(), node_id),
            final(self).keepers() == with_keeper(
                old(self).keepers(),
                KeeperView { node_id, node_name: node_name@, addr: addr@, pool_bytes, used_bytes: 0 },
            ),
    {
        let mut i: usize = 0;
        while i < self.connected.len() && self.connected[i] != node_id
            invariant
                i <= self.connected@.len(),
                forall|j: int| 0 <= j < i ==> self.connected@[j] != node_id,
            decreases self.connected@.len() - i,
        {
            i = i + 1;
        }
        if i == self.connected.len() {
            assert(!self.connected@.contains(node_id));
            self.connected.push(node_id);
        } else {
            assert(self.connected@[i as int] == node_id);
        }
        let mut j: usize = 0;
        let ghost ks = self.keepers();
        while j < self.infos.len() && self.infos[j].node_id != node_id
            invariant
                j <= self.infos@.len(),
                ks == keeper_views(self.infos@),
                forall|k: int| 0 <= k < j ==> (#[trigger] ks[k]).node_id != node_id,
            decreases self.infos@.len() - j,
        {
            assert(ks[j as int].node_id == self.infos@[j as int].node_id);
            j = j + 1;
        }
        if j == self.infos.len() {
            self.infos.push(KeeperInfo { node_id, node_name, addr, pool_bytes, used_bytes: 0 });
            assert(self.keepers() =~= ks.push(
                KeeperView { node_id, node_name: node_name@, addr: addr@, pool_bytes, used_bytes: 0 },
            ));
        } else {
            assert(ks[j as int].node_id == node_id);
        }
    }

    /// A keeper went away.
    pub fn remove_keeper(&mut self, node_id: u64)
        requires
            old(self).wf(),
        ensures
            final(self).wf(),
            final(self).solo() == old(self).solo(),
            final(self).handles() == old(self).handles().filter(|k: u64| k != node_id),
            final(self).keepers() == without_keeper(old(self).keepers(), node_id),
    {
        let ghost keep = |k: u64| k != node_id;
        let ghost keep_info = |k: KeeperView| k.node_id != node_id;
        let mut kept: Vec<u64> = Vec::new();
        let mut i: usize = 0;
        assert(self.connected@.take(0).filter(keep) =~= Seq::empty());
        while i < self.connected.len()
            invariant
                i <= self.connected@.len(),
                keep == (|k: u64| k != node_id),
                kept@ == self.connected@.take(i as int).filter(keep),
            decreases self.connected@.len() - i,
        {
            let k: u64 = self.connected[i];
            proof {
                let s = self.connected@.take(i as int);
                assert(self.connected@.take(i + 1) =~= s.push(k));
                s.lemma_filter_push(k, keep);
            }
            if k != node_id {
                kept.push(k);
            }
            i = i + 1;
        }
        proof {
            assert(self.connected@.take(i as int) =~= self.connected@);
            lemma_filter_once(self.connected@, keep);
        }
        let mut infos: Vec<KeeperInfo> = Vec::new();
        let mut j: usize = 0;
        let ghost ks = keeper_views(self.infos@);
        assert(ks.take(0).filter(keep_info) =~= Seq::empty());
        assert(keeper_views(infos@) =~= Seq::empty());
        while j < self.infos.len()
            invariant
                j <= self.infos@.len(),
                ks == keeper_views(self.infos@),
                keep_info == (|k: KeeperView| k.node_id != node_id),
                keeper_views(infos@) == ks.take(j as int).filter(keep_info),
            decreases self.infos@.len() - j,
        {
            proof {
                let s = ks.take(j as int);
                assert(ks.take(j + 1) =~= s.push(ks[j as int]));
                s.lemma_filter_push(ks[j as int], keep_info);
            }
            if self.infos[j].node_id != node_id {
                let ghost before = infos@;
                infos.push(self.infos[j].clone());
                assert(keeper_views(infos@) =~= keeper_views(before).push(ks[j as int]));
            }
            j = j + 1;
        }
        assert(ks.take(j as int) =~= ks);
        self.connected = kept;
        self.infos = infos;
    }

    /// How many keepers have a connection.
    pub fn keeper_count(&self) -> (r: usize)
        ensures
            r == self.handles().len(),
    {
        self.connected.len()
    }

    /// What is known of the keepers.
    pub fn keeper_infos(&self) -> (r: &Vec<KeeperInfo>)
        ensures
            keeper_views(r@) == self.keepers(),
    {
        &self.infos
    }

    /// Takes the figures that a keeper reports of itself.
    pub fn update_stats(&mut self, node_id: u64, pool_bytes: u64, used_bytes: u64)
        requires
            old(self).wf(),
        ensures
            final(self).wf(),
            final(self).solo() == old(self).solo(),
            final(self).handles() == old(self).handles(),
            final(self).keepers() == with_stats(old(self).keepers(), node_id, pool_bytes, used_bytes),
    {
        let ghost ks = self.keepers();
        let mut j: usize = 0;
        while j < self.infos.len() && self.infos[j].node_id != node_id
            invariant
                j <= self.infos@.len(),
                ks == keeper_views(self.infos@),
                forall|k: int| 0 <= k < j ==> (#[trigger] ks[k]).node_id != node_id,
            decreases self.infos@.len() - j,
        {
            assert(ks[j as int].node_id == self.infos@[j as int].node_id);
            j = j + 1;
        }
        if j < self.infos.len() {
            proof {
                assert(ks[j as int].node_id == node_id);
                lemma_with_stats_at(ks, node_id, pool_bytes, used_bytes, j as int);
            }
            let k = &mut self.infos[j];
            k.pool_bytes = pool_bytes;
            k.used_bytes = used_bytes;
            assert(self.keepers() =~= with_stats(ks, node_id, pool_bytes, used_bytes));
        } else {
            proof {
                lemma_with_stats_none(ks, node_id, pool_bytes, used_bytes);
            }
        }
    }

    /// The bytes that the first listed keeper of a number brings, if one is
    /// listed.
    pub fn grant_of(&self, node_id: u64) -> (r: Option<u64>)
        ensures
            r == grant_in(self.keepers(), node_id),
    {
        let ghost ks = self.keepers();
        let mut j: usize = 0;
        assert(ks.skip(0) =~= ks);
        while j < self.infos.len()
            invariant
                j <= self.infos@.len(),
                ks == keeper_views(self.infos@),
                grant_in(ks, node_id) == grant_in(ks.skip(j as int), node_id),
            decreases self.infos@.len() - j,
        {
            assert(ks.skip(j as int)[0] == ks[j as int]);
            assert(ks.skip(j as int).drop_first() =~= ks.skip(j + 1));
            if self.infos[j].node_id == node_id {
                return Some(self.infos[j].pool_bytes);
            }
            j = j + 1;
        }
        None
    }

    /// The level that applies on this node.
    pub fn effective_level(&self, level: ConsistencyLevel) -> (r: ConsistencyLevel)
        ensures
            r == applied_level(self.solo(), level),
    {
        if self.is_solo {
            match level {
                ConsistencyLevel::Quorum => ConsistencyLevel::Eventual,
                ConsistencyLevel::All => ConsistencyLevel::Eventual,
                other => other,
            }
        } else {
            level
        }
    }

    /// What to do with a write of a level, before anything is sent.
    pub fn plan(&self, level: ConsistencyLevel) -> (r: Result<Plan, DispatchError>)
        ensures
            ({
                let n = self.handles().len() as int;
                let need = needed(applied_level(self.solo(), level), n);
                r == if need == 0 {
                    Ok::<Plan, DispatchError>(Plan::FireAndForget)
                } else if n < need {
                    Err(DispatchError::NotEnough { have: n as usize, need: need as usize })
                } else {
                    Ok(Plan::Collect(need as usize))
                }
            }),
    {
        let n: usize = self.connected.len();
        let required: usize = match self.effective_level(level) {
            ConsistencyLevel::Eventual => 0,
            ConsistencyLevel::One => if n < 1 {
                n
            } else {
                1
            },
            ConsistencyLevel::Quorum => quorum(n),
            ConsistencyLevel::All => n,
        };
        if required == 0 {
            Ok(Plan::FireAndForget)
        } else if n < required {
            Err(DispatchError::NotEnough { have: n, need: required })
        } else {
            Ok(Plan::Collect(required))
        }
    }

    /// What becomes of a write, given how many keepers could be sent to and
    /// what became of their confirmations, in the order in which they are
    /// waited for.
    pub fn dispatch(&self, level: ConsistencyLevel, sent: usize, outcomes: &[AckOutcome]) -> (r: Result<
        DispatchResult,
        DispatchError,
    >)
        ensures
            r == dispatched(
                applied_level(self.solo(), level),
                self.handles().len() as usize,
                sent,
                outcomes@,
            ),
    {
        let n: usize = self.keeper_count();
        assert(self.handles().len() == n);
        let plan = match self.plan(level) {
            Err(e) => {
                return Err(e);
            },
            Ok(p) => p,
        };
        let required: usize = match plan {
            Plan::FireAndForget => {
                return Ok(DispatchResult { acks: 0, required: 0 });
            },
            Plan::Collect(n) => n,
        };
        let mut state = match Collecting::begin(required, sent) {
            Err(e) => {
                return Err(e);
            },
            Ok(s) => s,
        };
        let mut i: usize = 0;
        assert(outcomes@.take(0).len() == 0);
        while i < outcomes.len() && state.waits()
            invariant
                i <= outcomes@.len(),
                state.required == required,
                state.acks <= required,
                state.acks == collected(outcomes@.take(i as int), required as int),
            decreases outcomes@.len() - i,
        {
            assert(outcomes@.take(i + 1).drop_last() =~= outcomes@.take(i as int));
            state.took(outcomes[i]);
            i = i + 1;
        }
        proof {
            if i < outcomes@.len() {
                lemma_collected_full(outcomes@, required as int, i as int);
            }
            assert(outcomes@.take(outcomes@.len() as int) =~= outcomes@);
        }
        state.finish()
    }
}

proof fn lemma_filter_once(s: Seq<u64>, f: spec_fn(u64) -> bool)
    requires
        s.no_duplicates(),
    ensures
        s.filter(f).no_duplicates(),
    decreases s.len(),
{
    reveal(Seq::filter);
    if s.len() > 0 {
        let t = s.drop_last();
        lemma_filter_once(t, f);
        if f(s.last()) {
            let u = t.filter(f);
            assert forall|i: int| 0 <= i < u.len() implies u[i] != s.last() by {
                t.lemma_filter_contains_rev(f, u[i]);
                assert(u.contains(u[i]));
            }
        }
    }
}

proof fn lemma_collected_full(outcomes: Seq<AckOutcome>, required: int, i: int)
    requires
        0 <= i <= outcomes.len(),
        collected(outcomes.take(i), required) == required,
    ensures
        collected(outcomes, required) == required,
    decreases outcomes.len() - i,
{
    if i < outcomes.len() {
        assert(outcomes.take(i + 1).drop_last() =~= outcomes.take(i));
        lemma_collected_full(outcomes, required, i + 1);
    } else {
        assert(outcomes.take(i) =~= outcomes);
    }
}

/// The list with the figures of the first keeper of a number replaced.
pub open spec fn with_stats(s: Seq<KeeperView>, node_id: u64, pool_bytes: u64, used_bytes: u64) -> Seq<KeeperView>
    decreases s.len(),
{
    if s.len() == 0 {
        s
    } else if s[0].node_id == node_id {
        seq![KeeperView { pool_bytes, used_bytes, ..s[0] }] + s.drop_first()
    } else {
        seq![s[0]] + with_stats(s.drop_first(), node_id, pool_bytes, used_bytes)
    }
}

/// The bytes that the first listed keeper of a number brings.
pub open spec fn grant_in(s: Seq<KeeperView>, node_id: u64) -> Option<u64>
    decreases s.len(),
{
    if s.len() == 0 {
        None
    } else if s[0].node_id == node_id {
        Some(s[0].pool_bytes)
    } else {
        grant_in(s.drop_first(), node_id)
    }
}

proof fn lemma_with_stats_at(s: Seq<KeeperView>, node_id: u64, pool_bytes: u64, used_bytes: u64, i: int)
    requires
        0 <= i < s.len(),
        s[i].node_id == node_id,
        forall|j: int| 0 <= j < i ==> (#[trigger] s[j]).node_id != node_id,
    ensures
        with_stats(s, node_id, pool_bytes, used_bytes) == s.update(i, KeeperView { pool_bytes, used_bytes, ..s[i] }),
    decreases s.len(),
{
    if i > 0 {
        assert(s[0].node_id != node_id);
        let t = s.drop_first();
        assert forall|j: int| 0 <= j < i - 1 implies (#[trigger] t[j]).node_id != node_id by {
            assert(s[j + 1].node_id != node_id);
        }
        lemma_with_stats_at(t, node_id, pool_bytes, used_bytes, i - 1);
    }
    assert(with_stats(s, node_id, pool_bytes, used_bytes) =~= s.update(
        i,
        KeeperView { pool_bytes, used_bytes, ..s[i] },
    ));
}

proof fn lemma_with_stats_none(s: Seq<KeeperView>, node_id: u64, pool_bytes: u64, used_bytes: u64)
    requires
        forall|j: int| 0 <= j < s.len() ==> (#[trigger] s[j]).node_id != node_id,
    ensures
        with_stats(s, node_id, pool_bytes, used_bytes) == s,
    decreases s.len(),
{
    if s.len() > 0 {
        assert(s[0].node_id != node_id);
        let t = s.drop_first();
        assert forall|j: int| 0 <= j < t.len() implies (#[trigger] t[j]).node_id != node_id by {
            assert(s[j + 1].node_id != node_id);
        }
        lemma_with_stats_none(t, node_id, pool_bytes, used_bytes);
    }
    assert(with_stats(s, node_id, pool_bytes, used_bytes) =~= s);
}

/// A keeper that connected is listed and counted; one that went away is
/// neither.
pub proof fn law_added_then_removed(s: Seq<KeeperView>, h: Seq<u64>, keeper: KeeperView)
    ensures
        listed(with_keeper(s, keeper), keeper.node_id),
        with_handle(h, keeper.node_id).contains(keeper.node_id),
        !listed(without_keeper(s, keeper.node_id), keeper.node_id),
        !h.filter(|k: u64| k != keeper.node_id).contains(keeper.node_id),
{
    let node_id = keeper.node_id;
    let f = |k: KeeperView| k.node_id != node_id;
    let g = |k: u64| k != node_id;
    let added = s.push(keeper);
    assert(added[s.len() as int].node_id == node_id);
    assert(h.push(node_id)[h.len() as int] == node_id);
    let t = s.filter(f);
    assert forall|i: int| 0 <= i < t.len() implies (#[trigger] t[i]).node_id != node_id by {
        s.lemma_filter_pred(f, i);
    }
    let u = h.filter(g);
    if u.contains(node_id) {
        let i = choose|i: int| 0 <= i < u.len() && u[i] == node_id;
        h.lemma_filter_pred(g, i);
    }
}

/// A report of a keeper replaces its figures and nothing else of it; the other
/// keepers stay as they are, and a report of one that is not listed changes
/// nothing.
pub proof fn law_report_replaces(s: Seq<KeeperView>, node_id: u64, pool_bytes: u64, used_bytes: u64, i: int, j: int)
    requires
        0 <= i < s.len(),
        0 <= j < s.len(),
        forall|a: int, b: int| 0 <= a < b < s.len() ==> (#[trigger] s[a]).node_id != (#[trigger] s[b]).node_id,
    ensures
        ({
            let t = with_stats(s, node_id, pool_bytes, used_bytes);
            &&& t.len() == s.len()
            &&& s[i].node_id == node_id ==> t[i] == (KeeperView { pool_bytes, used_bytes, ..s[i] })
            &&& s[j].node_id != node_id ==> t[j] == s[j]
            &&& s[i].node_id == node_id ==> grant_in(s, node_id) == Some(s[i].pool_bytes)
            &&& !listed(s, node_id) ==> t == s && grant_in(s, node_id) is None
        }),
{
    if listed(s, node_id) {
        let k = choose|k: int| 0 <= k < s.len() && (#[trigger] s[k]).node_id == node_id;
        assert forall|a: int| 0 <= a < k implies (#[trigger] s[a]).node_id != node_id by {
            assert(s[a].node_id != s[k].node_id);
        }
        lemma_with_stats_at(s, node_id, pool_bytes, used_bytes, k);
        lemma_grant_at(s, node_id, k);
        if s[i].node_id == node_id && i != k {
            if i < k {
                assert(s[i].node_id != s[k].node_id);
            } else {
                assert(s[k].node_id != s[i].node_id);
            }
        }
    } else {
        lemma_with_stats_none(s, node_id, pool_bytes, used_bytes);
        lemma_grant_none(s, node_id);
    }
}

proof fn lemma_grant_at(s: Seq<KeeperView>, node_id: u64, i: int)
    requires
        0 <= i < s.len(),
        s[i].node_id == node_id,
        forall|j: int| 0 <= j < i ==> (#[trigger] s[j]).node_id != node_id,
    ensures
        grant_in(s, node_id) == Some(s[i].pool_bytes),
    decreases s.len(),
{
    if i > 0 {
        assert(s[0].node_id != node_id);
        let t = s.drop_first();
        assert forall|j: int| 0 <= j < i - 1 implies (#[trigger] t[j]).node_id != node_id by {
            assert(s[j + 1].node_id != node_id);
        }
        lemma_grant_at(t, node_id, i - 1);
    }
}

proof fn lemma_grant_none(s: Seq<KeeperView>, node_id: u64)
    requires
        !listed(s, node_id),
    ensures
        grant_in(s, node_id) is None,
    decreases s.len(),
{
    if s.len() > 0 {
        assert(s[0].node_id != node_id);
        let t = s.drop_first();
        if listed(t, node_id) {
            let j = choose|j: int| 0 <= j < t.len() && (#[trigger] t[j]).node_id == node_id;
            assert(s[j + 1].node_id == node_id);
        }
        lemma_grant_none(t, node_id);
    }
}

/// A keeper that connects is listed behind the others; one that is listed stays
/// as it is. One that goes away takes no other with it.
pub proof fn law_keepers_come_and_go(s: Seq<KeeperView>, k: KeeperView, x: KeeperView, h: Seq<u64>, y: u64)
    ensures
        (forall|i: int| 0 <= i < s.len() ==> (#[trigger] s[i]).node_id != k.node_id) ==> with_keeper(s, k) == s.push(k),
        (exists|i: int| 0 <= i < s.len() && (#[trigger] s[i]).node_id == k.node_id) ==> with_keeper(s, k) == s,
        without_keeper(s, k.node_id).contains(x) <==> s.contains(x) && x.node_id != k.node_id,
        with_handle(h, k.node_id).contains(y) <==> y == k.node_id || h.contains(y),
{
    let f = |a: KeeperView| a.node_id != k.node_id;
    let t = s.filter(f);
    if t.contains(x) {
        let i = choose|i: int| 0 <= i < t.len() && t[i] == x;
        s.lemma_filter_pred(f, i);
        s.lemma_filter_contains_rev(f, x);
    }
    if s.contains(x) && x.node_id != k.node_id {
        let i = choose|i: int| 0 <= i < s.len() && s[i] == x;
        s.lemma_filter_contains(f, i);
    }
    let g = h.push(k.node_id);
    assert(g[h.len() as int] == k.node_id);
    if h.contains(y) {
        let i = choose|i: int| 0 <= i < h.len() && h[i] == y;
        assert(g[i] == y);
    }
    if g.contains(y) && y != k.node_id {
        let i = choose|i: int| 0 <= i < g.len() && g[i] == y;
        assert(h[i] == y);
    }
}

} // verus!
