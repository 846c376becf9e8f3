//! What a node knows about the keepers that are still handing their keys over
//! after a start. Reads that need a quorum wait until all have finished.

use vstd::prelude::*;

use crate::pool::wrap;
use crate::proto::{CmdId, ConsistencyLevel};

verus! {

/// The state of the warm-up.
#[derive(Debug, Clone, Copy, PartialEq, Eq, Structural)]
pub struct WarmupState {
    /// Connected keepers that have started to hand keys over and have not
    /// finished.
    pub pending: u64,
    /// Keys that keepers said they would hand over.
    pub total_expected: u64,
    /// Keys that keepers handed over.
    pub total_received: u64,
    /// Every keeper has finished once.
    pub hot: bool,
    /// Keepers that finished.
    pub completed_keepers: u64,
    /// A replica whose primary is away: what it serves may be old.
    pub stale: bool,
}

impl WarmupState {
    pub open spec fn cold() -> WarmupState {
        WarmupState {
            pending: 0,
            total_expected: 0,
            total_received: 0,
            hot: false,
            completed_keepers: 0,
            stale: false,
        }
    }

    /// A keeper starts to hand over `key_count` keys. Nothing changes on a node
    /// that is hot.
    pub open spec fn started(self, key_count: u64) -> WarmupState {
        if self.hot {
            self
        } else {
            WarmupState {
                pending: wrap(self.pending + 1),
                total_expected: wrap(self.total_expected + key_count),
                ..self
            }
        }
    }

    /// A keeper that was counted as pending has finished. The node is hot once
    /// none is pending.
    pub open spec fn finished(self) -> WarmupState {
        WarmupState {
            pending: wrap(self.pending - 1),
            completed_keepers: wrap(self.completed_keepers + 1),
            hot: self.hot || self.pending == 1,
            ..self
        }
    }

    /// A keeper that was counted as pending went away before it finished. That
    /// does not make the node hot.
    pub open spec fn dropped(self) -> WarmupState {
        WarmupState { pending: wrap(self.pending - 1), ..self }
    }

    pub fn new() -> (r: WarmupState)
        ensures
            r == WarmupState::cold(),
    {
        WarmupState {
            pending: 0,
            total_expected: 0,
            total_received: 0,
            hot: false,
            completed_keepers: 0,
            stale: false,
        }
    }

    pub fn is_hot(&self) -> (r: bool)
        ensures
            r == self.hot,
    {
        self.hot
    }

    /// A keeper starts; tells whether it counts as pending from now on.
    pub fn sync_started(&mut self, key_count: u64) -> (counted: bool)
        ensures
            *final(self) == old(self).started(key_count),
            counted == !old(self).hot,
    {
        if self.hot {
            return false;
        }
        self.pending = self.pending.wrapping_add(1);
        self.total_expected = self.total_expected.wrapping_add(key_count);
        true
    }

    /// A key came from a keeper.
    pub fn key_received(&mut self)
        ensures
            *final(self) == (WarmupState { total_received: wrap(old(self).total_received + 1), ..*old(self) }),
    {
        self.total_received = self.total_received.wrapping_add(1);
    }

    /// A keeper that counts as pending has finished; tells whether that made
    /// the node hot.
    pub fn sync_completed(&mut self) -> (became_hot: bool)
        ensures
            *final(self) == old(self).finished(),
            became_hot == (old(self).pending == 1),
    {
        self.completed_keepers = self.completed_keepers.wrapping_add(1);
        let last = self.pending == 1;
        self.pending = self.pending.wrapping_sub(1);
        if last {
            self.hot = true;
        }
        last
    }

    /// A keeper that counts as pending went away.
    pub fn keeper_dropped(&mut self)
        ensures
            *final(self) == old(self).dropped(),
    {
        self.pending = self.pending.wrapping_sub(1);
    }

    /// A node on its own has nothing to wait for.
    pub fn set_hot(&mut self)
        ensures
            *final(self) == (WarmupState { hot: true, ..*old(self) }),
    {
        self.hot = true;
    }

    /// A replica is registered with its primary.
    pub fn registered(&mut self)
        ensures
            *final(self) == (WarmupState { hot: true, stale: false, ..*old(self) }),
    {
        self.hot = true;
        self.stale = false;
    }

    /// A replica lost its primary.
    pub fn went_stale(&mut self)
        ensures
            *final(self) == (WarmupState { stale: true, ..*old(self) }),
    {
        self.stale = true;
    }
}

/// Keepers that start and finish one after the other, or go away, make the
/// node hot exactly when the last one that is pending finishes.
pub proof fn law_hot_when_last_finishes(w: WarmupState, key_count: u64)
    requires
        !w.hot,
        w.pending < u64::MAX,
    ensures
        w.started(key_count).finished().hot <==> w.pending == 0,
        w.started(key_count).finished().pending == w.pending,
        !w.started(key_count).dropped().hot,
        w.started(key_count).dropped().pending == w.pending,
{
    lemma_wrap(w.pending as int + 1);
    lemma_wrap(w.pending as int);
}

proof fn lemma_wrap(n: int)
    requires
        0 <= n <= u64::MAX,
    ensures
        wrap(n) == n,
{
}

/// A node that is hot stays hot, whatever its keepers do.
pub proof fn law_hot_stays(w: WarmupState, key_count: u64)
    requires
        w.hot,
    ensures
        w.started(key_count) == w,
        w.finished().hot,
        w.dropped().hot,
{
}

/// Reads that answer for the cluster as a whole.
pub open spec fn gated_read(cmd: CmdId) -> bool {
    cmd == CmdId::Get || cmd == CmdId::HGet || cmd == CmdId::HGetAll || cmd == CmdId::LRange || cmd == CmdId::ZRange || cmd
        == CmdId::ZRangeByScore || cmd == CmdId::ZRank || cmd == CmdId::ZScore || cmd == CmdId::ZCard || cmd == CmdId::MGet
}

/// A command has to wait for the warm-up.
pub open spec fn must_wait(hot: bool, cmd: CmdId, level: ConsistencyLevel) -> bool {
    !hot && (level == ConsistencyLevel::Quorum || level == ConsistencyLevel::All) && gated_read(cmd)
}

/// Whether a command has to wait for the warm-up.
pub fn blocked(hot: bool, cmd: CmdId, level: ConsistencyLevel) -> (r: bool)
    ensures
        r == must_wait(hot, cmd, level),
{
    if hot {
        return false;
    }
    let needs_hot = match level {
        ConsistencyLevel::Quorum => true,
        ConsistencyLevel::All => true,
        _ => false,
    };
    let is_read = match cmd {
        CmdId::Get | CmdId::HGet | CmdId::HGetAll | CmdId::LRange | CmdId::ZRange | CmdId::ZRangeByScore | CmdId::ZRank
        | CmdId::ZScore | CmdId::ZCard | CmdId::MGet => true,
        _ => false,
    };
    needs_hot && is_read
}

/// A keeper that starts counts with the keys that it announces; one that
/// finishes or goes away no longer counts as pending, and only finishing is
/// counted as such.
pub proof fn law_warm_up_counts(w: WarmupState, key_count: u64)
    ensures
        WarmupState::cold().pending == 0 && !WarmupState::cold().hot && WarmupState::cold().completed_keepers == 0,
        !w.hot && w.pending < u64::MAX ==> w.started(key_count).pending == w.pending + 1,
        !w.hot && w.total_expected + key_count <= u64::MAX ==> w.started(key_count).total_expected == w.total_expected
            + key_count,
        w.pending > 0 ==> w.finished().pending == w.pending - 1 && w.dropped().pending == w.pending - 1,
        w.completed_keepers < u64::MAX ==> w.finished().completed_keepers == w.completed_keepers + 1,
        w.dropped().completed_keepers == w.completed_keepers,
        w.finished().total_received == w.total_received && w.finished().stale == w.stale,
{
}

} // verus!
