//! How a replica finds its primary: which address it tries next, and how long
//! it waits between attempts.

use vstd::prelude::*;

use crate::keeper_link::{SyncCompletePayload, SyncStartPayload};
use crate::warmup::WarmupState;

verus! {

/// The longest wait between two attempts, in seconds.
pub const MAX_BACKOFF_S: u64 = 60;

/// Twice as long, and at most the longest wait.
pub open spec fn doubled(secs: u64) -> u64 {
    if secs * 2 > MAX_BACKOFF_S {
        MAX_BACKOFF_S
    } else {
        (secs * 2) as u64
    }
}

/// The wait after `n` attempts that failed one after the other.
pub open spec fn wait_after(n: nat) -> u64
    decreases n,
{
    if n == 0 {
        1
    } else {
        doubled(wait_after((n - 1) as nat))
    }
}

/// How long to wait before the next attempt.
#[derive(Debug, Clone, Copy, PartialEq, Eq, Structural)]
pub struct Backoff {
    secs: u64,
}

impl Backoff {
    pub closed spec fn next(&self) -> u64 {
        self.secs
    }

    pub fn new() -> (r: Backoff)
        ensures
            r.next() == wait_after(0),
    {
        Backoff { secs: 1 }
    }

    /// Starts again after a success.
    pub fn reset(&mut self)
        ensures
            final(self).next() == wait_after(0),
    {
        self.secs = 1;
    }

    /// The seconds to wait now. The next wait is twice as long, up to the
    /// longest.
    pub fn wait(&mut self) -> (r: u64)
        ensures
            r == old(self).next(),
            final(self).next() == doubled(r),
    {
        let r: u64 = self.secs;
        self.secs = if r > 30 {
            MAX_BACKOFF_S
        } else {
            r * 2
        };
        r
    }
}

/// The waits grow from one second and stay at the longest.
pub proof fn law_waits(n: nat)
    ensures
        1 <= wait_after(n) <= MAX_BACKOFF_S,
        wait_after(n) <= wait_after(n + 1),
        n >= 6 ==> wait_after(n) == MAX_BACKOFF_S,
        wait_after(0) == 1,
        n < 5 ==> wait_after(n + 1) == 2 * wait_after(n),
        n >= 6 ==> wait_after(n) == 60,
    decreases n,
{
    if n > 0 {
        law_waits((n - 1) as nat);
    }
    if n <= 6 {
        reveal_with_fuel(wait_after, 7);
    }
}

/// The search for a primary.
#[derive(Debug)]
pub struct Registration {
    addrs: Vec<String>,
    idx: usize,
    backoff: Backoff,
    ever_connected: bool,
}

/// What a list of addresses says.
pub open spec fn addr_views(s: Seq<String>) -> Seq<Seq<char>> {
    s.map_values(|a: String| a@)
}

/// The addresses to try: the primary's if it is known, then the others.
pub open spec fn candidates(core_addr: Seq<char>, failovers: Seq<Seq<char>>) -> Seq<Seq<char>> {
    if core_addr.len() == 0 {
        failovers
    } else {
        seq![core_addr] + failovers
    }
}

impl Registration {
    pub closed spec fn wf(&self) -> bool {
        self.idx < self.addrs@.len()
    }

    /// The addresses to try.
    pub closed spec fn addresses(&self) -> Seq<Seq<char>> {
        addr_views(self.addrs@)
    }

    /// Which address is next.
    pub closed spec fn at(&self) -> int {
        self.idx as int
    }

    /// How long to wait before the next attempt.
    pub closed spec fn wait_s(&self) -> u64 {
        self.backoff.next()
    }

    /// An attempt has succeeded before.
    pub closed spec fn connected_before(&self) -> bool {
        self.ever_connected
    }

    /// Starts with the primary's address, if it has one. Without any address
    /// there is nothing to try.
    pub fn new(core_addr: &str, failovers: &Vec<String>) -> (r: Option<Registration>)
        ensures
            r is None <==> candidates(core_addr@, addr_views(failovers@)).len() == 0,
            r matches Some(s) ==> {
                &&& s.wf()
                &&& s.addresses() == candidates(core_addr@, addr_views(failovers@))
                &&& s.at() == 0
                &&& s.wait_s() == wait_after(0)
                &&& !s.connected_before()
            },
    {
        let mut addrs: Vec<String> = Vec::new();
        let n: usize = core_addr.unicode_len();
        if n > 0 {
            addrs.push(core_addr.to_string());
        }
        let ghost head = addr_views(addrs@);
        let ghost all = addr_views(failovers@);
        assert(head =~= if n > 0 {
            seq![core_addr@]
        } else {
            Seq::empty()
        });
        let mut i: usize = 0;
        while i < failovers.len()
            invariant
                i <= failovers@.len(),
                all == addr_views(failovers@),
                addr_views(addrs@) == head + all.take(i as int),
            decreases failovers@.len() - i,
        {
            let ghost before = addrs@;
            addrs.push(failovers[i].clone());
            i = i + 1;
            assert(addr_views(addrs@) =~= addr_views(before).push(all[i - 1]));
            assert(addr_views(addrs@) =~= head + all.take(i as int));
        }
        assert(all.take(i as int) =~= all);
        assert(addr_views(addrs@) =~= candidates(core_addr@, all));
        if addrs.len() == 0 {
            None
        } else {
            Some(Registration { addrs, idx: 0, backoff: Backoff::new(), ever_connected: false })
        }
    }

    /// The address to try now.
    pub fn addr(&self) -> (r: &String)
        requires
            self.wf(),
        ensures
            r@ == self.addresses()[self.at()],
    {
        &self.addrs[self.idx]
    }

    /// The attempt succeeded: the next search begins with the primary again.
    pub fn connected(&mut self)
        requires
            old(self).wf(),
        ensures
            final(self).wf(),
            final(self).addresses() == old(self).addresses(),
            final(self).at() == 0,
            final(self).wait_s() == wait_after(0),
            final(self).connected_before(),
    {
        self.backoff.reset();
        self.idx = 0;
        self.ever_connected = true;
    }

    /// The primary has answered the announcement: its writes come in from now
    /// on, and reads are served. The replica says at once that it has handed
    /// everything over, which is nothing.
    pub fn registered(&self, node_id: u64, warmup: &mut WarmupState) -> (r: SyncCompletePayload)
        ensures
            *final(warmup) == (WarmupState { hot: true, stale: false, ..*old(warmup) }),
            r == (SyncCompletePayload { node_id, pushed_keys: 0, highest_seq: 0 }),
    {
        warmup.registered();
        SyncCompletePayload { node_id, pushed_keys: 0, highest_seq: 0 }
    }

    /// The attempt failed: the next address is tried after the wait. What the
    /// replica serves may be old if it was connected before.
    pub fn failed(&mut self, warmup: &mut WarmupState) -> (wait_s: u64)
        requires
            old(self).wf(),
        ensures
            final(self).wf(),
            final(self).addresses() == old(self).addresses(),
            final(self).at() == if old(self).at() + 1 == old(self).addresses().len() {
                0
            } else {
                old(self).at() + 1
            },
            final(self).connected_before() == old(self).connected_before(),
            wait_s == old(self).wait_s(),
            final(self).wait_s() == doubled(wait_s),
            *final(warmup) == (if old(self).connected_before() {
                WarmupState { stale: true, ..*old(warmup) }
            } else {
                *old(warmup)
            }),
    {
        if self.ever_connected {
            warmup.went_stale();
        }
        let n: usize = self.addrs.len();
        self.idx = if self.idx + 1 == n {
            0
        } else {
            self.idx + 1
        };
        self.backoff.wait()
    }

    /// The primary went away, before or after the replica was registered: what
    /// the replica serves may be old, and the same address is tried after the
    /// wait.
    pub fn lost(&mut self, warmup: &mut WarmupState) -> (wait_s: u64)
        requires
            old(self).wf(),
        ensures
            final(self).wf(),
            final(self).addresses() == old(self).addresses(),
            final(self).at() == old(self).at(),
            final(self).connected_before() == old(self).connected_before(),
            wait_s == old(self).wait_s(),
            final(self).wait_s() == doubled(wait_s),
            *final(warmup) == (WarmupState { stale: true, ..*old(warmup) }),
    {
        warmup.went_stale();
        self.backoff.wait()
    }
}

/// As many failures as there are addresses have tried them all and lead back
/// to the first.
pub open spec fn turned(at: int, len: int, failures: nat) -> int
    decreases failures,
{
    if failures == 0 {
        at
    } else {
        let prev = turned(at, len, (failures - 1) as nat);
        if prev + 1 == len {
            0
        } else {
            prev + 1
        }
    }
}

/// From the first address on, every address has its turn.
pub proof fn law_every_address_tried(len: int, k: nat)
    requires
        len > 0,
        k <= len,
    ensures
        turned(0, len, k) == if k == len {
            0
        } else {
            k as int
        },
    decreases k,
{
    if k > 0 {
        law_every_address_tried(len, (k - 1) as nat);
    }
}

/// What a replica says when it starts a session: it has no keys to hand over.
pub fn replica_start(node_id: u64, cluster_secret: &str, replication_addr: &str, node_name: &str, pool_bytes: u64) -> (r: SyncStartPayload)
    ensures
        r.node_id == node_id,
        r.highest_seq == 0,
        r.cluster_secret@ == cluster_secret@,
        r.key_count == 0,
        r.version == 1,
        r.replication_addr@ == replication_addr@,
        r.node_name@ == node_name@,
        r.pool_bytes == pool_bytes,
{
    SyncStartPayload {
        node_id,
        highest_seq: 0,
        cluster_secret: cluster_secret.to_string(),
        key_count: 0,
        version: 1,
        replication_addr: replication_addr.to_string(),
        node_name: node_name.to_string(),
        pool_bytes,
    }
}

/// The address of the primary is tried first where there is one, and then the
/// others in their order.
pub proof fn law_primary_is_tried_first(core_addr: Seq<char>, failovers: Seq<Seq<char>>)
    ensures
        candidates(Seq::empty(), failovers) == failovers,
        core_addr.len() > 0 ==> candidates(core_addr, failovers).len() == failovers.len() + 1 && candidates(
            core_addr,
            failovers,
        )[0] == core_addr && candidates(core_addr, failovers).drop_first() == failovers,
{
    assert(core_addr.len() > 0 ==> candidates(core_addr, failovers).drop_first() =~= failovers);
}

} // verus!
