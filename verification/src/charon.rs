//! Charon decides which connections are let in: at most so many in all, and at
//! most so many from one address.

use vstd::prelude::*;

use crate::aletheia::{counted, raised, Aletheia, MetricsView};

verus! {

/// The address that a connection comes from.
#[derive(Debug, Clone, Copy, PartialEq, Eq, Structural)]
pub enum ClientIp {
    V4(u32),
    V6(u128),
}

/// Why a connection is turned away.
#[derive(Debug, Clone, Copy, PartialEq, Eq, Structural)]
pub enum AdmitError {
    MaxTotal,
    MaxPerIp,
}

impl AdmitError {
    pub open spec fn text(self) -> Seq<char> {
        match self {
            AdmitError::MaxTotal => "ERR_MAX_CONNECTIONS"@,
            AdmitError::MaxPerIp => "ERR_MAX_CONNECTIONS_PER_IP"@,
        }
    }

    /// The error as clients see it.
    pub fn message(self) -> (r: &'static str)
        ensures
            r@ == self.text(),
    {
        match self {
            AdmitError::MaxTotal => "ERR_MAX_CONNECTIONS",
            AdmitError::MaxPerIp => "ERR_MAX_CONNECTIONS_PER_IP",
        }
    }
}

/// A connection that was let in and has to be released again.
#[derive(Debug)]
pub struct ConnGuard {
    pub ip: ClientIp,
}

/// How many connections a list counts.
spec fn total(s: Seq<(ClientIp, u32)>) -> int
    decreases s.len(),
{
    if s.len() == 0 {
        0
    } else {
        total(s.drop_last()) + s.last().1
    }
}

/// How many connections of an address a list counts.
spec fn count_in(s: Seq<(ClientIp, u32)>, ip: ClientIp) -> u32
    decreases s.len(),
{
    if s.len() == 0 {
        0
    } else if s.last().0 == ip {
        s.last().1
    } else {
        count_in(s.drop_last(), ip)
    }
}

/// Each address is listed once.
spec fn distinct(s: Seq<(ClientIp, u32)>) -> bool {
    forall|i: int, j: int| 0 <= i < j < s.len() ==> (#[trigger] s[i]).0 != (#[trigger] s[j]).0
}

proof fn lemma_total_update(s: Seq<(ClientIp, u32)>, i: int, e: (ClientIp, u32))
    requires
        0 <= i < s.len(),
    ensures
        total(s.update(i, e)) == total(s) - s[i].1 + e.1,
    decreases s.len(),
{
    if i < s.len() - 1 {
        lemma_total_update(s.drop_last(), i, e);
        assert(s.update(i, e).drop_last() =~= s.drop_last().update(i, e));
    } else {
        assert(s.update(i, e).drop_last() =~= s.drop_last());
    }
}

proof fn lemma_total_remove(s: Seq<(ClientIp, u32)>, i: int)
    requires
        0 <= i < s.len(),
    ensures
        total(s.remove(i)) == total(s) - s[i].1,
    decreases s.len(),
{
    if i < s.len() - 1 {
        lemma_total_remove(s.drop_last(), i);
        assert(s.remove(i).drop_last() =~= s.drop_last().remove(i));
    } else {
        assert(s.remove(i) =~= s.drop_last());
    }
}

proof fn lemma_total_at(s: Seq<(ClientIp, u32)>, i: int)
    requires
        0 <= i < s.len(),
    ensures
        total(s) >= s[i].1,
    decreases s.len(),
{
    lemma_total_nonneg(s.drop_last());
    if i < s.len() - 1 {
        lemma_total_at(s.drop_last(), i);
    }
}

proof fn lemma_total_nonneg(s: Seq<(ClientIp, u32)>)
    ensures
        total(s) >= 0,
    decreases s.len(),
{
    if s.len() > 0 {
        lemma_total_nonneg(s.drop_last());
    }
}

proof fn lemma_count_at(s: Seq<(ClientIp, u32)>, i: int)
    requires
        distinct(s),
        0 <= i < s.len(),
    ensures
        count_in(s, s[i].0) == s[i].1,
    decreases s.len(),
{
    if i < s.len() - 1 {
        lemma_count_at(s.drop_last(), i);
    }
}

proof fn lemma_count_none(s: Seq<(ClientIp, u32)>, ip: ClientIp)
    requires
        forall|i: int| 0 <= i < s.len() ==> (#[trigger] s[i]).0 != ip,
    ensures
        count_in(s, ip) == 0,
    decreases s.len(),
{
    if s.len() > 0 {
        assert(s[s.len() - 1].0 != ip);
        lemma_count_none(s.drop_last(), ip);
    }
}

/// A count other than 0 is listed.
proof fn lemma_count_listed(s: Seq<(ClientIp, u32)>, ip: ClientIp) -> (i: int)
    requires
        count_in(s, ip) > 0,
    ensures
        0 <= i < s.len(),
        s[i].0 == ip,
    decreases s.len(),
{
    if s.last().0 == ip {
        s.len() - 1
    } else {
        lemma_count_listed(s.drop_last(), ip)
    }
}

/// Lists that agree about an address count the same for it.
proof fn lemma_count_same(s: Seq<(ClientIp, u32)>, t: Seq<(ClientIp, u32)>, ip: ClientIp)
    requires
        distinct(s),
        distinct(t),
        forall|e: (ClientIp, u32)| e.0 == ip ==> (#[trigger] s.contains(e) <==> t.contains(e)),
    ensures
        count_in(s, ip) == count_in(t, ip),
{
    if exists|i: int| 0 <= i < s.len() && (#[trigger] s[i]).0 == ip {
        let i = choose|i: int| 0 <= i < s.len() && (#[trigger] s[i]).0 == ip;
        lemma_count_at(s, i);
        assert(s.contains(s[i]));
        let j = choose|j: int| 0 <= j < t.len() && t[j] == s[i];
        lemma_count_at(t, j);
    } else {
        lemma_count_none(s, ip);
        assert forall|j: int| 0 <= j < t.len() implies (#[trigger] t[j]).0 != ip by {
            if t[j].0 == ip {
                assert(t.contains(t[j]));
                assert(s.contains(t[j]));
                let i = choose|i: int| 0 <= i < s.len() && s[i] == t[j];
                assert(s[i].0 == ip);
            }
        }
        lemma_count_none(t, ip);
    }
}

/// The connections that are open.
#[derive(Debug)]
pub struct Charon {
    max_total: usize,
    max_per_ip: u32,
    active_conns: usize,
    per_ip: Vec<(ClientIp, u32)>,
}

impl Charon {
    /// The most connections in all.
    pub closed spec fn limit(&self) -> usize {
        self.max_total
    }

    /// The most connections from one address.
    pub closed spec fn ip_limit(&self) -> u32 {
        self.max_per_ip
    }

    /// How many connections are open.
    pub closed spec fn open_count(&self) -> usize {
        self.active_conns
    }

    /// How many connections are open from an address.
    pub closed spec fn from_ip(&self, ip: ClientIp) -> u32 {
        count_in(self.per_ip@, ip)
    }

    /// The limits are kept, and the connections of all addresses make up the
    /// number of open ones.
    pub closed spec fn wf(&self) -> bool {
        &&& self.active_conns <= self.max_total
        &&& distinct(self.per_ip@)
        &&& total(self.per_ip@) == self.active_conns
        &&& forall|i: int| 0 <= i < self.per_ip@.len() ==> (#[trigger] self.per_ip@[i]).1 <= self.max_per_ip
    }

    pub fn new(max_total: usize, max_per_ip: u32) -> (r: Charon)
        ensures
            r.wf(),
            r.limit() == max_total,
            r.ip_limit() == max_per_ip,
            r.open_count() == 0,
            forall|ip: ClientIp| r.from_ip(ip) == 0,
    {
        Charon { max_total, max_per_ip, active_conns: 0, per_ip: Vec::new() }
    }

    fn find(&self, ip: ClientIp) -> (i: usize)
        requires
            self.wf(),
        ensures
            i <= self.per_ip@.len(),
            i < self.per_ip@.len() ==> self.per_ip@[i as int].0 == ip && self.from_ip(ip) == self.per_ip@[i as int].1,
            i == self.per_ip@.len() ==> self.from_ip(ip) == 0 && forall|j: int|
                0 <= j < self.per_ip@.len() ==> (#[trigger] self.per_ip@[j]).0 != ip,
    {
        let mut i: usize = 0;
        while i < self.per_ip.len()
            invariant
                i <= self.per_ip@.len(),
                self.wf(),
                forall|j: int| 0 <= j < i ==> (#[trigger] self.per_ip@[j]).0 != ip,
            decreases self.per_ip@.len() - i,
        {
            if self.per_ip[i].0 == ip {
                proof {
                    lemma_count_at(self.per_ip@, i as int);
                }
                return i;
            }
            i = i + 1;
        }
        proof {
            lemma_count_none(self.per_ip@, ip);
        }
        i
    }

    /// Lets a connection in, or says which limit it would break. The metrics
    /// count it either way.
    pub fn let_in(&mut self, ip: ClientIp, metrics: &mut Aletheia) -> (r: Result<ConnGuard, AdmitError>)
        requires
            old(self).wf(),
            old(metrics).wf(),
        ensures
            final(self).wf(),
            final(metrics).wf(),
            final(self).limit() == old(self).limit(),
            final(self).ip_limit() == old(self).ip_limit(),
            forall|other: ClientIp| other != ip ==> final(self).from_ip(other) == old(self).from_ip(other),
            (match r {
                Ok(_) => None,
                Err(e) => Some(e),
            }) == broken_limit(old(self).open_count(), old(self).limit(), old(self).from_ip(ip), old(self).ip_limit()),
            match r {
                Ok(g) => {
                    &&& old(self).open_count() < old(self).limit() && old(self).from_ip(ip) < old(self).ip_limit()
                    &&& g.ip == ip
                    &&& final(self).open_count() == old(self).open_count() + 1
                    &&& final(self).from_ip(ip) == old(self).from_ip(ip) + 1
                    &&& final(metrics)@ == (MetricsView {
                        conn_accepted: raised(old(metrics)@.conn_accepted, 1),
                        conn_active: final(self).open_count(),
                        ..old(metrics)@
                    })
                },
                Err(e) => {
                    &&& e == (if old(self).open_count() >= old(self).limit() {
                        AdmitError::MaxTotal
                    } else {
                        AdmitError::MaxPerIp
                    })
                    &&& old(self).open_count() >= old(self).limit() || old(self).from_ip(ip) >= old(self).ip_limit()
                    &&& final(self).open_count() == old(self).open_count()
                    &&& final(self).from_ip(ip) == old(self).from_ip(ip)
                    &&& final(metrics)@ == (MetricsView {
                        conn_rejected: counted(
                            old(metrics)@.conn_rejected,
                            (
                                if e == AdmitError::MaxTotal {
                                    "max_total"@
                                } else {
                                    "max_per_ip"@
                                },
                                ""@,
                            ),
                        ),
                        ..old(metrics)@
                    })
                },
            },
    {
        if self.active_conns >= self.max_total {
            metrics.record_conn_rejected("max_total");
            return Err(AdmitError::MaxTotal);
        }
        let i: usize = self.find(ip);
        let count: u32 = if i < self.per_ip.len() {
            self.per_ip[i].1
        } else {
            0
        };
        if count >= self.max_per_ip {
            metrics.record_conn_rejected("max_per_ip");
            return Err(AdmitError::MaxPerIp);
        }
        let ghost before = self.per_ip@;
        if i < self.per_ip.len() {
            self.per_ip.set(i, (ip, count + 1));
            proof {
                lemma_total_update(before, i as int, (ip, (count + 1) as u32));
                lemma_count_at(self.per_ip@, i as int);
            }
        } else {
            self.per_ip.push((ip, 1));
            proof {
                assert(self.per_ip@.drop_last() =~= before);
                lemma_count_at(self.per_ip@, i as int);
            }
        }
        self.active_conns = self.active_conns + 1;
        proof {
            assert forall|other: ClientIp| other != ip implies self.from_ip(other) == old(self).from_ip(other) by {
                assert forall|e: (ClientIp, u32)| e.0 == other implies (#[trigger] before.contains(e) <==> self.per_ip@.contains(
                    e,
                )) by {
                    if before.contains(e) {
                        let j = choose|j: int| 0 <= j < before.len() && before[j] == e;
                        assert(self.per_ip@[j] == e);
                    }
                    if self.per_ip@.contains(e) {
                        let j = choose|j: int| 0 <= j < self.per_ip@.len() && self.per_ip@[j] == e;
                        assert(before[j] == e);
                    }
                }
                lemma_count_same(before, self.per_ip@, other);
            }
        }
        metrics.record_conn_accepted();
        metrics.set_conn_active(self.active_conns);
        Ok(ConnGuard { ip })
    }

    /// A connection that was let in is over.
    pub fn release(&mut self, guard: ConnGuard, metrics: &mut Aletheia)
        requires
            old(self).wf(),
            old(metrics).wf(),
            old(self).from_ip(guard.ip) > 0,
        ensures
            final(self).wf(),
            final(metrics).wf(),
            final(self).limit() == old(self).limit(),
            final(self).ip_limit() == old(self).ip_limit(),
            final(self).open_count() == old(self).open_count() - 1,
            final(self).from_ip(guard.ip) == old(self).from_ip(guard.ip) - 1,
            forall|other: ClientIp| other != guard.ip ==> final(self).from_ip(other) == old(self).from_ip(other),
            final(metrics)@ == (MetricsView { conn_active: final(self).open_count(), ..old(metrics)@ }),
    {
        let ip = guard.ip;
        proof {
            let j = lemma_count_listed(self.per_ip@, ip);
            assert(self.per_ip@[j].0 == ip);
        }
        let i: usize = self.find(ip);
        let ghost before = self.per_ip@;
        proof {
            lemma_total_at(before, i as int);
            lemma_total_update(before, i as int, (ip, (before[i as int].1 - 1) as u32));
            lemma_total_remove(before, i as int);
        }
        let count: u32 = self.per_ip[i].1;
        if count == 1 {
            self.per_ip.remove(i);
            proof {
                assert forall|j: int| 0 <= j < self.per_ip@.len() implies (#[trigger] self.per_ip@[j]).0 != ip && self.per_ip@[j].1
                    <= self.max_per_ip by {
                    let k = if j < i {
                        j
                    } else {
                        j + 1
                    };
                    assert(self.per_ip@[j] == before[k]);
                    assert(before[k].0 != before[i as int].0);
                }
                lemma_count_none(self.per_ip@, ip);
            }
        } else {
            self.per_ip.set(i, (ip, count - 1));
            proof {
                lemma_count_at(self.per_ip@, i as int);
            }
        }
        self.active_conns = self.active_conns - 1;
        proof {
            assert forall|other: ClientIp| other != ip implies self.from_ip(other) == old(self).from_ip(other) by {
                assert forall|e: (ClientIp, u32)| e.0 == other implies (#[trigger] before.contains(e) <==> self.per_ip@.contains(
                    e,
                )) by {
                    if before.contains(e) {
                        let j = choose|j: int| 0 <= j < before.len() && before[j] == e;
                        let k = if count == 1 && j > i {
                            j - 1
                        } else {
                            j
                        };
                        assert(self.per_ip@[k] == e);
                    }
                    if self.per_ip@.contains(e) {
                        let j = choose|j: int| 0 <= j < self.per_ip@.len() && self.per_ip@[j] == e;
                        let k = if count == 1 && j >= i {
                            j + 1
                        } else {
                            j
                        };
                        assert(before[k] == e);
                    }
                }
                lemma_count_same(before, self.per_ip@, other);
            }
        }
        metrics.set_conn_active(self.active_conns);
    }

    /// How many connections are open.
    pub fn active(&self) -> (r: usize)
        ensures
            r == self.open_count(),
    {
        self.active_conns
    }
}

/// However connections come and go, no more are open than the limits allow.
pub proof fn law_limits_kept(c: Charon, ip: ClientIp)
    requires
        c.wf(),
    ensures
        c.open_count() <= c.limit(),
        c.from_ip(ip) <= c.ip_limit(),
        c.from_ip(ip) <= c.open_count(),
{
    if c.from_ip(ip) > 0 {
        let i = lemma_count_listed(c.per_ip@, ip);
        lemma_count_at(c.per_ip@, i);
        lemma_total_at(c.per_ip@, i);
    }
}

/// What to do while requests under way are waited for at shutdown.
#[derive(Debug, Clone, Copy, PartialEq, Eq, Structural)]
pub enum Drain {
    /// None is under way any more.
    Done,
    /// The time is over with this many under way.
    GiveUp { in_flight: usize },
    /// Look again in 50 milliseconds.
    Wait,
}

/// Whether to go on waiting for requests under way: `available` of `max`
/// places are free.
pub fn drain_in_flight(available: usize, max: usize, now_ms: u64, deadline_ms: u64) -> (r: Drain)
    ensures
        r == if available >= max {
            Drain::Done
        } else if now_ms >= deadline_ms {
            Drain::GiveUp { in_flight: (max - available) as usize }
        } else {
            Drain::Wait
        },
        r == drained(available, max, now_ms, deadline_ms),
{
    if available >= max {
        Drain::Done
    } else if now_ms >= deadline_ms {
        Drain::GiveUp { in_flight: max - available }
    } else {
        Drain::Wait
    }
}

/// Whether to go on waiting for requests under way.
pub open spec fn drained(available: usize, max: usize, now: u64, deadline: u64) -> Drain {
    if available >= max {
        Drain::Done
    } else if now >= deadline {
        Drain::GiveUp { in_flight: (max - available) as usize }
    } else {
        Drain::Wait
    }
}

/// Waiting ends as soon as no request is under way, and at the deadline with
/// those that are.
pub proof fn law_waiting_ends(max: usize, in_flight: usize, now: u64, deadline: u64)
    requires
        in_flight <= max,
    ensures
        in_flight == 0 ==> drained((max - in_flight) as usize, max, now, deadline) == Drain::Done,
        in_flight > 0 && now < deadline ==> drained((max - in_flight) as usize, max, now, deadline) == Drain::Wait,
        in_flight > 0 && now >= deadline ==> drained((max - in_flight) as usize, max, now, deadline) == (Drain::GiveUp {
            in_flight,
        }),
{
}

/// The limit that one more connection would break, if any.
pub open spec fn broken_limit(open: usize, limit: usize, from_ip: u32, ip_limit: u32) -> Option<AdmitError> {
    if open >= limit {
        Some(AdmitError::MaxTotal)
    } else if from_ip >= ip_limit {
        Some(AdmitError::MaxPerIp)
    } else {
        None
    }
}

/// One more connection is let in just where both limits still hold with it; the
/// limit in all is looked at first.
pub proof fn law_let_in_up_to_the_limits(open: usize, limit: usize, from_ip: u32, ip_limit: u32)
    ensures
        broken_limit(open, limit, from_ip, ip_limit) is None <==> open + 1 <= limit && from_ip + 1 <= ip_limit,
        open + 1 > limit ==> broken_limit(open, limit, from_ip, ip_limit) == Some(AdmitError::MaxTotal),
        open + 1 <= limit && from_ip + 1 > ip_limit ==> broken_limit(open, limit, from_ip, ip_limit) == Some(
            AdmitError::MaxPerIp,
        ),
{
}

} // verus!
