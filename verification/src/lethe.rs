//! Lethe forgets: a three-level timing wheel finds the keys whose time is
//! over, and a probabilistic use counter finds the ones that are used least.
//!
//! The wheels have 256 buckets of 10 ms, 64 of one second and 64 of one
//! minute. A key that leaves one of the coarse wheels before its time moves to
//! the next finer one.

use std::collections::VecDeque;

use vstd::prelude::*;

use crate::bytes::{copy_bytes, views};

verus! {

pub const WHEEL_MS_BUCKETS: u64 = 256;

/// Milliseconds per bucket of the finest wheel.
pub const WHEEL_MS_TICK: u64 = 10;

pub const WHEEL_S_BUCKETS: u64 = 64;

/// Milliseconds per bucket of the middle wheel.
pub const WHEEL_S_TICK: u64 = 1000;

pub const WHEEL_M_BUCKETS: u64 = 64;

/// Milliseconds per bucket of the coarsest wheel.
pub const WHEEL_M_TICK: u64 = 60000;

/// A key that waits in a bucket, and when its time is over.
#[derive(Debug)]
pub struct WheelEntry {
    pub key: Vec<u8>,
    pub expires_at_ms: u64,
}

impl View for WheelEntry {
    type V = (Seq<u8>, u64);

    open spec fn view(&self) -> (Seq<u8>, u64) {
        (self.key@, self.expires_at_ms)
    }
}

/// What a bucket holds.
pub open spec fn bucket_view(b: Seq<WheelEntry>) -> Seq<(Seq<u8>, u64)> {
    b.map_values(|e: WheelEntry| e@)
}

/// What a wheel holds.
pub open spec fn wheel_view(w: Seq<VecDeque<WheelEntry>>) -> Seq<Seq<(Seq<u8>, u64)>> {
    w.map_values(|b: VecDeque<WheelEntry>| bucket_view(b@))
}

/// The state of the wheels. A cursor counts the buckets that its wheel has
/// passed since the origin.
pub struct Wheels {
    pub ms: Seq<Seq<(Seq<u8>, u64)>>,
    pub s: Seq<Seq<(Seq<u8>, u64)>>,
    pub m: Seq<Seq<(Seq<u8>, u64)>>,
    pub ms_cursor: u64,
    pub s_cursor: u64,
    pub m_cursor: u64,
    pub origin: u64,
}

/// How many buckets ahead a key goes that is due in `delta` milliseconds: at
/// least one.
pub open spec fn ticks_ahead(delta: int, tick: int) -> int {
    if delta / tick < 1 { 1 } else { delta / tick }
}

/// The same on a wheel of `n` buckets, at most once around.
pub open spec fn ticks_within(delta: int, tick: int, n: int) -> int {
    if ticks_ahead(delta, tick) > n - 1 { n - 1 } else { ticks_ahead(delta, tick) }
}

/// A wheel with `e` at the end of the bucket `ticks` ahead of the cursor.
pub open spec fn put(
    w: Seq<Seq<(Seq<u8>, u64)>>,
    cursor: int,
    ticks: int,
    e: (Seq<u8>, u64),
) -> Seq<Seq<(Seq<u8>, u64)>> {
    let b = (cursor + ticks) % (w.len() as int);
    w.update(b, w[b].push(e))
}

/// `a - b`, or zero where that is negative.
pub open spec fn monus(a: int, b: int) -> int {
    if a < b { 0 } else { a - b }
}

/// A wheel with entries moved into it.
pub open spec fn cascaded(
    w: Seq<Seq<(Seq<u8>, u64)>>,
    entries: Seq<(Seq<u8>, u64)>,
    cursor: int,
    tick: int,
    now: u64,
) -> Seq<Seq<(Seq<u8>, u64)>>
    decreases entries.len(),
{
    if entries.len() == 0 {
        w
    } else {
        let e = entries.last();
        put(
            cascaded(w, entries.drop_last(), cursor, tick, now),
            cursor,
            ticks_within(e.1 - now, tick, w.len() as int),
            e,
        )
    }
}

/// The entries of a bucket whose time is over.
pub open spec fn due(b: Seq<(Seq<u8>, u64)>, now: u64) -> Seq<(Seq<u8>, u64)> {
    b.filter(|e: (Seq<u8>, u64)| e.1 <= now)
}

/// The entries of a bucket whose time is not over.
pub open spec fn live(b: Seq<(Seq<u8>, u64)>, now: u64) -> Seq<(Seq<u8>, u64)> {
    b.filter(|e: (Seq<u8>, u64)| e.1 > now)
}

/// The keys of entries.
pub open spec fn keys_of(b: Seq<(Seq<u8>, u64)>) -> Seq<Seq<u8>> {
    b.map_values(|e: (Seq<u8>, u64)| e.0)
}

impl Wheels {
    /// Every wheel has its buckets, and the cursors stay in the range of times.
    pub open spec fn wf(self) -> bool {
        &&& self.ms.len() == WHEEL_MS_BUCKETS
        &&& self.s.len() == WHEEL_S_BUCKETS
        &&& self.m.len() == WHEEL_M_BUCKETS
        &&& self.ms_cursor <= u64::MAX / WHEEL_MS_TICK
        &&& self.s_cursor <= u64::MAX / WHEEL_S_TICK
        &&& self.m_cursor <= u64::MAX / WHEEL_M_TICK
        &&& self.origin == 0 ==> self.ms_cursor == 0 && self.s_cursor == 0 && self.m_cursor == 0
    }

    /// The wheels with `key` scheduled.
    pub open spec fn scheduled(self, key: Seq<u8>, expires_at_ms: u64, now: u64) -> Wheels {
        let origin = if self.origin == 0 { now } else { self.origin };
        let delta = monus(expires_at_ms as int, now as int);
        let e = (key, expires_at_ms);
        if expires_at_ms == 0 {
            self
        } else if delta < WHEEL_MS_TICK * WHEEL_MS_BUCKETS {
            Wheels { origin, ms: put(self.ms, self.ms_cursor as int, ticks_ahead(delta, 10), e), ..self }
        } else if delta < WHEEL_S_TICK * WHEEL_S_BUCKETS {
            Wheels { origin, s: put(self.s, self.s_cursor as int, ticks_ahead(delta, 1000), e), ..self }
        } else {
            Wheels { origin, m: put(self.m, self.m_cursor as int, ticks_within(delta, 60000, 64), e), ..self }
        }
    }

    /// The finest wheel passes one bucket: the bucket is emptied.
    pub open spec fn ms_step(self) -> Wheels {
        Wheels {
            ms: self.ms.update(self.ms_cursor as int % 256, Seq::empty()),
            ms_cursor: (self.ms_cursor + 1) as u64,
            ..self
        }
    }

    /// The middle wheel passes one bucket: what is not due there moves on.
    pub open spec fn s_step(self, now: u64) -> Wheels {
        let b = self.s_cursor as int % 64;
        Wheels {
            ms: cascaded(self.ms, live(self.s[b], now), self.ms_cursor as int, 10, now),
            s: self.s.update(b, Seq::empty()),
            s_cursor: (self.s_cursor + 1) as u64,
            ..self
        }
    }

    /// The coarsest wheel passes one bucket: what is not due there moves on.
    pub open spec fn m_step(self, now: u64) -> Wheels {
        let b = self.m_cursor as int % 64;
        Wheels {
            s: cascaded(self.s, live(self.m[b], now), self.s_cursor as int, 1000, now),
            m: self.m.update(b, Seq::empty()),
            m_cursor: (self.m_cursor + 1) as u64,
            ..self
        }
    }

    /// After `n` buckets of the finest wheel: the wheels, and the due entries
    /// that were found.
    pub open spec fn ms_steps(self, n: nat, now: u64) -> (Wheels, Seq<(Seq<u8>, u64)>)
        decreases n,
    {
        if n == 0 {
            (self, Seq::empty())
        } else {
            let (w, out) = self.ms_steps((n - 1) as nat, now);
            (w.ms_step(), out + due(w.ms[w.ms_cursor as int % 256], now))
        }
    }

    /// The same for the middle wheel.
    pub open spec fn s_steps(self, n: nat, now: u64) -> (Wheels, Seq<(Seq<u8>, u64)>)
        decreases n,
    {
        if n == 0 {
            (self, Seq::empty())
        } else {
            let (w, out) = self.s_steps((n - 1) as nat, now);
            (w.s_step(now), out + due(w.s[w.s_cursor as int % 64], now))
        }
    }

    /// The same for the coarsest wheel.
    pub open spec fn m_steps(self, n: nat, now: u64) -> (Wheels, Seq<(Seq<u8>, u64)>)
        decreases n,
    {
        if n == 0 {
            (self, Seq::empty())
        } else {
            let (w, out) = self.m_steps((n - 1) as nat, now);
            (w.m_step(now), out + due(w.m[w.m_cursor as int % 64], now))
        }
    }

    /// Milliseconds from the origin to `now`.
    pub open spec fn elapsed(self, now: u64) -> int {
        monus(now as int, self.origin as int)
    }

    /// No cursor is ahead of `now`.
    pub open spec fn may_tick(self, now: u64) -> bool {
        self.origin == 0 || {
            &&& self.ms_cursor <= self.elapsed(now) / 10
            &&& self.s_cursor <= self.elapsed(now) / 1000
            &&& self.m_cursor <= self.elapsed(now) / 60000
        }
    }

    /// How far a wheel moves: to where it should be, at most once around.
    pub open spec fn advance(target: int, cursor: u64, n: int) -> nat {
        if target - cursor < n { (target - cursor) as nat } else { n as nat }
    }

    /// The wheels moved on to `now`, and the due entries that were found on
    /// the way.
    pub open spec fn ticked(self, now: u64) -> (Wheels, Seq<(Seq<u8>, u64)>) {
        if self.origin == 0 {
            (Wheels { origin: now, ..self }, Seq::empty())
        } else {
            let t = self.elapsed(now);
            let (w1, o1) = self.ms_steps(Wheels::advance(t / 10, self.ms_cursor, 256), now);
            let (w2, o2) = w1.s_steps(Wheels::advance(t / 1000, self.s_cursor, 64), now);
            let (w3, o3) = w2.m_steps(Wheels::advance(t / 60000, self.m_cursor, 64), now);
            (w3, o1 + o2 + o3)
        }
    }

    /// A wheel holds this entry.
    pub open spec fn holds(self, e: (Seq<u8>, u64)) -> bool {
        in_wheel(self.ms, e) || in_wheel(self.s, e) || in_wheel(self.m, e)
    }
}

/// A bucket of the wheel holds this entry.
pub open spec fn in_wheel(w: Seq<Seq<(Seq<u8>, u64)>>, e: (Seq<u8>, u64)) -> bool {
    exists|b: int, i: int| in_wheel_at(w, e, b, i)
}

/// The entry stands at place `i` of bucket `b`.
pub open spec fn in_wheel_at(w: Seq<Seq<(Seq<u8>, u64)>>, e: (Seq<u8>, u64), b: int, i: int) -> bool {
    0 <= b < w.len() && 0 <= i < w[b].len() && w[b][i] == e
}

proof fn lemma_take_push<A>(s: Seq<A>, k: int)
    requires
        0 <= k < s.len(),
    ensures
        s.take(k + 1) == s.take(k).push(s[k]),
{
    assert(s.take(k + 1) =~= s.take(k).push(s[k]));
}

/// Puts an entry at the end of the bucket `ticks` ahead of the cursor.
fn put_exec(w: &mut Vec<VecDeque<WheelEntry>>, cursor: u64, ticks: u64, e: WheelEntry)
    requires
        0 < old(w)@.len(),
        cursor + ticks <= u64::MAX,
    ensures
        wheel_view(final(w)@) == put(wheel_view(old(w)@), cursor as int, ticks as int, e@),
{
    let ghost before = wheel_view(w@);
    let ghost item = e@;
    let b: usize = ((cursor + ticks) % (w.len() as u64)) as usize;
    let ghost bucket = w@[b as int];
    w[b].push_back(e);
    assert(bucket_view(w@[b as int]@) =~= bucket_view(bucket@).push(item));
    assert(wheel_view(w@) =~= before.update(b as int, before[b as int].push(item)));
}

/// Empties a bucket: the keys whose time is over go to `out`, the others are
/// dropped. A dropped key is still found out when it is next looked at.
fn drain_bucket(bucket: &mut VecDeque<WheelEntry>, now_ms: u64, out: &mut Vec<Vec<u8>>)
    ensures
        final(bucket)@.len() == 0,
        views(final(out)@) == views(old(out)@) + keys_of(due(bucket_view(old(bucket)@), now_ms)),
{
    let ghost all = bucket_view(bucket@);
    let ghost is_due = |e: (Seq<u8>, u64)| e.1 <= now_ms;
    let ghost mut k: int = 0;
    assert(all.subrange(0, all.len() as int) =~= all);
    assert(views(out@) =~= views(old(out)@) + keys_of(due(all.take(0), now_ms)));
    loop
        invariant
            0 <= k <= all.len(),
            is_due == (|e: (Seq<u8>, u64)| e.1 <= now_ms),
            bucket_view(bucket@) == all.subrange(k, all.len() as int),
            views(out@) == views(old(out)@) + keys_of(due(all.take(k), now_ms)),
        ensures
            bucket@.len() == 0,
            k == all.len(),
        decreases all.len() - k,
    {
        let ghost rest = bucket@;
        assert(bucket_view(rest).len() == rest.len());
        let e = match bucket.pop_front() {
            Some(e) => e,
            None => {
                break;
            },
        };
        proof {
            assert(e@ == bucket_view(rest)[0]);
            lemma_take_push(all, k);
            Seq::lemma_filter_push(all.take(k), all[k], is_due);
            assert(bucket_view(bucket@) =~= bucket_view(rest).subrange(1, rest.len() as int));
            assert(bucket_view(bucket@) =~= all.subrange(k + 1, all.len() as int));
        }
        let ghost before = views(out@);
        if e.expires_at_ms <= now_ms {
            out.push(e.key);
            assert(views(out@) =~= before.push(all[k].0));
            assert(keys_of(due(all.take(k), now_ms).push(all[k])) =~= keys_of(due(all.take(k), now_ms)).push(all[k].0));
        }
        proof {
            k = k + 1;
        }
    }
    assert(all.take(all.len() as int) =~= all);
}

/// Empties a bucket of a coarse wheel: the keys whose time is over go to
/// `out`, the others into the next finer wheel.
fn drain_bucket_cascade(
    bucket: &mut VecDeque<WheelEntry>,
    now_ms: u64,
    out: &mut Vec<Vec<u8>>,
    target: &mut Vec<VecDeque<WheelEntry>>,
    cursor: u64,
    tick: u64,
)
    requires
        1 <= old(target)@.len(),
        cursor + old(target)@.len() <= u64::MAX,
        tick > 0,
    ensures
        final(bucket)@.len() == 0,
        views(final(out)@) == views(old(out)@) + keys_of(due(bucket_view(old(bucket)@), now_ms)),
        wheel_view(final(target)@) == cascaded(
            wheel_view(old(target)@),
            live(bucket_view(old(bucket)@), now_ms),
            cursor as int,
            tick as int,
            now_ms,
        ),
{
    let ghost all = bucket_view(bucket@);
    let ghost is_due = |e: (Seq<u8>, u64)| e.1 <= now_ms;
    let ghost is_live = |e: (Seq<u8>, u64)| e.1 > now_ms;
    let ghost start = wheel_view(target@);
    let n: u64 = target.len() as u64;
    let ghost mut k: int = 0;
    assert(all.subrange(0, all.len() as int) =~= all);
    assert(views(out@) =~= views(old(out)@) + keys_of(due(all.take(0), now_ms)));
    assert(live(all.take(0), now_ms) =~= Seq::empty());
    loop
        invariant
            0 <= k <= all.len(),
            is_due == (|e: (Seq<u8>, u64)| e.1 <= now_ms),
            is_live == (|e: (Seq<u8>, u64)| e.1 > now_ms),
            1 <= n,
            target@.len() == n,
            start.len() == n,
            cursor + n <= u64::MAX,
            tick > 0,
            bucket_view(bucket@) == all.subrange(k, all.len() as int),
            views(out@) == views(old(out)@) + keys_of(due(all.take(k), now_ms)),
            wheel_view(target@) == cascaded(start, live(all.take(k), now_ms), cursor as int, tick as int, now_ms),
        ensures
            bucket@.len() == 0,
            k == all.len(),
        decreases all.len() - k,
    {
        let ghost rest = bucket@;
        assert(bucket_view(rest).len() == rest.len());
        let e = match bucket.pop_front() {
            Some(e) => e,
            None => {
                break;
            },
        };
        proof {
            assert(e@ == bucket_view(rest)[0]);
            lemma_take_push(all, k);
            Seq::lemma_filter_push(all.take(k), all[k], is_due);
            Seq::lemma_filter_push(all.take(k), all[k], is_live);
            assert(bucket_view(bucket@) =~= bucket_view(rest).subrange(1, rest.len() as int));
            assert(bucket_view(bucket@) =~= all.subrange(k + 1, all.len() as int));
        }
        let ghost before = views(out@);
        if e.expires_at_ms <= now_ms {
            out.push(e.key);
            assert(views(out@) =~= before.push(all[k].0));
            assert(keys_of(due(all.take(k), now_ms).push(all[k])) =~= keys_of(due(all.take(k), now_ms)).push(all[k].0));
        } else {
            let delta: u64 = e.expires_at_ms - now_ms;
            let ahead: u64 = if delta / tick < 1 { 1 } else { delta / tick };
            let ticks: u64 = if ahead > n - 1 { n - 1 } else { ahead };
            let ghost moved = live(all.take(k), now_ms);
            proof {
                assert(moved.push(all[k]).drop_last() =~= moved);
            }
            put_exec(target, cursor, ticks, e);
            assert(wheel_view(target@).len() == n);
        }
        proof {
            k = k + 1;
        }
    }
    assert(all.take(all.len() as int) =~= all);
}

/// The timing wheels.
pub struct Lethe {
    ms: Vec<VecDeque<WheelEntry>>,
    s: Vec<VecDeque<WheelEntry>>,
    m: Vec<VecDeque<WheelEntry>>,
    ms_cursor: u64,
    s_cursor: u64,
    m_cursor: u64,
    origin_ms: u64,
}

fn empty_wheel(n: usize) -> (w: Vec<VecDeque<WheelEntry>>)
    ensures
        w@.len() == n,
        wheel_view(w@) == Seq::new(n as nat, |b: int| Seq::<(Seq<u8>, u64)>::empty()),
{
    let mut w: Vec<VecDeque<WheelEntry>> = Vec::new();
    let mut i: usize = 0;
    while i < n
        invariant
            i <= n,
            w@.len() == i,
            forall|j: int| 0 <= j < i ==> (#[trigger] w@[j])@.len() == 0,
        decreases n - i,
    {
        w.push(VecDeque::new());
        i = i + 1;
    }
    assert forall|j: int| 0 <= j < n implies #[trigger] wheel_view(w@)[j] == Seq::<(Seq<u8>, u64)>::empty() by {
        assert(w@[j]@.len() == 0);
        assert(bucket_view(w@[j]@) =~= Seq::empty());
    }
    assert(wheel_view(w@) =~= Seq::new(n as nat, |b: int| Seq::<(Seq<u8>, u64)>::empty()));
    w
}

impl Lethe {
    /// The state of the wheels.
    pub closed spec fn wheels(&self) -> Wheels {
        Wheels {
            ms: wheel_view(self.ms@),
            s: wheel_view(self.s@),
            m: wheel_view(self.m@),
            ms_cursor: self.ms_cursor,
            s_cursor: self.s_cursor,
            m_cursor: self.m_cursor,
            origin: self.origin_ms,
        }
    }

    pub open spec fn wf(&self) -> bool {
        self.wheels().wf()
    }

    /// Empty wheels; the first call that brings a time sets the origin.
    pub fn new() -> (l: Self)
        ensures
            l.wf(),
            l.wheels().origin == 0,
            l.wheels().ms_cursor == 0,
            l.wheels().s_cursor == 0,
            l.wheels().m_cursor == 0,
            forall|e: (Seq<u8>, u64)| !l.wheels().holds(e),
    {
        Lethe {
            ms: empty_wheel(256),
            s: empty_wheel(64),
            m: empty_wheel(64),
            ms_cursor: 0,
            s_cursor: 0,
            m_cursor: 0,
            origin_ms: 0,
        }
    }

    /// Schedules `key` to be reported once `expires_at_ms` has come. Zero
    /// stands for never.
    pub fn schedule(&mut self, key: Vec<u8>, expires_at_ms: u64, now_ms: u64)
        requires
            old(self).wf(),
        ensures
            final(self).wf(),
            final(self).wheels() == old(self).wheels().scheduled(key@, expires_at_ms, now_ms),
    {
        if expires_at_ms == 0 {
            return;
        }
        if self.origin_ms == 0 {
            self.origin_ms = now_ms;
        }
        let delta: u64 = expires_at_ms.saturating_sub(now_ms);
        let entry = WheelEntry { key, expires_at_ms };
        if delta < WHEEL_MS_TICK * WHEEL_MS_BUCKETS {
            let ticks: u64 = if delta / 10 < 1 { 1 } else { delta / 10 };
            put_exec(&mut self.ms, self.ms_cursor, ticks, entry);
        } else if delta < WHEEL_S_TICK * WHEEL_S_BUCKETS {
            let ticks: u64 = if delta / 1000 < 1 { 1 } else { delta / 1000 };
            put_exec(&mut self.s, self.s_cursor, ticks, entry);
        } else {
            let ahead: u64 = if delta / 60000 < 1 { 1 } else { delta / 60000 };
            let ticks: u64 = if ahead > 63 { 63 } else { ahead };
            put_exec(&mut self.m, self.m_cursor, ticks, entry);
        }
    }

    /// Whether the wheels can move on to `now_ms`: no cursor is ahead of it.
    pub fn can_tick(&self, now_ms: u64) -> (r: bool)
        requires
            self.wf(),
        ensures
            r == self.wheels().may_tick(now_ms),
    {
        if self.origin_ms == 0 {
            return true;
        }
        let elapsed: u64 = now_ms.saturating_sub(self.origin_ms);
        self.ms_cursor <= elapsed / 10 && self.s_cursor <= elapsed / 1000 && self.m_cursor <= elapsed / 60000
    }

    /// Moves the wheels on to `now_ms` and returns the keys whose time is
    /// over. Meant to be called about every ten milliseconds.
    pub fn tick(&mut self, now_ms: u64) -> (expired: Vec<Vec<u8>>)
        requires
            old(self).wf(),
            old(self).wheels().may_tick(now_ms),
        ensures
            final(self).wf(),
            final(self).wheels() == old(self).wheels().ticked(now_ms).0,
            views(expired@) == keys_of(old(self).wheels().ticked(now_ms).1),
    {
        let mut expired: Vec<Vec<u8>> = Vec::new();
        if self.origin_ms == 0 {
            self.origin_ms = now_ms;
            assert(views(expired@) =~= keys_of(old(self).wheels().ticked(now_ms).1));
            return expired;
        }
        let elapsed: u64 = now_ms.saturating_sub(self.origin_ms);
        let ghost w0 = self.wheels();
        self.tick_ms(now_ms, elapsed, &mut expired);
        let ghost w1 = self.wheels();
        let ghost o1 = w0.ms_steps(Wheels::advance(elapsed as int / 10, w0.ms_cursor, 256), now_ms).1;
        self.tick_s(now_ms, elapsed, &mut expired);
        let ghost w2 = self.wheels();
        let ghost o2 = w1.s_steps(Wheels::advance(elapsed as int / 1000, w0.s_cursor, 64), now_ms).1;
        self.tick_m(now_ms, elapsed, &mut expired);
        proof {
            let o3 = w2.m_steps(Wheels::advance(elapsed as int / 60000, w0.m_cursor, 64), now_ms).1;
            assert(keys_of(o1) + keys_of(o2) + keys_of(o3) =~= keys_of(o1 + o2 + o3));
            assert(views(expired@) =~= keys_of(o1 + o2 + o3));
        }
        expired
    }

    fn tick_ms(&mut self, now_ms: u64, elapsed: u64, expired: &mut Vec<Vec<u8>>)
        requires
            old(self).wf(),
            old(self).wheels().ms_cursor <= elapsed / 10,
            old(self).wheels().origin != 0,
        ensures
            final(self).wf(),
            final(self).wheels().origin == old(self).wheels().origin,
            final(self).wheels() == old(self).wheels().ms_steps(
                Wheels::advance(elapsed as int / 10, old(self).wheels().ms_cursor, 256),
                now_ms,
            ).0,
            final(self).wheels().s_cursor == old(self).wheels().s_cursor,
            final(self).wheels().m_cursor == old(self).wheels().m_cursor,
            views(final(expired)@) == views(old(expired)@) + keys_of(
                old(self).wheels().ms_steps(
                    Wheels::advance(elapsed as int / 10, old(self).wheels().ms_cursor, 256),
                    now_ms,
                ).1,
            ),
    {
        let target: u64 = elapsed / 10;
        let n: u64 = if target - self.ms_cursor < 256 { target - self.ms_cursor } else { 256 };
        let ghost w0 = self.wheels();
        let mut i: u64 = 0;
        assert(views(expired@) =~= views(old(expired)@) + keys_of(Seq::empty()));
        while i < n
            invariant
                i <= n,
                w0.ms_cursor + n <= u64::MAX / 10,
                self.wf(),
                self.wheels() == w0.ms_steps(i as nat, now_ms).0,
                self.origin_ms == w0.origin,
                w0.origin != 0,
                self.ms_cursor == w0.ms_cursor + i,
                self.s_cursor == w0.s_cursor,
                self.m_cursor == w0.m_cursor,
                views(expired@) == views(old(expired)@) + keys_of(w0.ms_steps(i as nat, now_ms).1),
            decreases n - i,
        {
            let ghost w = self.wheels();
            let b: usize = (self.ms_cursor % 256) as usize;
            let ghost bucket = w.ms[b as int];
            assert(bucket == bucket_view(self.ms@[b as int]@));
            drain_bucket(&mut self.ms[b], now_ms, expired);
            self.ms_cursor = self.ms_cursor + 1;
            i = i + 1;
            proof {
                assert(bucket_view(self.ms@[b as int]@) =~= Seq::empty());
                assert(wheel_view(self.ms@) =~= w.ms.update(b as int, Seq::empty()));
                let o = w0.ms_steps((i - 1) as nat, now_ms).1;
                assert(w0.ms_steps(i as nat, now_ms).1 == o + due(bucket, now_ms));
                assert(keys_of(o) + keys_of(due(bucket, now_ms)) =~= keys_of(o + due(bucket, now_ms)));
                assert(views(expired@) =~= views(old(expired)@) + keys_of(w0.ms_steps(i as nat, now_ms).1));
            }
        }
    }

    fn tick_s(&mut self, now_ms: u64, elapsed: u64, expired: &mut Vec<Vec<u8>>)
        requires
            old(self).wf(),
            old(self).wheels().s_cursor <= elapsed / 1000,
            old(self).wheels().origin != 0,
        ensures
            final(self).wf(),
            final(self).wheels().origin == old(self).wheels().origin,
            final(self).wheels() == old(self).wheels().s_steps(
                Wheels::advance(elapsed as int / 1000, old(self).wheels().s_cursor, 64),
                now_ms,
            ).0,
            final(self).wheels().m_cursor == old(self).wheels().m_cursor,
            views(final(expired)@) == views(old(expired)@) + keys_of(
                old(self).wheels().s_steps(
                    Wheels::advance(elapsed as int / 1000, old(self).wheels().s_cursor, 64),
                    now_ms,
                ).1,
            ),
    {
        let target: u64 = elapsed / 1000;
        let n: u64 = if target - self.s_cursor < 64 { target - self.s_cursor } else { 64 };
        let ghost w0 = self.wheels();
        let mut i: u64 = 0;
        assert(views(expired@) =~= views(old(expired)@) + keys_of(Seq::empty()));
        while i < n
            invariant
                i <= n,
                w0.s_cursor + n <= u64::MAX / 1000,
                self.wf(),
                self.wheels() == w0.s_steps(i as nat, now_ms).0,
                self.origin_ms == w0.origin,
                w0.origin != 0,
                self.s_cursor == w0.s_cursor + i,
                self.m_cursor == w0.m_cursor,
                views(expired@) == views(old(expired)@) + keys_of(w0.s_steps(i as nat, now_ms).1),
            decreases n - i,
        {
            let ghost w = self.wheels();
            let b: usize = (self.s_cursor % 64) as usize;
            let ghost bucket = w.s[b as int];
            assert(bucket == bucket_view(self.s@[b as int]@));
            drain_bucket_cascade(&mut self.s[b], now_ms, expired, &mut self.ms, self.ms_cursor, WHEEL_MS_TICK);
            self.s_cursor = self.s_cursor + 1;
            i = i + 1;
            proof {
                lemma_cascade_len(w.ms, live(bucket, now_ms), w.ms_cursor as int, 10, now_ms);
                assert(bucket_view(self.s@[b as int]@) =~= Seq::empty());
                assert(wheel_view(self.s@) =~= w.s.update(b as int, Seq::empty()));
                let o = w0.s_steps((i - 1) as nat, now_ms).1;
                assert(w0.s_steps(i as nat, now_ms).1 == o + due(bucket, now_ms));
                assert(keys_of(o) + keys_of(due(bucket, now_ms)) =~= keys_of(o + due(bucket, now_ms)));
                assert(views(expired@) =~= views(old(expired)@) + keys_of(w0.s_steps(i as nat, now_ms).1));
            }
        }
    }

    fn tick_m(&mut self, now_ms: u64, elapsed: u64, expired: &mut Vec<Vec<u8>>)
        requires
            old(self).wf(),
            old(self).wheels().m_cursor <= elapsed / 60000,
            old(self).wheels().origin != 0,
        ensures
            final(self).wf(),
            final(self).wheels().origin == old(self).wheels().origin,
            final(self).wheels() == old(self).wheels().m_steps(
                Wheels::advance(elapsed as int / 60000, old(self).wheels().m_cursor, 64),
                now_ms,
            ).0,
            views(final(expired)@) == views(old(expired)@) + keys_of(
                old(self).wheels().m_steps(
                    Wheels::advance(elapsed as int / 60000, old(self).wheels().m_cursor, 64),
                    now_ms,
                ).1,
            ),
    {
        let target: u64 = elapsed / 60000;
        let n: u64 = if target - self.m_cursor < 64 { target - self.m_cursor } else { 64 };
        let ghost w0 = self.wheels();
        let mut i: u64 = 0;
        assert(views(expired@) =~= views(old(expired)@) + keys_of(Seq::empty()));
        while i < n
            invariant
                i <= n,
                w0.m_cursor + n <= u64::MAX / 60000,
                self.wf(),
                self.wheels() == w0.m_steps(i as nat, now_ms).0,
                self.origin_ms == w0.origin,
                w0.origin != 0,
                self.m_cursor == w0.m_cursor + i,
                views(expired@) == views(old(expired)@) + keys_of(w0.m_steps(i as nat, now_ms).1),
            decreases n - i,
        {
            let ghost w = self.wheels();
            let b: usize = (self.m_cursor % 64) as usize;
            let ghost bucket = w.m[b as int];
            assert(bucket == bucket_view(self.m@[b as int]@));
            drain_bucket_cascade(&mut self.m[b], now_ms, expired, &mut self.s, self.s_cursor, WHEEL_S_TICK);
            self.m_cursor = self.m_cursor + 1;
            i = i + 1;
            proof {
                lemma_cascade_len(w.s, live(bucket, now_ms), w.s_cursor as int, 1000, now_ms);
                assert(bucket_view(self.m@[b as int]@) =~= Seq::empty());
                assert(wheel_view(self.m@) =~= w.m.update(b as int, Seq::empty()));
                let o = w0.m_steps((i - 1) as nat, now_ms).1;
                assert(w0.m_steps(i as nat, now_ms).1 == o + due(bucket, now_ms));
                assert(keys_of(o) + keys_of(due(bucket, now_ms)) =~= keys_of(o + due(bucket, now_ms)));
                assert(views(expired@) =~= views(old(expired)@) + keys_of(w0.m_steps(i as nat, now_ms).1));
            }
        }
    }
}

proof fn lemma_cascade_len(
    w: Seq<Seq<(Seq<u8>, u64)>>,
    entries: Seq<(Seq<u8>, u64)>,
    cursor: int,
    tick: int,
    now: u64,
)
    requires
        w.len() > 0,
    ensures
        cascaded(w, entries, cursor, tick, now).len() == w.len(),
    decreases entries.len(),
{
    if entries.len() > 0 {
        lemma_cascade_len(w, entries.drop_last(), cursor, tick, now);
    }
}

proof fn lemma_filtered_from<A>(s: Seq<A>, p: spec_fn(A) -> bool, i: int) -> (j: int)
    requires
        0 <= i < s.filter(p).len(),
    ensures
        0 <= j < s.len(),
        s[j] == s.filter(p)[i],
        p(s[j]),
{
    broadcast use vstd::seq_lib::group_filter_ensures;

    s.lemma_filter_contains_rev(p, s.filter(p)[i]);
    choose|j: int| 0 <= j < s.len() && s[j] == s.filter(p)[i]
}

proof fn lemma_filter_has<A>(s: Seq<A>, p: spec_fn(A) -> bool, j: int) -> (i: int)
    requires
        0 <= j < s.len(),
        p(s[j]),
    ensures
        0 <= i < s.filter(p).len(),
        s.filter(p)[i] == s[j],
{
    broadcast use vstd::seq_lib::group_filter_ensures;

    assert(s.filter(p).contains(s[j]));
    choose|i: int| 0 <= i < s.filter(p).len() && s.filter(p)[i] == s[j]
}

/// Putting an entry into a wheel adds it and nothing else.
proof fn lemma_put_holds(w: Seq<Seq<(Seq<u8>, u64)>>, cursor: int, ticks: int, x: (Seq<u8>, u64), e: (Seq<u8>, u64))
    requires
        w.len() > 0,
    ensures
        put(w, cursor, ticks, x).len() == w.len(),
        in_wheel(put(w, cursor, ticks, x), e) <==> e == x || in_wheel(w, e),
{
    let b = (cursor + ticks) % (w.len() as int);
    let v = put(w, cursor, ticks, x);
    if in_wheel(w, e) {
        let (c, i) = choose|c: int, i: int| in_wheel_at(w, e, c, i);
        assert(in_wheel_at(v, e, c, i));
    }
    if e == x {
        assert(in_wheel_at(v, e, b, w[b].len() as int));
    }
    if in_wheel(v, e) && e != x {
        let (c, i) = choose|c: int, i: int| in_wheel_at(v, e, c, i);
        assert(in_wheel_at(w, e, c, i));
    }
}

proof fn lemma_cascade_holds(
    w: Seq<Seq<(Seq<u8>, u64)>>,
    entries: Seq<(Seq<u8>, u64)>,
    cursor: int,
    tick: int,
    now: u64,
    e: (Seq<u8>, u64),
)
    requires
        w.len() > 0,
    ensures
        cascaded(w, entries, cursor, tick, now).len() == w.len(),
        in_wheel(cascaded(w, entries, cursor, tick, now), e) <==> entries.contains(e) || in_wheel(w, e),
    decreases entries.len(),
{
    if entries.len() > 0 {
        let x = entries.last();
        let t = entries.drop_last();
        lemma_cascade_holds(w, t, cursor, tick, now, e);
        lemma_put_holds(
            cascaded(w, t, cursor, tick, now),
            cursor,
            ticks_within(x.1 - now, tick, w.len() as int),
            x,
            e,
        );
        if t.contains(e) {
            let i = choose|i: int| 0 <= i < t.len() && t[i] == e;
            assert(entries[i] == e);
        }
        if entries.contains(e) && e != x {
            let i = choose|i: int| 0 <= i < entries.len() && entries[i] == e;
            assert(t[i] == e);
        }
        if e == x {
            assert(entries[entries.len() - 1] == e);
        }
    }
}

/// Emptying a bucket removes what stood there and nothing else.
proof fn lemma_emptied_holds(w: Seq<Seq<(Seq<u8>, u64)>>, b: int, e: (Seq<u8>, u64))
    requires
        0 <= b < w.len(),
    ensures
        in_wheel(w.update(b, Seq::empty()), e) ==> in_wheel(w, e),
        in_wheel(w, e) ==> in_wheel(w.update(b, Seq::empty()), e) || w[b].contains(e),
        w[b].contains(e) ==> in_wheel(w, e),
{
    let v = w.update(b, Seq::empty());
    if in_wheel(v, e) {
        let (c, i) = choose|c: int, i: int| in_wheel_at(v, e, c, i);
        assert(c != b);
        assert(in_wheel_at(w, e, c, i));
    }
    if in_wheel(w, e) {
        let (c, i) = choose|c: int, i: int| in_wheel_at(w, e, c, i);
        if c == b {
            assert(w[b][i] == e);
        } else {
            assert(in_wheel_at(v, e, c, i));
        }
    }
    if w[b].contains(e) {
        let i = choose|i: int| 0 <= i < w[b].len() && w[b][i] == e;
        assert(in_wheel_at(w, e, b, i));
    }
}

/// What a bucket holds is either due or live.
proof fn lemma_due_or_live(b: Seq<(Seq<u8>, u64)>, now: u64, e: (Seq<u8>, u64))
    ensures
        due(b, now).contains(e) <==> b.contains(e) && e.1 <= now,
        live(b, now).contains(e) <==> b.contains(e) && e.1 > now,
{
    let is_due = |x: (Seq<u8>, u64)| x.1 <= now;
    let is_live = |x: (Seq<u8>, u64)| x.1 > now;
    if b.contains(e) {
        let j = choose|j: int| 0 <= j < b.len() && b[j] == e;
        if e.1 <= now {
            let i = lemma_filter_has(b, is_due, j);
            assert(due(b, now)[i] == e);
        } else {
            let i = lemma_filter_has(b, is_live, j);
            assert(live(b, now)[i] == e);
        }
    }
    if due(b, now).contains(e) {
        let i = choose|i: int| 0 <= i < due(b, now).len() && due(b, now)[i] == e;
        let j = lemma_filtered_from(b, is_due, i);
    }
    if live(b, now).contains(e) {
        let i = choose|i: int| 0 <= i < live(b, now).len() && live(b, now)[i] == e;
        let j = lemma_filtered_from(b, is_live, i);
    }
}

proof fn lemma_contains_add<A>(a: Seq<A>, b: Seq<A>, x: A)
    ensures
        (a + b).contains(x) <==> a.contains(x) || b.contains(x),
{
    if a.contains(x) {
        let i = choose|i: int| 0 <= i < a.len() && a[i] == x;
        assert((a + b)[i] == x);
    }
    if b.contains(x) {
        let i = choose|i: int| 0 <= i < b.len() && b[i] == x;
        assert((a + b)[a.len() + i] == x);
    }
    if (a + b).contains(x) {
        let i = choose|i: int| 0 <= i < (a + b).len() && (a + b)[i] == x;
        if i < a.len() {
            assert(a[i] == x);
        } else {
            assert(b[i - a.len()] == x);
        }
    }
}

/// What holds of one entry over a stretch of steps from `w` to `v` that found
/// the due entries `out`.
spec fn step_facts(w: Wheels, v: Wheels, out: Seq<(Seq<u8>, u64)>, now: u64, e: (Seq<u8>, u64)) -> bool {
    &&& v.ms.len() == w.ms.len() && v.s.len() == w.s.len() && v.m.len() == w.m.len()
    &&& v.holds(e) ==> w.holds(e)
    &&& out.contains(e) ==> w.holds(e) && e.1 <= now
    &&& w.holds(e) && e.1 <= now ==> v.holds(e) || out.contains(e)
    &&& (in_wheel(w.s, e) || in_wheel(w.m, e)) && e.1 > now ==> v.holds(e)
}

proof fn lemma_ms_steps(w: Wheels, n: nat, now: u64, e: (Seq<u8>, u64))
    requires
        w.ms.len() == 256,
    ensures
        step_facts(w, w.ms_steps(n, now).0, w.ms_steps(n, now).1, now, e),
        w.ms_steps(n, now).0.s == w.s,
        w.ms_steps(n, now).0.m == w.m,
    decreases n,
{
    if n > 0 {
        lemma_ms_steps(w, (n - 1) as nat, now, e);
        let (v, out) = w.ms_steps((n - 1) as nat, now);
        let b = v.ms_cursor as int % 256;
        lemma_emptied_holds(v.ms, b, e);
        lemma_due_or_live(v.ms[b], now, e);
        lemma_contains_add(out, due(v.ms[b], now), e);
    }
}

proof fn lemma_s_steps(w: Wheels, n: nat, now: u64, e: (Seq<u8>, u64))
    requires
        w.ms.len() == 256,
        w.s.len() == 64,
    ensures
        step_facts(w, w.s_steps(n, now).0, w.s_steps(n, now).1, now, e),
        w.s_steps(n, now).0.m == w.m,
        in_wheel(w.ms, e) ==> in_wheel(w.s_steps(n, now).0.ms, e),
    decreases n,
{
    if n > 0 {
        lemma_s_steps(w, (n - 1) as nat, now, e);
        let (v, out) = w.s_steps((n - 1) as nat, now);
        let b = v.s_cursor as int % 64;
        lemma_emptied_holds(v.s, b, e);
        lemma_due_or_live(v.s[b], now, e);
        lemma_cascade_holds(v.ms, live(v.s[b], now), v.ms_cursor as int, 10, now, e);
        lemma_contains_add(out, due(v.s[b], now), e);
    }
}

proof fn lemma_m_steps(w: Wheels, n: nat, now: u64, e: (Seq<u8>, u64))
    requires
        w.s.len() == 64,
        w.m.len() == 64,
    ensures
        step_facts(w, w.m_steps(n, now).0, w.m_steps(n, now).1, now, e),
        w.m_steps(n, now).0.ms == w.ms,
        in_wheel(w.s, e) ==> in_wheel(w.m_steps(n, now).0.s, e),
    decreases n,
{
    if n > 0 {
        lemma_m_steps(w, (n - 1) as nat, now, e);
        let (v, out) = w.m_steps((n - 1) as nat, now);
        let b = v.m_cursor as int % 64;
        lemma_emptied_holds(v.m, b, e);
        lemma_due_or_live(v.m[b], now, e);
        lemma_cascade_holds(v.s, live(v.m[b], now), v.s_cursor as int, 1000, now, e);
        lemma_contains_add(out, due(v.m[b], now), e);
    }
}

/// A tick reports only what was scheduled and whose time is over, loses
/// nothing that is due without reporting it, and keeps what waits in the
/// coarse wheels and is not due.
pub proof fn law_tick_reports_what_is_due(w: Wheels, now: u64, e: (Seq<u8>, u64))
    requires
        w.wf(),
        w.may_tick(now),
    ensures
        w.ticked(now).1.contains(e) ==> w.holds(e) && e.1 <= now,
        w.ticked(now).0.holds(e) ==> w.holds(e),
        w.holds(e) && e.1 <= now ==> w.ticked(now).0.holds(e) || w.ticked(now).1.contains(e),
        (in_wheel(w.s, e) || in_wheel(w.m, e)) && e.1 > now ==> w.ticked(now).0.holds(e),
{
    if w.origin != 0 {
        let t = w.elapsed(now);
        let n1 = Wheels::advance(t / 10, w.ms_cursor, 256);
        let n2 = Wheels::advance(t / 1000, w.s_cursor, 64);
        let n3 = Wheels::advance(t / 60000, w.m_cursor, 64);
        let (w1, o1) = w.ms_steps(n1, now);
        lemma_ms_steps(w, n1, now, e);
        let (w2, o2) = w1.s_steps(n2, now);
        lemma_s_steps(w1, n2, now, e);
        let (w3, o3) = w2.m_steps(n3, now);
        lemma_m_steps(w2, n3, now, e);
        lemma_contains_add(o1, o2, e);
        lemma_contains_add(o1 + o2, o3, e);
    }
}

/// Scheduling a key adds its entry and nothing else.
pub proof fn law_schedule_adds(w: Wheels, key: Seq<u8>, expires_at_ms: u64, now: u64, e: (Seq<u8>, u64))
    requires
        w.wf(),
        expires_at_ms != 0,
    ensures
        w.scheduled(key, expires_at_ms, now).holds(e) <==> e == (key, expires_at_ms) || w.holds(e),
{
    let delta = monus(expires_at_ms as int, now as int);
    let x = (key, expires_at_ms);
    lemma_put_holds(w.ms, w.ms_cursor as int, ticks_ahead(delta, 10), x, e);
    lemma_put_holds(w.s, w.s_cursor as int, ticks_ahead(delta, 1000), x, e);
    lemma_put_holds(w.m, w.m_cursor as int, ticks_within(delta, 60000, 64), x, e);
}

/// Moving one wheel on moves its cursor alone.
pub proof fn lemma_cursors(w: Wheels, n: nat, now: u64)
    ensures
        w.ms_cursor + n <= u64::MAX ==> w.ms_steps(n, now).0.ms_cursor == w.ms_cursor + n,
        w.ms_steps(n, now).0.s_cursor == w.s_cursor,
        w.ms_steps(n, now).0.m_cursor == w.m_cursor,
        w.ms_steps(n, now).0.origin == w.origin,
        w.s_cursor + n <= u64::MAX ==> w.s_steps(n, now).0.s_cursor == w.s_cursor + n,
        w.s_steps(n, now).0.ms_cursor == w.ms_cursor,
        w.s_steps(n, now).0.m_cursor == w.m_cursor,
        w.s_steps(n, now).0.origin == w.origin,
        w.m_cursor + n <= u64::MAX ==> w.m_steps(n, now).0.m_cursor == w.m_cursor + n,
        w.m_steps(n, now).0.ms_cursor == w.ms_cursor,
        w.m_steps(n, now).0.s_cursor == w.s_cursor,
        w.m_steps(n, now).0.origin == w.origin,
    decreases n,
{
    if n > 0 {
        lemma_cursors(w, (n - 1) as nat, now);
    }
}

/// An entry waits on a wheel at a place that the cursor has yet to pass.
pub open spec fn waits(w: Seq<Seq<(Seq<u8>, u64)>>, cursor: u64, e: (Seq<u8>, u64), p: int) -> bool {
    cursor <= p < cursor + w.len() && w[p % (w.len() as int)].contains(e)
}

proof fn lemma_put_keeps(w: Seq<Seq<(Seq<u8>, u64)>>, cursor: int, ticks: int, x: (Seq<u8>, u64), b: int, e: (Seq<u8>, u64))
    requires
        0 <= b < w.len(),
        w[b].contains(e),
    ensures
        put(w, cursor, ticks, x)[b].contains(e),
{
    let i = choose|i: int| 0 <= i < w[b].len() && w[b][i] == e;
    assert(put(w, cursor, ticks, x)[b][i] == e);
}

proof fn lemma_cascade_keeps(
    w: Seq<Seq<(Seq<u8>, u64)>>,
    entries: Seq<(Seq<u8>, u64)>,
    cursor: int,
    tick: int,
    now: u64,
    b: int,
    e: (Seq<u8>, u64),
)
    requires
        0 <= b < w.len(),
        w[b].contains(e),
    ensures
        cascaded(w, entries, cursor, tick, now)[b].contains(e),
    decreases entries.len(),
{
    lemma_cascade_len(w, entries, cursor, tick, now);
    if entries.len() > 0 {
        lemma_cascade_keeps(w, entries.drop_last(), cursor, tick, now, b, e);
        lemma_cascade_len(w, entries.drop_last(), cursor, tick, now);
        lemma_put_keeps(
            cascaded(w, entries.drop_last(), cursor, tick, now),
            cursor,
            ticks_within(entries.last().1 - now, tick, w.len() as int),
            entries.last(),
            b,
            e,
        );
    }
}

proof fn lemma_ms_passes(w: Wheels, n: nat, now: u64, e: (Seq<u8>, u64), p: int)
    requires
        w.ms.len() == 256,
        n <= 256,
        w.ms_cursor + 256 <= u64::MAX,
        waits(w.ms, w.ms_cursor, e, p),
    ensures
        w.ms_steps(n, now).0.ms.len() == 256,
        n <= p - w.ms_cursor ==> w.ms_steps(n, now).0.ms[p % 256].contains(e),
        n > p - w.ms_cursor && e.1 <= now ==> w.ms_steps(n, now).1.contains(e),
    decreases n,
{
    if n > 0 {
        lemma_ms_passes(w, (n - 1) as nat, now, e, p);
        lemma_cursors(w, (n - 1) as nat, now);
        let (v, out) = w.ms_steps((n - 1) as nat, now);
        let b = v.ms_cursor as int % 256;
        lemma_due_or_live(v.ms[b], now, e);
        lemma_contains_add(out, due(v.ms[b], now), e);
    }
}

proof fn lemma_s_passes(w: Wheels, n: nat, now: u64, e: (Seq<u8>, u64), p: int)
    requires
        w.ms.len() == 256,
        w.s.len() == 64,
        n <= 64,
        w.s_cursor + 64 <= u64::MAX,
        waits(w.s, w.s_cursor, e, p),
    ensures
        w.s_steps(n, now).0.s.len() == 64,
        w.s_steps(n, now).0.ms.len() == 256,
        n <= p - w.s_cursor ==> w.s_steps(n, now).0.s[p % 64].contains(e),
        n > p - w.s_cursor && e.1 <= now ==> w.s_steps(n, now).1.contains(e),
        n > p - w.s_cursor && e.1 > now ==> in_wheel(w.s_steps(n, now).0.ms, e),
    decreases n,
{
    if n > 0 {
        lemma_s_passes(w, (n - 1) as nat, now, e, p);
        lemma_cursors(w, (n - 1) as nat, now);
        let (v, out) = w.s_steps((n - 1) as nat, now);
        let b = v.s_cursor as int % 64;
        lemma_due_or_live(v.s[b], now, e);
        lemma_contains_add(out, due(v.s[b], now), e);
        lemma_cascade_holds(v.ms, live(v.s[b], now), v.ms_cursor as int, 10, now, e);
    }
}

proof fn lemma_m_passes(w: Wheels, n: nat, now: u64, e: (Seq<u8>, u64), p: int)
    requires
        w.s.len() == 64,
        w.m.len() == 64,
        n <= 64,
        w.m_cursor + 64 <= u64::MAX,
        waits(w.m, w.m_cursor, e, p),
    ensures
        w.m_steps(n, now).0.m.len() == 64,
        w.m_steps(n, now).0.s.len() == 64,
        n <= p - w.m_cursor ==> w.m_steps(n, now).0.m[p % 64].contains(e),
        n > p - w.m_cursor && e.1 <= now ==> w.m_steps(n, now).1.contains(e),
        n > p - w.m_cursor && e.1 > now ==> in_wheel(w.m_steps(n, now).0.s, e),
    decreases n,
{
    if n > 0 {
        lemma_m_passes(w, (n - 1) as nat, now, e, p);
        lemma_cursors(w, (n - 1) as nat, now);
        let (v, out) = w.m_steps((n - 1) as nat, now);
        let b = v.m_cursor as int % 64;
        lemma_due_or_live(v.m[b], now, e);
        lemma_contains_add(out, due(v.m[b], now), e);
        lemma_cascade_holds(v.s, live(v.m[b], now), v.s_cursor as int, 1000, now, e);
    }
}

/// What waits at a place of the finer wheel stays there while the next coarser
/// one moves.
proof fn lemma_s_steps_keep(w: Wheels, n: nat, now: u64, b: int, e: (Seq<u8>, u64))
    requires
        0 <= b < w.ms.len(),
        w.ms[b].contains(e),
    ensures
        w.s_steps(n, now).0.ms.len() == w.ms.len(),
        w.s_steps(n, now).0.ms[b].contains(e),
    decreases n,
{
    if n > 0 {
        lemma_s_steps_keep(w, (n - 1) as nat, now, b, e);
        let v = w.s_steps((n - 1) as nat, now).0;
        let entries = live(v.s[v.s_cursor as int % 64], now);
        lemma_cascade_len(v.ms, entries, v.ms_cursor as int, 10, now);
        lemma_cascade_keeps(v.ms, entries, v.ms_cursor as int, 10, now, b, e);
    }
}

/// The same with the middle and the coarsest wheel.
proof fn lemma_m_steps_keep(w: Wheels, n: nat, now: u64, b: int, e: (Seq<u8>, u64))
    requires
        0 <= b < w.s.len(),
        w.s[b].contains(e),
    ensures
        w.m_steps(n, now).0.s.len() == w.s.len(),
        w.m_steps(n, now).0.s[b].contains(e),
    decreases n,
{
    if n > 0 {
        lemma_m_steps_keep(w, (n - 1) as nat, now, b, e);
        let v = w.m_steps((n - 1) as nat, now).0;
        let entries = live(v.m[v.m_cursor as int % 64], now);
        lemma_cascade_len(v.s, entries, v.s_cursor as int, 1000, now);
        lemma_cascade_keeps(v.s, entries, v.s_cursor as int, 1000, now, b, e);
    }
}

/// Scheduling puts a key where the wheel that is fine enough for it passes
/// when its time comes.
pub proof fn law_schedule_places(w: Wheels, key: Seq<u8>, expires_at_ms: u64, now: u64)
    requires
        w.wf(),
        expires_at_ms != 0,
    ensures
        ({
            let after = w.scheduled(key, expires_at_ms, now);
            let delta = monus(expires_at_ms as int, now as int);
            let e = (key, expires_at_ms);
            if delta < 2560 {
                waits(after.ms, after.ms_cursor, e, w.ms_cursor + ticks_ahead(delta, 10))
            } else if delta < 64000 {
                waits(after.s, after.s_cursor, e, w.s_cursor + ticks_ahead(delta, 1000))
            } else {
                waits(after.m, after.m_cursor, e, w.m_cursor + ticks_within(delta, 60000, 64))
            }
        }),
{
    let after = w.scheduled(key, expires_at_ms, now);
    let delta = monus(expires_at_ms as int, now as int);
    let e = (key, expires_at_ms);
    if delta < 2560 {
        let b = (w.ms_cursor + ticks_ahead(delta, 10)) % 256;
        assert(after.ms[b].last() == e);
        assert(after.ms[b][after.ms[b].len() - 1] == e);
    } else if delta < 64000 {
        let b = (w.s_cursor + ticks_ahead(delta, 1000)) % 64;
        assert(after.s[b].last() == e);
        assert(after.s[b][after.s[b].len() - 1] == e);
    } else {
        let b = (w.m_cursor + ticks_within(delta, 60000, 64)) % 64;
        assert(after.m[b].last() == e);
        assert(after.m[b][after.m[b].len() - 1] == e);
    }
}

/// A key waits until its wheel passes its place, and not longer: it is then
/// reported if its time is over. If its time is not over, it moves from a
/// coarse wheel to the next finer one.
pub proof fn law_waits_until_passed(w: Wheels, now: u64, e: (Seq<u8>, u64), p: int)
    requires
        w.wf(),
        w.origin != 0,
        w.may_tick(now),
    ensures
        ({
            let (after, out) = w.ticked(now);
            let t = w.elapsed(now);
            &&& waits(w.ms, w.ms_cursor, e, p) ==> if t / 10 <= p {
                waits(after.ms, after.ms_cursor, e, p)
            } else {
                e.1 <= now ==> out.contains(e)
            }
            &&& waits(w.s, w.s_cursor, e, p) ==> if t / 1000 <= p {
                waits(after.s, after.s_cursor, e, p)
            } else if e.1 <= now {
                out.contains(e)
            } else {
                in_wheel(after.ms, e)
            }
            &&& waits(w.m, w.m_cursor, e, p) ==> if t / 60000 <= p {
                waits(after.m, after.m_cursor, e, p)
            } else if e.1 <= now {
                out.contains(e)
            } else {
                in_wheel(after.s, e)
            }
        }),
{
    let t = w.elapsed(now);
    let n1 = Wheels::advance(t / 10, w.ms_cursor, 256);
    let n2 = Wheels::advance(t / 1000, w.s_cursor, 64);
    let n3 = Wheels::advance(t / 60000, w.m_cursor, 64);
    let (w1, o1) = w.ms_steps(n1, now);
    let (w2, o2) = w1.s_steps(n2, now);
    let (w3, o3) = w2.m_steps(n3, now);
    lemma_ms_steps(w, n1, now, e);
    lemma_cursors(w, n1, now);
    lemma_s_steps(w1, n2, now, e);
    lemma_cursors(w1, n2, now);
    lemma_m_steps(w2, n3, now, e);
    lemma_cursors(w2, n3, now);
    lemma_contains_add(o1, o2, e);
    lemma_contains_add(o1 + o2, o3, e);
    if waits(w.ms, w.ms_cursor, e, p) {
        lemma_ms_passes(w, n1, now, e, p);
        if t / 10 <= p {
            lemma_s_steps_keep(w1, n2, now, p % 256, e);
        }
    }
    if waits(w.s, w.s_cursor, e, p) {
        lemma_s_passes(w1, n2, now, e, p);
        if t / 1000 <= p {
            lemma_m_steps_keep(w2, n3, now, p % 64, e);
        }
    }
    if waits(w.m, w.m_cursor, e, p) {
        lemma_m_passes(w2, n3, now, e, p);
    }
}

/// After a tick the wheels can move on to every later time.
pub proof fn law_tick_allows_later(w: Wheels, now: u64, later: u64)
    requires
        w.wf(),
        w.may_tick(now),
        now <= later,
    ensures
        w.ticked(now).0.may_tick(later),
{
    if w.origin != 0 {
        let t = w.elapsed(now);
        let n1 = Wheels::advance(t / 10, w.ms_cursor, 256);
        let n2 = Wheels::advance(t / 1000, w.s_cursor, 64);
        let n3 = Wheels::advance(t / 60000, w.m_cursor, 64);
        let w1 = w.ms_steps(n1, now).0;
        let w2 = w1.s_steps(n2, now).0;
        lemma_cursors(w, n1, now);
        lemma_cursors(w1, n2, now);
        lemma_cursors(w2, n3, now);
    }
}

// ---- use counters ----

/// One step of the xorshift generator.
pub open spec fn xorshift(x: u64) -> u64 {
    let a = x ^ (x << 13);
    let b = a ^ (a >> 7);
    b ^ (b << 17)
}

/// The generator never falls to zero, where it would stay.
pub proof fn law_xorshift_stays_nonzero(x: u64)
    requires
        x != 0,
    ensures
        xorshift(x) != 0,
{
    let a = x ^ (x << 13);
    assert(x != 0 ==> x ^ (x << 13) != 0) by (bit_vector);
    let b = a ^ (a >> 7);
    assert(a != 0 ==> a ^ (a >> 7) != 0) by (bit_vector);
    assert(b != 0 ==> b ^ (b << 17) != 0) by (bit_vector);
}

/// A cheap source of numbers that look random.
pub struct FastRand {
    pub state: u64,
}

impl FastRand {
    /// The generator at its start.
    pub fn new() -> (g: Self)
        ensures
            g.state == 0x123456789ABCDEF0,
    {
        FastRand { state: 0x123456789ABCDEF0 }
    }

    /// The next number.
    pub fn fast_rand_u64(&mut self) -> (r: u64)
        ensures
            r == xorshift(old(self).state),
            final(self).state == r,
    {
        let mut x: u64 = self.state;
        x = x ^ (x << 13);
        x = x ^ (x >> 7);
        x = x ^ (x << 17);
        self.state = x;
        x
    }
}

/// One in how many uses raises a counter of this height: ten times a power
/// of two, modulo 2^64.
pub open spec fn lfu_odds(current: u8) -> u64 {
    (1u64 << (if current - 5 < 62 { (current - 5) as u64 } else { 62 })).wrapping_mul(10)
}

/// The use counter after one more use, given a random number: it rises by one
/// while it is below five, and at 255 it stays.
pub open spec fn lfu_after_use(current: u8, rand: u64) -> u8 {
    if current == 255 {
        255
    } else if current < 5 || rand % lfu_odds(current) == 0 {
        (current + 1) as u8
    } else {
        current
    }
}

/// The use counter after a while without use.
pub open spec fn lfu_after_rest(current: u8) -> u8 {
    if current == 0 {
        0
    } else {
        (current - 1) as u8
    }
}

/// A while without use takes one use away, as long as there is one: a use below
/// five and a while without use leave the counter as it was.
pub proof fn law_rest_takes_a_use_away(current: u8, rand: u64)
    ensures
        lfu_after_rest(0) == 0,
        current > 0 ==> lfu_after_rest(current) + 1 == current,
        current < 5 ==> lfu_after_rest(lfu_after_use(current, rand)) == current,
{
}

/// A use never lowers a counter and raises it by one at most. Below five every
/// use raises it; from five on one in ten does, and one in twice as many for
/// each step up; at 255 it stays.
pub proof fn law_uses_count(current: u8, rand: u64)
    ensures
        lfu_after_use(current, rand) == current || lfu_after_use(current, rand) == current + 1,
        current < 5 ==> lfu_after_use(current, rand) == current + 1,
        5 <= current < 255 ==> (lfu_after_use(current, rand) == current + 1 <==> rand % lfu_odds(current) == 0),
        current == 255 ==> lfu_after_use(current, rand) == 255,
        lfu_odds(5) == 10,
        5 <= current <= 64 ==> lfu_odds((current + 1) as u8) == 2 * lfu_odds(current),
{
    assert(1u64 << 0u64 == 1u64) by (bit_vector);
    if 5 <= current <= 64 {
        let k = (current - 5) as u64;
        let k1 = (k + 1) as u64;
        assert(k <= 59 && k1 == k + 1 ==> 1u64 << k1 == 2 * (1u64 << k) && 0 < (1u64 << k) && (1u64 << k)
            <= 0x800_0000_0000_0000) by (bit_vector);
        let p = 1u64 << k;
        assert((p as int * 10) % 0x1_0000_0000_0000_0000 == p * 10);
        assert((2 * p as int * 10) % 0x1_0000_0000_0000_0000 == 2 * p * 10);
    }
}

proof fn lemma_odds_positive(k: u64)
    requires
        k <= 62,
    ensures
        (1u64 << k).wrapping_mul(10) != 0,
{
    let p = 1u64 << k;
    assert(k <= 60 ==> 0 < (1u64 << k) && (1u64 << k) <= 0x1000_0000_0000_0000) by (bit_vector);
    assert(1u64 << 61u64 == 0x2000_0000_0000_0000u64) by (bit_vector);
    assert(1u64 << 62u64 == 0x4000_0000_0000_0000u64) by (bit_vector);
}

/// The items with their use counters, lowest counters first, up to counter
/// `upto` (not with it); equal counters keep their order.
pub open spec fn by_counter(s: Seq<(Seq<u8>, u8)>, upto: nat) -> Seq<(Seq<u8>, u8)>
    decreases upto,
{
    if upto == 0 {
        Seq::empty()
    } else {
        by_counter(s, (upto - 1) as nat) + s.filter(|p: (Seq<u8>, u8)| p.1 == upto - 1)
    }
}

/// What a list of keys with counters holds.
pub open spec fn counted_views(s: Seq<(Vec<u8>, u8)>) -> Seq<(Seq<u8>, u8)> {
    s.map_values(|p: (Vec<u8>, u8)| (p.0@, p.1))
}

/// The keys of the first `n` items.
pub open spec fn first_keys(s: Seq<(Seq<u8>, u8)>, n: int) -> Seq<Seq<u8>> {
    s.take(if n < s.len() { n } else { s.len() as int }).map_values(|p: (Seq<u8>, u8)| p.0)
}

proof fn lemma_below(s: Seq<(Seq<u8>, u8)>, c: nat)
    ensures
        s.filter(|x: (Seq<u8>, u8)| x.1 < c + 1).to_multiset() == s.filter(
            |x: (Seq<u8>, u8)| x.1 < c,
        ).to_multiset().add(s.filter(|x: (Seq<u8>, u8)| x.1 == c).to_multiset()),
    decreases s.len(),
{
    broadcast use vstd::seq_lib::group_to_multiset_ensures;

    let a = |x: (Seq<u8>, u8)| x.1 < c + 1;
    let b = |x: (Seq<u8>, u8)| x.1 < c;
    let d = |x: (Seq<u8>, u8)| x.1 == c;
    if s.len() == 0 {
        assert(s.filter(a) =~= Seq::empty());
        assert(s.filter(b) =~= Seq::empty());
        assert(s.filter(d) =~= Seq::empty());
    } else {
        let t = s.drop_last();
        lemma_below(t, c);
        assert(s =~= t.push(s.last()));
        Seq::lemma_filter_push(t, s.last(), a);
        Seq::lemma_filter_push(t, s.last(), b);
        Seq::lemma_filter_push(t, s.last(), d);
    }
    assert(s.filter(a).to_multiset() =~= s.filter(b).to_multiset().add(s.filter(d).to_multiset()));
}

proof fn lemma_filter_all<A>(s: Seq<A>, p: spec_fn(A) -> bool)
    requires
        forall|x: A| #[trigger] p(x),
    ensures
        s.filter(p) == s,
    decreases s.len(),
{
    reveal(Seq::filter);
    if s.len() > 0 {
        lemma_filter_all(s.drop_last(), p);
        assert(s.drop_last().push(s.last()) =~= s);
    }
}

/// The order by counters has the lower counters first and each item as often
/// as it was given.
pub proof fn law_by_counter(s: Seq<(Seq<u8>, u8)>, upto: nat)
    ensures
        forall|i: int, j: int|
            0 <= i < j < by_counter(s, upto).len() ==> by_counter(s, upto)[i].1 <= by_counter(s, upto)[j].1,
        forall|i: int| 0 <= i < by_counter(s, upto).len() ==> (#[trigger] by_counter(s, upto)[i]).1 < upto,
        by_counter(s, upto).to_multiset() == s.filter(|x: (Seq<u8>, u8)| x.1 < upto).to_multiset(),
        upto > u8::MAX ==> by_counter(s, upto).to_multiset() == s.to_multiset(),
        forall|x: (Seq<u8>, u8)| by_counter(s, upto).contains(x) <==> s.contains(x) && x.1 < upto,
    decreases upto,
{
    let all = by_counter(s, upto);
    if upto > u8::MAX {
        lemma_filter_all(s, |x: (Seq<u8>, u8)| x.1 < upto);
    }
    if upto == 0 {
        assert(s.filter(|x: (Seq<u8>, u8)| x.1 < upto).len() == 0) by {
            if s.filter(|x: (Seq<u8>, u8)| x.1 < upto).len() > 0 {
                s.lemma_filter_pred(|x: (Seq<u8>, u8)| x.1 < upto, 0);
            }
        }
        assert(s.filter(|x: (Seq<u8>, u8)| x.1 < upto) =~= all);
    } else {
        let c = (upto - 1) as nat;
        law_by_counter(s, c);
        lemma_below(s, c);
        vstd::seq_lib::lemma_multiset_commutative(by_counter(s, c), s.filter(|x: (Seq<u8>, u8)| x.1 == upto - 1));
        assert((|x: (Seq<u8>, u8)| x.1 < c + 1) =~= (|x: (Seq<u8>, u8)| x.1 < upto));
        assert((|x: (Seq<u8>, u8)| x.1 == c) =~= (|x: (Seq<u8>, u8)| x.1 == upto - 1));
        let p = |x: (Seq<u8>, u8)| x.1 == upto - 1;
        let head = by_counter(s, c);
        let tail = s.filter(p);
        assert(all =~= head + tail);
        assert forall|i: int| 0 <= i < tail.len() implies (#[trigger] tail[i]).1 == c by {
            s.lemma_filter_pred(p, i);
        }
        assert forall|i: int, j: int| 0 <= i < j < all.len() implies all[i].1 <= all[j].1 by {
            if j < head.len() {
                assert(head[i].1 <= head[j].1);
            } else if i < head.len() {
                assert(head[i].1 < c);
                assert(tail[j - head.len()].1 == c);
            } else {
                assert(tail[i - head.len()].1 == c);
                assert(tail[j - head.len()].1 == c);
            }
        }
        assert forall|i: int| 0 <= i < all.len() implies (#[trigger] all[i]).1 < upto by {
            if i < head.len() {
                assert(head[i].1 < c);
            } else {
                assert(tail[i - head.len()].1 == c);
            }
        }
        assert forall|x: (Seq<u8>, u8)| all.contains(x) <==> s.contains(x) && x.1 < upto by {
            lemma_contains_add(head, tail, x);
            if tail.contains(x) {
                s.lemma_filter_contains_rev(p, x);
                let i = choose|i: int| 0 <= i < tail.len() && tail[i] == x;
                assert(tail[i].1 == c);
            }
            if s.contains(x) && x.1 == c {
                let i = choose|i: int| 0 <= i < s.len() && s[i] == x;
                s.lemma_filter_contains(p, i);
            }
        }
    }
}

impl Lethe {
    /// The use counter after one more use, given a random number.
    pub fn increment_lfu(current: u8, rand: u64) -> (r: u8)
        ensures
            r == lfu_after_use(current, rand),
    {
        if current == 255 {
            return 255;
        }
        if current < 5 {
            return current + 1;
        }
        let shift: u64 = if current - 5 < 62 { (current - 5) as u64 } else { 62 };
        proof {
            lemma_odds_positive(shift);
        }
        let odds: u64 = (1u64 << shift).wrapping_mul(10);
        if rand % odds == 0 {
            current + 1
        } else {
            current
        }
    }

    /// The use counter after a while without use.
    pub fn decay_lfu(current: u8) -> (r: u8)
        ensures
            r == if current == 0 { 0 } else { current - 1 },
            r == lfu_after_rest(current),
    {
        current.saturating_sub(1)
    }

    /// The keys of the `n` items with the lowest use counters, lowest first.
    pub fn pick_eviction_candidates(candidates: &[(Vec<u8>, u8)], n: usize) -> (r: Vec<Vec<u8>>)
        ensures
            views(r@) == first_keys(by_counter(counted_views(candidates@), 256), n as int),
    {
        let ghost s = counted_views(candidates@);
        let mut r: Vec<Vec<u8>> = Vec::new();
        let mut c: u16 = 0;
        let ghost key = |p: (Seq<u8>, u8)| p.0;
        assert(views(r@) =~= first_keys(by_counter(s, 0), n as int));
        while c < 256
            invariant
                c <= 256,
                s == counted_views(candidates@),
                r@.len() <= n,
                views(r@) == first_keys(by_counter(s, c as nat), n as int),
            decreases 256 - c,
        {
            let ghost p = |x: (Seq<u8>, u8)| x.1 == (c + 1) - 1;
            let ghost head = by_counter(s, c as nat);
            let mut i: usize = 0;
            assert(s.take(0).filter(p) =~= Seq::empty());
            assert(head + s.take(0).filter(p) =~= head);
            while i < candidates.len()
                invariant
                    i <= candidates.len(),
                    c < 256,
                    s == counted_views(candidates@),
                    p == (|x: (Seq<u8>, u8)| x.1 == (c + 1) - 1),
                    r@.len() <= n,
                    views(r@) == first_keys(head + s.take(i as int).filter(p), n as int),
                decreases candidates.len() - i,
            {
                proof {
                    lemma_take_push(s, i as int);
                    Seq::lemma_filter_push(s.take(i as int), s[i as int], p);
                }
                let ghost before = head + s.take(i as int).filter(p);
                let ghost had = views(r@);
                if candidates[i].1 as u16 == c {
                    assert(head + s.take(i + 1).filter(p) =~= before.push(s[i as int]));
                    if r.len() < n {
                        r.push(copy_bytes(&candidates[i].0));
                        assert(views(r@) =~= had.push(s[i as int].0));
                    }
                    assert(had.len() == if n < before.len() { n as int } else { before.len() as int });
                    assert(views(r@) =~= first_keys(before.push(s[i as int]), n as int));
                }
                i = i + 1;
            }
            assert(s.take(s.len() as int) =~= s);
            c = c + 1;
        }
        r
    }
}

impl Default for Lethe {
    fn default() -> (l: Self)
        ensures
            l.wf(),
            l.wheels().origin == 0,
            forall|e: (Seq<u8>, u64)| !l.wheels().holds(e),
    {
        Lethe::new()
    }
}

} // verus!
