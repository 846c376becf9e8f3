//! What holds of the timing wheels over any number of calls: an entry that was
//! scheduled once is reported once at most.

use vstd::multiset::Multiset;
use vstd::prelude::*;

use crate::lethe::{cascaded, due, in_wheel_at, lemma_cursors, live, monus, put, ticks_ahead, ticks_within, Wheels};

verus! {

/// A key with the time when it expires.
pub type Timed = (Seq<u8>, u64);

/// All entries of a wheel, each as often as it stands there.
pub open spec fn wheel_entries(w: Seq<Seq<Timed>>) -> Multiset<Timed>
    decreases w.len(),
{
    if w.len() == 0 {
        Multiset::empty()
    } else {
        wheel_entries(w.drop_last()).add(w.last().to_multiset())
    }
}

/// All entries of the three wheels, each as often as it stands there.
pub open spec fn entries(w: Wheels) -> Multiset<Timed> {
    wheel_entries(w.ms).add(wheel_entries(w.s)).add(wheel_entries(w.m))
}

proof fn lemma_bucket(w: Seq<Seq<Timed>>, b: int, x: Seq<Timed>)
    requires
        0 <= b < w.len(),
    ensures
        wheel_entries(w.update(b, x)).add(w[b].to_multiset()) == wheel_entries(w).add(x.to_multiset()),
    decreases w.len(),
{
    let u = w.update(b, x);
    let rest = w.drop_last();
    let a = wheel_entries(u).add(w[b].to_multiset());
    let c = wheel_entries(w).add(x.to_multiset());
    if b == w.len() - 1 {
        assert(u.drop_last() =~= rest);
        assert(u.last() == x);
        assert(w.last() == w[b]);
        assert(a =~= c);
    } else {
        lemma_bucket(rest, b, x);
        assert(u.drop_last() =~= rest.update(b, x));
        assert(u.last() == w.last());
        let l = wheel_entries(rest.update(b, x)).add(rest[b].to_multiset());
        let r = wheel_entries(rest).add(x.to_multiset());
        assert forall|v: Timed| a.count(v) == c.count(v) by {
            assert(l.count(v) == r.count(v));
        }
        assert(a =~= c);
    }
}

proof fn lemma_put(w: Seq<Seq<Timed>>, cursor: int, ticks: int, e: Timed)
    requires
        w.len() > 0,
    ensures
        wheel_entries(put(w, cursor, ticks, e)) == wheel_entries(w).insert(e),
        put(w, cursor, ticks, e).len() == w.len(),
{
    broadcast use vstd::seq_lib::group_to_multiset_ensures;

    let b = (cursor + ticks) % (w.len() as int);
    lemma_bucket(w, b, w[b].push(e));
    let l = wheel_entries(put(w, cursor, ticks, e)).add(w[b].to_multiset());
    let r = wheel_entries(w).add(w[b].push(e).to_multiset());
    assert(w[b].push(e).to_multiset() =~= w[b].to_multiset().insert(e));
    assert forall|v: Timed| wheel_entries(put(w, cursor, ticks, e)).count(v) == wheel_entries(w).insert(e).count(v) by {
        assert(l.count(v) == r.count(v));
    }
    assert(wheel_entries(put(w, cursor, ticks, e)) =~= wheel_entries(w).insert(e));
}

proof fn lemma_parted(b: Seq<Timed>, now: u64)
    ensures
        b.to_multiset() == due(b, now).to_multiset().add(live(b, now).to_multiset()),
    decreases b.len(),
{
    broadcast use vstd::seq_lib::group_to_multiset_ensures;

    let is_due = |e: Timed| e.1 <= now;
    let is_live = |e: Timed| e.1 > now;
    if b.len() == 0 {
        assert(due(b, now) =~= Seq::empty());
        assert(live(b, now) =~= Seq::empty());
    } else {
        let a = b.drop_last();
        lemma_parted(a, now);
        assert(b =~= a.push(b.last()));
        Seq::lemma_filter_push(a, b.last(), is_due);
        Seq::lemma_filter_push(a, b.last(), is_live);
    }
    assert(b.to_multiset() =~= due(b, now).to_multiset().add(live(b, now).to_multiset()));
}

proof fn lemma_cascaded(w: Seq<Seq<Timed>>, es: Seq<Timed>, cursor: int, tick: int, now: u64)
    requires
        w.len() > 0,
    ensures
        cascaded(w, es, cursor, tick, now).len() == w.len(),
        wheel_entries(cascaded(w, es, cursor, tick, now)) == wheel_entries(w).add(es.to_multiset()),
    decreases es.len(),
{
    broadcast use vstd::seq_lib::group_to_multiset_ensures;

    if es.len() > 0 {
        let a = es.drop_last();
        lemma_cascaded(w, a, cursor, tick, now);
        lemma_put(
            cascaded(w, a, cursor, tick, now),
            cursor,
            ticks_within(es.last().1 - now, tick, w.len() as int),
            es.last(),
        );
        assert(es =~= a.push(es.last()));
    } else {
        assert(es =~= Seq::empty());
    }
    assert(wheel_entries(cascaded(w, es, cursor, tick, now)) =~= wheel_entries(w).add(es.to_multiset()));
}

proof fn lemma_ms_steps(w: Wheels, n: nat, now: u64)
    requires
        w.ms.len() == 256,
    ensures
        w.ms_steps(n, now).0.ms.len() == 256,
        w.ms_steps(n, now).0.s == w.s,
        w.ms_steps(n, now).0.m == w.m,
        w.ms_steps(n, now).1.to_multiset().add(wheel_entries(w.ms_steps(n, now).0.ms)).subset_of(wheel_entries(w.ms)),
    decreases n,
{
    broadcast use vstd::seq_lib::group_to_multiset_ensures;

    if n > 0 {
        lemma_ms_steps(w, (n - 1) as nat, now);
        let (v, out) = w.ms_steps((n - 1) as nat, now);
        let b = v.ms_cursor as int % 256;
        let bucket = v.ms[b];
        lemma_bucket(v.ms, b, Seq::empty());
        lemma_parted(bucket, now);
        vstd::seq_lib::lemma_multiset_commutative(out, due(bucket, now));
        let t = w.ms_steps(n, now);
        let l = wheel_entries(t.0.ms).add(bucket.to_multiset());
        let r = wheel_entries(v.ms).add(Seq::<Timed>::empty().to_multiset());
        assert forall|x: Timed| t.1.to_multiset().add(wheel_entries(t.0.ms)).count(x) <= wheel_entries(w.ms).count(x) by {
            assert(l.count(x) == r.count(x));
            assert(bucket.to_multiset().count(x) == due(bucket, now).to_multiset().count(x) + live(
                bucket,
                now,
            ).to_multiset().count(x));
            assert(out.to_multiset().add(wheel_entries(v.ms)).count(x) <= wheel_entries(w.ms).count(x));
        }
    }
}

proof fn lemma_s_steps(w: Wheels, n: nat, now: u64)
    requires
        w.ms.len() == 256,
        w.s.len() == 64,
    ensures
        w.s_steps(n, now).0.ms.len() == 256,
        w.s_steps(n, now).0.s.len() == 64,
        w.s_steps(n, now).0.m == w.m,
        w.s_steps(n, now).1.to_multiset().add(wheel_entries(w.s_steps(n, now).0.ms)).add(
            wheel_entries(w.s_steps(n, now).0.s),
        ) == wheel_entries(w.ms).add(wheel_entries(w.s)),
    decreases n,
{
    broadcast use vstd::seq_lib::group_to_multiset_ensures;

    let t = w.s_steps(n, now);
    if n > 0 {
        lemma_s_steps(w, (n - 1) as nat, now);
        let (v, out) = w.s_steps((n - 1) as nat, now);
        let b = v.s_cursor as int % 64;
        let bucket = v.s[b];
        lemma_bucket(v.s, b, Seq::empty());
        lemma_parted(bucket, now);
        lemma_cascaded(v.ms, live(bucket, now), v.ms_cursor as int, 10, now);
        vstd::seq_lib::lemma_multiset_commutative(out, due(bucket, now));
        let l = wheel_entries(t.0.s).add(bucket.to_multiset());
        let r = wheel_entries(v.s).add(Seq::<Timed>::empty().to_multiset());
        let before = out.to_multiset().add(wheel_entries(v.ms)).add(wheel_entries(v.s));
        let all = wheel_entries(w.ms).add(wheel_entries(w.s));
        assert forall|x: Timed|
            t.1.to_multiset().add(wheel_entries(t.0.ms)).add(wheel_entries(t.0.s)).count(x) == all.count(x) by {
            assert(l.count(x) == r.count(x));
            assert(bucket.to_multiset().count(x) == due(bucket, now).to_multiset().count(x) + live(
                bucket,
                now,
            ).to_multiset().count(x));
            assert(before.count(x) == all.count(x));
        }
    }
    assert(t.1.to_multiset().add(wheel_entries(t.0.ms)).add(wheel_entries(t.0.s)) =~= wheel_entries(w.ms).add(
        wheel_entries(w.s),
    ));
}

proof fn lemma_m_steps(w: Wheels, n: nat, now: u64)
    requires
        w.s.len() == 64,
        w.m.len() == 64,
    ensures
        w.m_steps(n, now).0.s.len() == 64,
        w.m_steps(n, now).0.m.len() == 64,
        w.m_steps(n, now).0.ms == w.ms,
        w.m_steps(n, now).1.to_multiset().add(wheel_entries(w.m_steps(n, now).0.s)).add(
            wheel_entries(w.m_steps(n, now).0.m),
        ) == wheel_entries(w.s).add(wheel_entries(w.m)),
    decreases n,
{
    broadcast use vstd::seq_lib::group_to_multiset_ensures;

    let t = w.m_steps(n, now);
    if n > 0 {
        lemma_m_steps(w, (n - 1) as nat, now);
        let (v, out) = w.m_steps((n - 1) as nat, now);
        let b = v.m_cursor as int % 64;
        let bucket = v.m[b];
        lemma_bucket(v.m, b, Seq::empty());
        lemma_parted(bucket, now);
        lemma_cascaded(v.s, live(bucket, now), v.s_cursor as int, 1000, now);
        vstd::seq_lib::lemma_multiset_commutative(out, due(bucket, now));
        let l = wheel_entries(t.0.m).add(bucket.to_multiset());
        let r = wheel_entries(v.m).add(Seq::<Timed>::empty().to_multiset());
        let before = out.to_multiset().add(wheel_entries(v.s)).add(wheel_entries(v.m));
        let all = wheel_entries(w.s).add(wheel_entries(w.m));
        assert forall|x: Timed|
            t.1.to_multiset().add(wheel_entries(t.0.s)).add(wheel_entries(t.0.m)).count(x) == all.count(x) by {
            assert(l.count(x) == r.count(x));
            assert(bucket.to_multiset().count(x) == due(bucket, now).to_multiset().count(x) + live(
                bucket,
                now,
            ).to_multiset().count(x));
            assert(before.count(x) == all.count(x));
        }
    }
    assert(t.1.to_multiset().add(wheel_entries(t.0.s)).add(wheel_entries(t.0.m)) =~= wheel_entries(w.s).add(
        wheel_entries(w.m),
    ));
}

/// Scheduling a key adds one entry, or none where it never expires.
pub proof fn law_scheduled_once(w: Wheels, key: Seq<u8>, expires_at_ms: u64, now: u64)
    requires
        w.wf(),
    ensures
        w.scheduled(key, expires_at_ms, now).wf(),
        entries(w.scheduled(key, expires_at_ms, now)) == if expires_at_ms == 0 {
            entries(w)
        } else {
            entries(w).insert((key, expires_at_ms))
        },
{
    let delta = monus(expires_at_ms as int, now as int);
    let x = (key, expires_at_ms);
    lemma_put(w.ms, w.ms_cursor as int, ticks_ahead(delta, 10), x);
    lemma_put(w.s, w.s_cursor as int, ticks_ahead(delta, 1000), x);
    lemma_put(w.m, w.m_cursor as int, ticks_within(delta, 60000, 64), x);
    if expires_at_ms != 0 {
        assert(entries(w.scheduled(key, expires_at_ms, now)) =~= entries(w).insert(x));
    }
}

/// What a tick reports and what stays make up no more than what was there: no
/// entry is reported twice, nor reported and kept.
pub proof fn law_ticked_once(w: Wheels, now: u64)
    requires
        w.wf(),
        w.may_tick(now),
    ensures
        w.ticked(now).0.wf(),
        w.ticked(now).1.to_multiset().add(entries(w.ticked(now).0)).subset_of(entries(w)),
{
    broadcast use vstd::seq_lib::group_to_multiset_ensures;

    if w.origin == 0 {
        let t = w.ticked(now);
        assert(t.1.to_multiset().add(entries(t.0)) =~= entries(w));
    } else {
        let t = w.elapsed(now);
        let n1 = Wheels::advance(t / 10, w.ms_cursor, 256);
        let n2 = Wheels::advance(t / 1000, w.s_cursor, 64);
        let n3 = Wheels::advance(t / 60000, w.m_cursor, 64);
        let (w1, o1) = w.ms_steps(n1, now);
        let (w2, o2) = w1.s_steps(n2, now);
        let (w3, o3) = w2.m_steps(n3, now);
        lemma_cursors(w, n1, now);
        lemma_cursors(w1, n2, now);
        lemma_cursors(w2, n3, now);
        lemma_ms_steps(w, n1, now);
        lemma_s_steps(w1, n2, now);
        lemma_m_steps(w2, n3, now);
        vstd::seq_lib::lemma_multiset_commutative(o1, o2);
        vstd::seq_lib::lemma_multiset_commutative(o1 + o2, o3);
        let a1 = o1.to_multiset().add(wheel_entries(w1.ms));
        let a2 = o2.to_multiset().add(wheel_entries(w2.ms)).add(wheel_entries(w2.s));
        let b2 = wheel_entries(w1.ms).add(wheel_entries(w1.s));
        let a3 = o3.to_multiset().add(wheel_entries(w3.s)).add(wheel_entries(w3.m));
        let b3 = wheel_entries(w2.s).add(wheel_entries(w2.m));
        let out = (o1 + o2 + o3).to_multiset();
        assert forall|x: Timed| out.add(entries(w3)).count(x) <= entries(w).count(x) by {
            assert(a1.count(x) <= wheel_entries(w.ms).count(x));
            assert(a2.count(x) == b2.count(x));
            assert(a3.count(x) == b3.count(x));
        }
    }
}

/// A call on the wheels.
pub enum WheelEvent {
    Scheduled { key: Seq<u8>, at: u64, now: u64 },
    Ticked { now: u64 },
}

/// The wheels after calls in turn.
pub open spec fn wheels_after(w: Wheels, calls: Seq<WheelEvent>) -> Wheels
    decreases calls.len(),
{
    if calls.len() == 0 {
        w
    } else {
        let v = wheels_after(w, calls.drop_last());
        match calls.last() {
            WheelEvent::Scheduled { key, at, now } => v.scheduled(key, at, now),
            WheelEvent::Ticked { now } => v.ticked(now).0,
        }
    }
}

/// Every tick comes when no cursor is ahead of its time.
pub open spec fn ticks_in_time(w: Wheels, calls: Seq<WheelEvent>) -> bool
    decreases calls.len(),
{
    calls.len() > 0 ==> {
        &&& ticks_in_time(w, calls.drop_last())
        &&& calls.last() matches WheelEvent::Ticked { now } ==> wheels_after(w, calls.drop_last()).may_tick(now)
    }
}

/// All that was scheduled to expire, as often as it was.
pub open spec fn all_scheduled(calls: Seq<WheelEvent>) -> Multiset<Timed>
    decreases calls.len(),
{
    if calls.len() == 0 {
        Multiset::empty()
    } else {
        let before = all_scheduled(calls.drop_last());
        match calls.last() {
            WheelEvent::Scheduled { key, at, .. } => if at == 0 {
                before
            } else {
                before.insert((key, at))
            },
            WheelEvent::Ticked { .. } => before,
        }
    }
}

/// All that was reported, as often as it was.
pub open spec fn all_reported(w: Wheels, calls: Seq<WheelEvent>) -> Multiset<Timed>
    decreases calls.len(),
{
    if calls.len() == 0 {
        Multiset::empty()
    } else {
        let before = all_reported(w, calls.drop_last());
        match calls.last() {
            WheelEvent::Scheduled { .. } => before,
            WheelEvent::Ticked { now } => before.add(
                wheels_after(w, calls.drop_last()).ticked(now).1.to_multiset(),
            ),
        }
    }
}

/// Over any number of calls on wheels that were empty at first, every report
/// has a call of its own that scheduled it: none that was never scheduled, none
/// without end, and none twice for one call.
pub proof fn law_reported_once(w: Wheels, calls: Seq<WheelEvent>)
    requires
        w.wf(),
        entries(w).len() == 0,
        ticks_in_time(w, calls),
    ensures
        wheels_after(w, calls).wf(),
        all_reported(w, calls).add(entries(wheels_after(w, calls))).subset_of(all_scheduled(calls)),
        forall|e: Timed| #[trigger] all_reported(w, calls).count(e) > 0 ==> e.1 > 0,
    decreases calls.len(),
{
    if calls.len() == 0 {
        assert(entries(w) =~= Multiset::empty());
        assert(all_reported(w, calls).add(entries(w)) =~= all_scheduled(calls));
    } else {
        law_reported_once(w, calls.drop_last());
        let v = wheels_after(w, calls.drop_last());
        let r = all_reported(w, calls.drop_last());
        let s = all_scheduled(calls.drop_last());
        match calls.last() {
            WheelEvent::Scheduled { key, at, now } => {
                law_scheduled_once(v, key, at, now);
                assert forall|x: Timed|
                    all_reported(w, calls).add(entries(wheels_after(w, calls))).count(x) <= all_scheduled(calls).count(x) by {
                    assert(r.add(entries(v)).count(x) <= s.count(x));
                }
            },
            WheelEvent::Ticked { now } => {
                law_ticked_once(v, now);
                let t = v.ticked(now);
                assert forall|x: Timed|
                    all_reported(w, calls).add(entries(wheels_after(w, calls))).count(x) <= all_scheduled(calls).count(x) by {
                    assert(r.add(entries(v)).count(x) <= s.count(x));
                    assert(t.1.to_multiset().add(entries(t.0)).count(x) <= entries(v).count(x));
                }
            },
        }
    }
    assert forall|e: Timed| #[trigger] all_reported(w, calls).count(e) > 0 implies e.1 > 0 by {
        assert(all_reported(w, calls).add(entries(wheels_after(w, calls))).count(e) <= all_scheduled(calls).count(e));
        lemma_scheduled_ends(calls, e);
    }
}

proof fn lemma_scheduled_ends(calls: Seq<WheelEvent>, e: Timed)
    ensures
        all_scheduled(calls).count(e) > 0 ==> e.1 > 0,
    decreases calls.len(),
{
    if calls.len() > 0 {
        lemma_scheduled_ends(calls.drop_last(), e);
    }
}

/// New wheels hold nothing.
pub proof fn law_empty_wheels(w: Wheels)
    requires
        forall|e: Timed| !w.holds(e),
    ensures
        entries(w).len() == 0,
{
    assert forall|b: int, i: int| 0 <= b < w.ms.len() && 0 <= i < w.ms[b].len() implies w.holds(#[trigger] w.ms[b][i]) by {
        assert(in_wheel_at(w.ms, w.ms[b][i], b, i));
    }
    assert forall|b: int, i: int| 0 <= b < w.s.len() && 0 <= i < w.s[b].len() implies w.holds(#[trigger] w.s[b][i]) by {
        assert(in_wheel_at(w.s, w.s[b][i], b, i));
    }
    assert forall|b: int, i: int| 0 <= b < w.m.len() && 0 <= i < w.m[b].len() implies w.holds(#[trigger] w.m[b][i]) by {
        assert(in_wheel_at(w.m, w.m[b][i], b, i));
    }
    lemma_empty_wheel(w, w.ms);
    lemma_empty_wheel(w, w.s);
    lemma_empty_wheel(w, w.m);
    assert(entries(w) =~= Multiset::empty());
}

proof fn lemma_empty_wheel(w: Wheels, x: Seq<Seq<Timed>>)
    requires
        forall|e: Timed| !w.holds(e),
        forall|b: int, i: int| 0 <= b < x.len() && 0 <= i < x[b].len() ==> w.holds(#[trigger] x[b][i]),
    ensures
        wheel_entries(x) == Multiset::<Timed>::empty(),
    decreases x.len(),
{
    broadcast use vstd::seq_lib::group_to_multiset_ensures;

    if x.len() > 0 {
        let y = x.drop_last();
        assert forall|b: int, i: int| 0 <= b < y.len() && 0 <= i < y[b].len() implies w.holds(#[trigger] y[b][i]) by {
            assert(y[b][i] == x[b][i]);
        }
        lemma_empty_wheel(w, y);
        if x.last().len() > 0 {
            assert(w.holds(x[x.len() - 1][0]));
        }
        assert(x.last() =~= Seq::empty());
    }
    assert(wheel_entries(x) =~= Multiset::empty());
}

} // verus!
