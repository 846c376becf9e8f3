//! Delphi keeps the slow commands in a ring of fixed size and makes the events
//! that monitors are sent.

use vstd::prelude::*;

use crate::bytes::copy_bytes;

verus! {

/// A command that took long.
#[derive(Debug)]
pub struct SlowEntry {
    /// Microseconds since the start of the process.
    pub elapsed_us: u64,
    pub cmd: String,
    pub key: Vec<u8>,
    pub duration_us: u64,
}

/// A command as monitors see it, however fast it was.
#[derive(Debug)]
pub struct MonitorEvent {
    pub elapsed_us: u64,
    pub cmd: String,
    pub key: Vec<u8>,
    pub duration_us: u64,
}

/// What is said of a command.
pub struct CommandView {
    pub elapsed_us: u64,
    pub cmd: Seq<char>,
    pub key: Seq<u8>,
    pub duration_us: u64,
}

impl View for SlowEntry {
    type V = CommandView;

    open spec fn view(&self) -> CommandView {
        CommandView {
            elapsed_us: self.elapsed_us,
            cmd: self.cmd@,
            key: self.key@,
            duration_us: self.duration_us,
        }
    }
}

impl View for MonitorEvent {
    type V = CommandView;

    open spec fn view(&self) -> CommandView {
        CommandView {
            elapsed_us: self.elapsed_us,
            cmd: self.cmd@,
            key: self.key@,
            duration_us: self.duration_us,
        }
    }
}

impl Clone for SlowEntry {
    fn clone(&self) -> (r: Self)
        ensures
            r@ == self@,
    {
        SlowEntry {
            elapsed_us: self.elapsed_us,
            cmd: self.cmd.clone(),
            key: copy_bytes(&self.key),
            duration_us: self.duration_us,
        }
    }
}

/// What a list of slow commands says.
pub open spec fn slow_views(s: Seq<SlowEntry>) -> Seq<CommandView> {
    s.map_values(|e: SlowEntry| e@)
}

/// The list after one more, of which at most `cap` are kept: the oldest goes.
pub open spec fn ring_pushed<T>(s: Seq<T>, item: T, cap: int) -> Seq<T> {
    if s.len() < cap {
        s.push(item)
    } else {
        s.drop_first().push(item)
    }
}

/// The last `n` of a list, the newest first.
pub open spec fn newest<T>(s: Seq<T>, n: int) -> Seq<T> {
    Seq::new(
        (if n < s.len() {
            n
        } else {
            s.len() as int
        }) as nat,
        |i: int| s[s.len() - 1 - i],
    )
}

/// The newest items of a ring that took items in turn are the last items, as
/// far as the ring has room.
pub proof fn law_newest_after_push<T>(s: Seq<T>, item: T, cap: int, n: int)
    requires
        cap >= 1,
        0 < n <= cap,
        s.len() <= cap,
    ensures
        newest(ring_pushed(s, item, cap), n) == seq![item] + newest(s, n - 1),
{
    let t = ring_pushed(s, item, cap);
    assert(newest(t, n) =~= seq![item] + newest(s, n - 1));
}

/// A ring after items were pushed in turn, since it was made or cleared.
pub open spec fn ring_of<T>(items: Seq<T>, cap: int) -> Seq<T>
    decreases items.len(),
{
    if items.len() == 0 {
        items
    } else {
        ring_pushed(ring_of(items.drop_last(), cap), items.last(), cap)
    }
}

proof fn lemma_ring_of<T>(items: Seq<T>, cap: int)
    requires
        cap >= 1,
    ensures
        ring_of(items, cap) == items.skip(
            if items.len() <= cap {
                0
            } else {
                items.len() - cap
            },
        ),
    decreases items.len(),
{
    if items.len() > 0 {
        lemma_ring_of(items.drop_last(), cap);
    }
    assert(ring_of(items, cap) =~= items.skip(
        if items.len() <= cap {
            0
        } else {
            items.len() - cap
        },
    ));
}

/// Of all items that were pushed since a ring was made or cleared, the newest
/// come back, the newest first and without gaps: as many as are asked for, as
/// were pushed, and as the ring has room for.
pub proof fn law_newest_of_all_pushes<T>(items: Seq<T>, cap: int, n: int)
    requires
        cap >= 1,
        n >= 0,
    ensures
        newest(ring_of(items, cap), n) == newest(
            items,
            if n < cap {
                n
            } else {
                cap
            },
        ),
{
    lemma_ring_of(items, cap);
    assert(newest(ring_of(items, cap), n) =~= newest(
        items,
        if n < cap {
            n
        } else {
            cap
        },
    ));
}

/// A ring that keeps the newest items. The item that stands `i` places behind
/// the oldest is found `i` places on, wrapping round at the end.
#[derive(Debug)]
pub struct RingBuf<T> {
    buf: Vec<Option<T>>,
    head: usize,
    len: usize,
}

spec fn wrapped(p: int, cap: int) -> int {
    if p >= cap {
        p - cap
    } else {
        p
    }
}

impl<T: Clone> RingBuf<T> {
    /// How many items are kept.
    pub closed spec fn cap(&self) -> int {
        self.buf@.len() as int
    }

    /// Where the oldest item stands.
    spec fn oldest(&self) -> int {
        if self.head >= self.len {
            self.head - self.len
        } else {
            self.head + self.cap() - self.len
        }
    }

    /// Where the item stands that is the `i`th from the oldest.
    spec fn slot(&self, i: int) -> int {
        wrapped(self.oldest() + i, self.cap())
    }

    pub closed spec fn wf(&self) -> bool {
        &&& 1 <= self.cap() <= isize::MAX
        &&& self.head < self.cap()
        &&& self.len <= self.cap()
        &&& forall|i: int| 0 <= i < self.len ==> (#[trigger] self.buf@[self.slot(i)]) is Some
    }

    /// The items, the oldest first.
    pub closed spec fn items(&self) -> Seq<T> {
        Seq::new(self.len as nat, |i: int| self.buf@[self.slot(i)]->0)
    }

    /// An empty ring with room for `cap` items, and at least one.
    pub fn new(cap: usize) -> (r: Self)
        requires
            cap <= isize::MAX,
        ensures
            r.wf(),
            r.cap() == if cap < 1 {
                1
            } else {
                cap as int
            },
            r.items() == Seq::<T>::empty(),
    {
        let total: usize = if cap < 1 {
            1
        } else {
            cap
        };
        let mut buf: Vec<Option<T>> = Vec::new();
        while buf.len() < total
            invariant
                buf@.len() <= total,
            decreases total - buf@.len(),
        {
            buf.push(None);
        }
        let r = RingBuf { buf, head: 0, len: 0 };
        assert(r.items() =~= Seq::empty());
        r
    }

    /// Takes an item. A full ring loses its oldest.
    pub fn push(&mut self, item: T)
        requires
            old(self).wf(),
        ensures
            final(self).wf(),
            final(self).cap() == old(self).cap(),
            final(self).items() == ring_pushed(old(self).items(), item, old(self).cap()),
    {
        let cap: usize = self.buf.len();
        let ghost before = *self;
        self.buf.set(self.head, Some(item));
        self.head = if self.head + 1 == cap {
            0
        } else {
            self.head + 1
        };
        if self.len < cap {
            self.len = self.len + 1;
        }
        proof {
            let dropped: int = if before.len < cap {
                0
            } else {
                1
            };
            assert forall|i: int| 0 <= i < self.len - 1 implies self.slot(i) == before.slot(i + dropped) && self.slot(i)
                != before.head && 0 <= before.slot(i + dropped) < cap by {}
            assert(self.slot(self.len - 1) == before.head);
            assert forall|i: int| 0 <= i < self.len implies (#[trigger] self.buf@[self.slot(i)]) is Some by {
                if i < self.len - 1 {
                    assert(before.buf@[before.slot(i + dropped)] is Some);
                    assert(self.buf@[self.slot(i)] == before.buf@[before.slot(i + dropped)]);
                }
            }
            assert(self.items() =~= ring_pushed(before.items(), item, before.cap()));
        }
    }

    /// Clones of up to `n` items, the newest first.
    pub fn recent(&self, n: usize) -> (r: Vec<T>)
        requires
            self.wf(),
        ensures
            r@.len() == newest(self.items(), n as int).len(),
            forall|i: int| 0 <= i < r@.len() ==> cloned(newest(self.items(), n as int)[i], #[trigger] r@[i]),
    {
        let cap: usize = self.buf.len();
        let take: usize = if n < self.len {
            n
        } else {
            self.len
        };
        let mut out: Vec<T> = Vec::new();
        let mut i: usize = 0;
        while i < take
            invariant
                i <= take,
                take <= self.len,
                cap == self.cap(),
                self.wf(),
                out@.len() == i,
                forall|j: int| 0 <= j < i ==> cloned(self.items()[self.len - 1 - j], #[trigger] out@[j]),
            decreases take - i,
        {
            let back: usize = i + 1;
            let idx: usize = if self.head >= back {
                self.head - back
            } else {
                self.head + (cap - back)
            };
            proof {
                assert(idx == self.slot(self.len - 1 - i));
                assert(self.buf@[self.slot(self.len - 1 - i)] is Some);
            }
            match &self.buf[idx] {
                Some(item) => {
                    out.push(item.clone());
                },
                None => {},
            }
            i = i + 1;
        }
        out
    }

    /// Forgets all items.
    pub fn clear(&mut self)
        requires
            old(self).wf(),
        ensures
            final(self).wf(),
            final(self).cap() == old(self).cap(),
            final(self).items() == Seq::<T>::empty(),
    {
        let mut i: usize = 0;
        while i < self.buf.len()
            invariant
                i <= self.buf@.len(),
                self.buf@.len() == old(self).buf@.len(),
            decreases self.buf@.len() - i,
        {
            self.buf.set(i, None);
            i = i + 1;
        }
        self.head = 0;
        self.len = 0;
        assert(self.items() =~= Seq::empty());
    }
}

/// The slow log.
#[derive(Debug)]
pub struct Delphi {
    threshold_us: u64,
    ring: RingBuf<SlowEntry>,
}

impl Delphi {
    pub closed spec fn wf(&self) -> bool {
        self.ring.wf()
    }

    /// The shortest time that counts as slow.
    pub closed spec fn threshold(&self) -> u64 {
        self.threshold_us
    }

    /// How many slow commands are kept.
    pub closed spec fn room(&self) -> int {
        self.ring.cap()
    }

    /// The slow commands that are kept, the oldest first.
    pub closed spec fn slow(&self) -> Seq<CommandView> {
        slow_views(self.ring.items())
    }

    /// Keeps the last `max_entries` slow commands, and at least one.
    pub fn new(threshold_us: u64, max_entries: usize) -> (r: Delphi)
        requires
            max_entries <= isize::MAX,
        ensures
            r.wf(),
            r.threshold() == threshold_us,
            r.room() == if max_entries < 1 {
                1
            } else {
                max_entries as int
            },
            r.slow() == Seq::<CommandView>::empty(),
    {
        let r = Delphi { threshold_us, ring: RingBuf::new(max_entries) };
        assert(r.slow() =~= Seq::empty());
        r
    }

    /// A command was completed `elapsed_us` after the start. It is kept if it
    /// was slow. The event goes to the monitors in any case.
    pub fn record(&mut self, cmd: &str, key: &[u8], duration_us: u64, elapsed_us: u64) -> (event: MonitorEvent)
        requires
            old(self).wf(),
        ensures
            final(self).wf(),
            final(self).threshold() == old(self).threshold(),
            final(self).room() == old(self).room(),
            event@ == (CommandView { elapsed_us, cmd: cmd@, key: key@, duration_us }),
            final(self).slow() == (if duration_us >= old(self).threshold() {
                ring_pushed(old(self).slow(), event@, old(self).room())
            } else {
                old(self).slow()
            }),
            final(self).slow() == with_command(old(self).slow(), event@, old(self).threshold(), old(self).room()),
    {
        if duration_us >= self.threshold_us {
            let entry = SlowEntry { elapsed_us, cmd: cmd.to_string(), key: copy_bytes(key), duration_us };
            let ghost before = self.ring.items();
            self.ring.push(entry);
            assert(slow_views(ring_pushed(before, entry, self.ring.cap())) =~= ring_pushed(
                slow_views(before),
                entry@,
                self.ring.cap(),
            ));
        }
        MonitorEvent { elapsed_us, cmd: cmd.to_string(), key: copy_bytes(key), duration_us }
    }

    /// Up to `count` of the slow commands, the newest first.
    pub fn get_slowlog(&self, count: usize) -> (r: Vec<SlowEntry>)
        requires
            self.wf(),
        ensures
            slow_views(r@) == newest(self.slow(), count as int),
    {
        let r = self.ring.recent(count);
        assert(slow_views(r@) =~= newest(self.slow(), count as int)) by {
            let kept = newest(self.ring.items(), count as int);
            assert forall|i: int| 0 <= i < r@.len() implies (#[trigger] r@[i])@ == kept[i]@ by {
                assert(cloned(kept[i], r@[i]));
            }
        }
        r
    }

    /// Forgets the slow commands.
    pub fn reset_slowlog(&mut self)
        requires
            old(self).wf(),
        ensures
            final(self).wf(),
            final(self).threshold() == old(self).threshold(),
            final(self).room() == old(self).room(),
            final(self).slow() == Seq::<CommandView>::empty(),
    {
        self.ring.clear();
        assert(self.slow() =~= Seq::empty());
    }
}

/// The slow commands after one more command was completed.
pub open spec fn with_command(slow: Seq<CommandView>, c: CommandView, threshold: u64, room: int) -> Seq<CommandView> {
    if c.duration_us >= threshold {
        ring_pushed(slow, c, room)
    } else {
        slow
    }
}

/// A command that took as long as the threshold, or longer, is the newest of the
/// slow ones; a shorter one is not kept. As long as there is room, none is
/// forgotten.
pub proof fn law_slow_commands_are_kept(slow: Seq<CommandView>, c: CommandView, threshold: u64, room: int)
    requires
        room >= 1,
        slow.len() <= room,
    ensures
        c.duration_us < threshold ==> with_command(slow, c, threshold, room) == slow,
        c.duration_us >= threshold ==> with_command(slow, c, threshold, room).last() == c,
        c.duration_us >= threshold && slow.len() < room ==> with_command(slow, c, threshold, room).drop_last() == slow,
        with_command(slow, c, threshold, room).len() <= room,
{
    if c.duration_us >= threshold && slow.len() < room {
        assert(with_command(slow, c, threshold, room).drop_last() =~= slow);
    }
}

} // verus!
