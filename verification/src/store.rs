//! The commands on data: what each does to the store, and what it answers.

use std::collections::VecDeque;

use vstd::prelude::*;

use crate::bytes::{copy_bytes, copy_pairs, pair_views, views};
use crate::data::{
    all_finite, by_score, field_value, find_field, find_member, hash_del, hash_set, in_scores, list_push,
    list_range, members_finite, members_in, names, names_between, pushed, range_bounds, range_of, rank_of, score_of,
    scored, scored_between, sort_members, with_fields, with_scores, without_fields, without_members, zset_del, zset_set,
};
use crate::iris::{slot_of, Iris};
use crate::lethe::{keys_of, lfu_after_use, xorshift, FastRand, Lethe, Wheels};
use crate::listing::listing;
use crate::pool::{
    all_db_keys, db_key, live_entry, make_db_key, lemma_wrap_diff, weight, weight_of, wrap, Pool,
};
use crate::proto::{push_views, PushKeyPayload, PushView};
use crate::reply::{answer, ok_str, option_views, Reply, ReplyView};
use crate::value::{member_views, Entry, EntryView, ErrorView, MnemeError, Value, ValueView, ZSetMember};

verus! {

/// The store: the pool, the timing wheels and the generator that use counters
/// draw from.
pub struct Store {
    pub pool: Pool,
    pub lethe: Lethe,
    pub rng: FastRand,
}

/// What the store holds.
pub struct StoreView {
    pub map: Map<Seq<u8>, EntryView>,
    pub used: u64,
    pub limit: u64,
    pub wheels: Wheels,
    pub rng: u64,
}

impl View for Store {
    type V = StoreView;

    open spec fn view(&self) -> StoreView {
        StoreView {
            map: self.pool.map(),
            used: self.pool.used(),
            limit: self.pool.limit(),
            wheels: self.lethe.wheels(),
            rng: self.rng.state,
        }
    }
}

/// A use counter after one more use, and the generator. The generator is
/// asked only where chance decides.
pub open spec fn touched(counter: u8, rng: u64) -> (u8, u64) {
    if 5 <= counter < 255 {
        (lfu_after_use(counter, xorshift(rng)), xorshift(rng))
    } else {
        (lfu_after_use(counter, 0), rng)
    }
}

/// Whole seconds until an entry expires: -1 without expiry, and 0 where the
/// time left exceeds the range of a signed number of milliseconds.
pub open spec fn seconds_left(e: EntryView, now: u64) -> int {
    if e.expires_at_ms == 0 {
        -1
    } else if e.expires_at_ms - now > i64::MAX {
        0
    } else {
        (e.expires_at_ms - now) / 1000
    }
}

/// One entry that was kept on disk: key, value, expiry and slot.
pub open spec fn recovered_view(r: (Vec<u8>, Value, u64, u16)) -> (Seq<u8>, ValueView, u64, u16) {
    (r.0@, r.1@, r.2, r.3)
}

impl StoreView {
    /// The entry of a key whose time is not over.
    pub open spec fn live(self, k: Seq<u8>, now: u64) -> Option<EntryView> {
        live_entry(self.map, k, now)
    }

    /// There is no room for more.
    pub open spec fn full(self) -> bool {
        self.used >= self.limit
    }

    /// An entry put in place of what was there.
    pub open spec fn put(self, k: Seq<u8>, e: EntryView) -> StoreView {
        StoreView {
            map: self.map.insert(k, e),
            used: wrap(self.used + weight(k, e) - (if self.map.contains_key(k) { weight(k, self.map[k]) } else { 0 })),
            ..self
        }
    }

    /// A key removed.
    pub open spec fn removed(self, k: Seq<u8>) -> StoreView {
        StoreView {
            map: self.map.remove(k),
            used: if self.map.contains_key(k) { wrap(self.used - weight(k, self.map[k])) } else { self.used },
            ..self
        }
    }

    /// A database emptied.
    pub open spec fn flushed(self, db_id: u16) -> StoreView {
        StoreView {
            map: self.map.remove_keys(all_db_keys(self.map, db_id)),
            used: wrap(self.used - weight_of(self.map, all_db_keys(self.map, db_id))),
            ..self
        }
    }

    /// A key scheduled to expire.
    pub open spec fn scheduled(self, key: Seq<u8>, at: u64, now: u64) -> StoreView {
        StoreView { wheels: self.wheels.scheduled(key, at, now), ..self }
    }

    /// A value put under key `k` with a time to live (0 for none).
    pub open spec fn put_for(self, k: Seq<u8>, value: ValueView, slot: u16, ttl_ms: u64, now: u64) -> StoreView {
        let e = EntryView::fresh(value, slot);
        if ttl_ms > 0 {
            self.scheduled(k, e.expiring(ttl_ms, now).expires_at_ms, now).put(k, e.expiring(ttl_ms, now))
        } else {
            self.put(k, e)
        }
    }

    // ---- strings and keys ----

    /// A live value, whose use is counted.
    pub open spec fn read(self, k: Seq<u8>, now: u64) -> (StoreView, Option<ValueView>) {
        match self.live(k, now) {
            None => (self.removed(k), None),
            Some(e) => {
                let (counter, rng) = touched(e.lfu_counter, self.rng);
                (StoreView { rng, ..self.put(k, EntryView { lfu_counter: counter, ..e }) }, Some(e.value))
            },
        }
    }

    pub open spec fn get(self, db_id: u16, key: Seq<u8>, now: u64) -> (StoreView, Result<ReplyView, ErrorView>) {
        match self.read(db_key(db_id, key), now) {
            (s, None) => (s, Err(ErrorView::KeyNotFound)),
            (s, Some(v)) => (s, Ok(ReplyView::Value(v))),
        }
    }

    pub open spec fn set(self, db_id: u16, key: Seq<u8>, value: ValueView, ttl_ms: u64, now: u64) -> (
        StoreView,
        Result<ReplyView, ErrorView>,
        Seq<PushView>,
    ) {
        if self.full() {
            (self, Err(ErrorView::OutOfMemory), Seq::empty())
        } else {
            (
                self.put_for(db_key(db_id, key), value, slot_of(key), ttl_ms, now),
                Ok(ReplyView::Text("OK"@)),
                seq![PushView::write(db_key(db_id, key), value, ttl_ms, slot_of(key), db_id)],
            )
        }
    }

    /// Removes keys in turn: the store, how many were there, and what is
    /// replicated.
    pub open spec fn del_all(self, db_id: u16, keys: Seq<Seq<u8>>) -> (StoreView, nat, Seq<PushView>)
        decreases keys.len(),
    {
        if keys.len() == 0 {
            (self, 0, Seq::empty())
        } else {
            let (s, n, pushes) = self.del_all(db_id, keys.drop_last());
            let key = keys.last();
            let k = db_key(db_id, key);
            if s.map.contains_key(k) {
                (s.removed(k), n + 1, pushes.push(PushView::tombstone(k, slot_of(key), db_id)))
            } else {
                (s, n, pushes)
            }
        }
    }

    pub open spec fn del(self, db_id: u16, keys: Seq<Seq<u8>>) -> (StoreView, Result<ReplyView, ErrorView>, Seq<PushView>) {
        let (s, n, pushes) = self.del_all(db_id, keys);
        (s, Ok(ReplyView::Count(n as int)), pushes)
    }

    pub open spec fn has_key(self, db_id: u16, key: Seq<u8>, now: u64) -> ReplyView {
        ReplyView::Flag(self.live(db_key(db_id, key), now) is Some)
    }

    pub open spec fn expire(self, db_id: u16, key: Seq<u8>, seconds: u64, now: u64) -> (
        StoreView,
        Result<ReplyView, ErrorView>,
        Seq<PushView>,
    ) {
        let k = db_key(db_id, key);
        let ttl = (seconds * 1000) as u64;
        match self.live(k, now) {
            None => (self.removed(k), Ok(ReplyView::Count(0)), Seq::empty()),
            Some(e) => (
                self.scheduled(k, (now + ttl) as u64, now).put(
                    k,
                    EntryView { expires_at_ms: (now + ttl) as u64, ..e },
                ),
                Ok(ReplyView::Count(1)),
                if ttl == 0 && now > 0 {
                    Seq::empty()
                } else {
                    seq![PushView::write(k, e.value, ttl, slot_of(key), db_id)]
                },
            ),
        }
    }

    pub open spec fn ttl(self, db_id: u16, key: Seq<u8>, now: u64) -> ReplyView {
        match self.live(db_key(db_id, key), now) {
            None => ReplyView::Number(-2),
            Some(e) => ReplyView::Number(seconds_left(e, now)),
        }
    }

    pub open spec fn getset(self, db_id: u16, key: Seq<u8>, value: ValueView, now: u64) -> (StoreView, Result<ReplyView, ErrorView>) {
        let k = db_key(db_id, key);
        (
            self.put(k, EntryView::fresh(value, slot_of(key))),
            Ok(
                match self.live(k, now) {
                    Some(e) => ReplyView::Value(e.value),
                    None => ReplyView::NoValue,
                },
            ),
        )
    }

    /// Reads keys in turn.
    pub open spec fn read_all(self, db_id: u16, keys: Seq<Seq<u8>>, now: u64) -> (StoreView, Seq<Option<ValueView>>)
        decreases keys.len(),
    {
        if keys.len() == 0 {
            (self, Seq::empty())
        } else {
            let (s, values) = self.read_all(db_id, keys.drop_last(), now);
            let (t, v) = s.read(db_key(db_id, keys.last()), now);
            (t, values.push(v))
        }
    }

    pub open spec fn mget(self, db_id: u16, keys: Seq<Seq<u8>>, now: u64) -> (StoreView, Result<ReplyView, ErrorView>) {
        let (s, values) = self.read_all(db_id, keys, now);
        (s, Ok(ReplyView::Values(values)))
    }

    /// Sets keys in turn.
    pub open spec fn set_all(self, db_id: u16, pairs: Seq<(Seq<u8>, ValueView, u64)>, now: u64) -> (StoreView, Seq<PushView>)
        decreases pairs.len(),
    {
        if pairs.len() == 0 {
            (self, Seq::empty())
        } else {
            let (s, pushes) = self.set_all(db_id, pairs.drop_last(), now);
            let (key, value, ttl) = pairs.last();
            (
                s.put_for(db_key(db_id, key), value, slot_of(key), ttl, now),
                pushes.push(PushView::write(db_key(db_id, key), value, ttl, slot_of(key), db_id)),
            )
        }
    }

    pub open spec fn mset(self, db_id: u16, pairs: Seq<(Seq<u8>, ValueView, u64)>, now: u64) -> (
        StoreView,
        Result<ReplyView, ErrorView>,
        Seq<PushView>,
    ) {
        if self.full() {
            (self, Err(ErrorView::OutOfMemory), Seq::empty())
        } else {
            let (s, pushes) = self.set_all(db_id, pairs, now);
            (s, Ok(ReplyView::Text("OK"@)), pushes)
        }
    }

    // ---- hashes ----

    pub open spec fn hset(self, db_id: u16, key: Seq<u8>, pairs: Seq<(Seq<u8>, Seq<u8>)>, now: u64) -> (StoreView, Result<ReplyView, ErrorView>) {
        let k = db_key(db_id, key);
        if self.full() {
            (self, Err(ErrorView::OutOfMemory))
        } else {
            match self.live(k, now) {
                None => (
                    self.put(k, EntryView::fresh(ValueView::Hash(pairs), slot_of(key))),
                    Ok(ReplyView::Count(pairs.len() as int)),
                ),
                Some(e) => match e.value {
                    ValueView::Hash(h) => (
                        self.put(k, EntryView { value: ValueView::Hash(with_fields(h, pairs)), ..e }),
                        Ok(ReplyView::Count(with_fields(h, pairs).len() - h.len())),
                    ),
                    _ => (self, Ok(ReplyView::Count(0))),
                },
            }
        }
    }

    pub open spec fn hget(self, db_id: u16, key: Seq<u8>, field: Seq<u8>, now: u64) -> Result<ReplyView, ErrorView> {
        match self.live(db_key(db_id, key), now) {
            None => Err(ErrorView::KeyNotFound),
            Some(e) => match e.value {
                ValueView::Hash(h) => match field_value(h, field) {
                    Some(v) => Ok(ReplyView::Bytes(v)),
                    None => Err(ErrorView::KeyNotFound),
                },
                other => Err(ErrorView::WrongType("hash"@, other.kind())),
            },
        }
    }

    pub open spec fn hdel(self, db_id: u16, key: Seq<u8>, fields: Seq<Seq<u8>>, now: u64) -> (StoreView, Result<ReplyView, ErrorView>) {
        let k = db_key(db_id, key);
        match self.live(k, now) {
            None => (self.removed(k), Ok(ReplyView::Count(0))),
            Some(e) => match e.value {
                ValueView::Hash(h) => (
                    self.put(k, EntryView { value: ValueView::Hash(without_fields(h, fields)), ..e }),
                    Ok(ReplyView::Count(h.len() - without_fields(h, fields).len())),
                ),
                _ => (self, Ok(ReplyView::Count(0))),
            },
        }
    }

    pub open spec fn hgetall(self, db_id: u16, key: Seq<u8>, now: u64) -> Result<ReplyView, ErrorView> {
        match self.live(db_key(db_id, key), now) {
            None => Ok(ReplyView::Pairs(Seq::empty())),
            Some(e) => match e.value {
                ValueView::Hash(h) => Ok(ReplyView::Pairs(h)),
                other => Err(ErrorView::WrongType("hash"@, other.kind())),
            },
        }
    }

    // ---- lists ----

    pub open spec fn push_list(self, db_id: u16, key: Seq<u8>, values: Seq<Seq<u8>>, front: bool, now: u64) -> (
        StoreView,
        Result<ReplyView, ErrorView>,
    ) {
        let k = db_key(db_id, key);
        if self.full() {
            (self, Err(ErrorView::OutOfMemory))
        } else {
            match self.live(k, now) {
                None => (
                    self.put(
                        k,
                        EntryView::fresh(ValueView::List(pushed(Seq::empty(), values, front)), slot_of(key)),
                    ),
                    Ok(ReplyView::Count(values.len() as int)),
                ),
                Some(e) => match e.value {
                    ValueView::List(l) => (
                        self.put(k, EntryView { value: ValueView::List(pushed(l, values, front)), ..e }),
                        Ok(ReplyView::Count((l.len() + values.len()) as int)),
                    ),
                    _ => (self, Ok(ReplyView::Count(0))),
                },
            }
        }
    }

    pub open spec fn pop_list(self, db_id: u16, key: Seq<u8>, front: bool, now: u64) -> (StoreView, Result<ReplyView, ErrorView>) {
        let k = db_key(db_id, key);
        match self.live(k, now) {
            None => (self.removed(k), Err(ErrorView::KeyNotFound)),
            Some(e) => match e.value {
                ValueView::List(l) => if l.len() == 0 {
                    (self, Err(ErrorView::KeyNotFound))
                } else if front {
                    (
                        self.put(k, EntryView { value: ValueView::List(l.drop_first()), ..e }),
                        Ok(ReplyView::Bytes(l.first())),
                    )
                } else {
                    (
                        self.put(k, EntryView { value: ValueView::List(l.drop_last()), ..e }),
                        Ok(ReplyView::Bytes(l.last())),
                    )
                },
                _ => (self, Err(ErrorView::KeyNotFound)),
            },
        }
    }

    pub open spec fn lrange(self, db_id: u16, key: Seq<u8>, start: i64, stop: i64, now: u64) -> Result<ReplyView, ErrorView> {
        match self.live(db_key(db_id, key), now) {
            None => Ok(ReplyView::BytesList(Seq::empty())),
            Some(e) => match e.value {
                ValueView::List(l) => Ok(ReplyView::BytesList(range_of(l, start as int, stop as int))),
                other => Err(ErrorView::WrongType("list"@, other.kind())),
            },
        }
    }

    // ---- sorted sets ----

    pub open spec fn zadd(self, db_id: u16, key: Seq<u8>, members: Seq<(u64, Seq<u8>)>, now: u64) -> (StoreView, Result<ReplyView, ErrorView>) {
        let k = db_key(db_id, key);
        if self.full() {
            (self, Err(ErrorView::OutOfMemory))
        } else if !all_finite(members) {
            (self, Err(ErrorView::Protocol("NaN or Inf scores are not allowed in sorted sets"@)))
        } else {
            match self.live(k, now) {
                None => (
                    self.put(k, EntryView::fresh(ValueView::ZSet(members), slot_of(key))),
                    Ok(ReplyView::Count(members.len() as int)),
                ),
                Some(e) => match e.value {
                    ValueView::ZSet(z) => (
                        self.put(k, EntryView { value: ValueView::ZSet(with_scores(z, members)), ..e }),
                        Ok(ReplyView::Count(with_scores(z, members).len() - z.len())),
                    ),
                    _ => (self, Ok(ReplyView::Count(0))),
                },
            }
        }
    }

    pub open spec fn zrank(self, db_id: u16, key: Seq<u8>, member: Seq<u8>, now: u64) -> Result<ReplyView, ErrorView> {
        match self.live(db_key(db_id, key), now) {
            None => Err(ErrorView::KeyNotFound),
            Some(e) => match e.value {
                ValueView::ZSet(z) => match rank_of(z, member) {
                    Some(r) => Ok(ReplyView::Count(r)),
                    None => Err(ErrorView::KeyNotFound),
                },
                _ => Err(ErrorView::KeyNotFound),
            },
        }
    }

    pub open spec fn zrange(self, db_id: u16, key: Seq<u8>, start: i64, stop: i64, with_scores: bool, now: u64) -> Result<ReplyView, ErrorView> {
        match self.live(db_key(db_id, key), now) {
            None => Ok(ReplyView::BytesList(Seq::empty())),
            Some(e) => match e.value {
                ValueView::ZSet(z) => {
                    let picked = range_of(by_score(z), start as int, stop as int);
                    Ok(
                        if with_scores && picked.len() > 0 {
                            ReplyView::Scored(scored(picked))
                        } else {
                            ReplyView::BytesList(names(picked))
                        },
                    )
                },
                other => Err(ErrorView::WrongType("zset"@, other.kind())),
            },
        }
    }

    pub open spec fn zrangebyscore(self, db_id: u16, key: Seq<u8>, min: u64, max: u64, now: u64) -> Result<ReplyView, ErrorView> {
        match self.live(db_key(db_id, key), now) {
            None => Ok(ReplyView::BytesList(Seq::empty())),
            Some(e) => match e.value {
                ValueView::ZSet(z) => Ok(ReplyView::BytesList(names(by_score(in_scores(z, min, max))))),
                other => Err(ErrorView::WrongType("zset"@, other.kind())),
            },
        }
    }

    pub open spec fn zcard(self, db_id: u16, key: Seq<u8>, now: u64) -> ReplyView {
        match self.live(db_key(db_id, key), now) {
            None => ReplyView::Count(0),
            Some(e) => match e.value {
                ValueView::ZSet(z) => ReplyView::Count(z.len() as int),
                _ => ReplyView::Count(0),
            },
        }
    }

    pub open spec fn zrem(self, db_id: u16, key: Seq<u8>, members: Seq<Seq<u8>>, now: u64) -> (StoreView, Result<ReplyView, ErrorView>) {
        let k = db_key(db_id, key);
        match self.live(k, now) {
            None => (self.removed(k), Ok(ReplyView::Count(0))),
            Some(e) => match e.value {
                ValueView::ZSet(z) => (
                    self.put(k, EntryView { value: ValueView::ZSet(without_members(z, members)), ..e }),
                    Ok(ReplyView::Count(z.len() - without_members(z, members).len())),
                ),
                _ => (self, Ok(ReplyView::Count(0))),
            },
        }
    }

    pub open spec fn zscore(self, db_id: u16, key: Seq<u8>, member: Seq<u8>, now: u64) -> Result<ReplyView, ErrorView> {
        match self.live(db_key(db_id, key), now) {
            None => Err(ErrorView::KeyNotFound),
            Some(e) => match e.value {
                ValueView::ZSet(z) => match score_of(z, member) {
                    Some(s) => Ok(ReplyView::Score(s)),
                    None => Err(ErrorView::KeyNotFound),
                },
                _ => Err(ErrorView::KeyNotFound),
            },
        }
    }

    // ---- counters ----

    /// Adds to a counter; a missing key counts as zero.
    pub open spec fn counter_op(self, db_id: u16, key: Seq<u8>, delta: int, now: u64) -> (StoreView, Result<ReplyView, ErrorView>) {
        let k = db_key(db_id, key);
        match self.live(k, now) {
            None => (
                self.put(k, EntryView::fresh(ValueView::Counter(delta as i64), slot_of(key))),
                Ok(ReplyView::Number(delta)),
            ),
            Some(e) => match e.value.number() {
                None => (self, Err(ErrorView::WrongType("counter"@, e.value.kind()))),
                Some(n) => if i64::MIN <= n + delta <= i64::MAX {
                    (
                        self.put(k, EntryView { value: ValueView::Counter((n + delta) as i64), ..e }),
                        Ok(ReplyView::Number(n + delta)),
                    )
                } else {
                    (self, Err(ErrorView::Protocol("counter overflow"@)))
                },
            },
        }
    }

    // ---- replication ----

    /// A replicated write applied: a value set, a database emptied (a removal
    /// whose key is nothing but a database number), or a key removed.
    pub open spec fn applied(self, p: PushView, now: u64) -> StoreView {
        if !p.deleted {
            self.put_for(p.key, p.value, p.slot, p.ttl_ms, now)
        } else if p.key.len() == 2 {
            self.flushed(p.db_id)
        } else {
            self.removed(p.key)
        }
    }

    /// Entries that were kept on disk put back, except those whose time is
    /// over: the store, and how many were put back and how many not.
    pub open spec fn restored(self, r: Seq<(Seq<u8>, ValueView, u64, u16)>, now: u64) -> (StoreView, nat, nat)
        decreases r.len(),
    {
        if r.len() == 0 {
            (self, 0, 0)
        } else {
            let (s, back, gone) = self.restored(r.drop_last(), now);
            let (key, value, at, slot) = r.last();
            if 0 < at <= now {
                (s, back, gone + 1)
            } else if at > 0 {
                (
                    s.scheduled(key, at, now).put(key, EntryView { expires_at_ms: at, ..EntryView::fresh(value, slot) }),
                    back + 1,
                    gone,
                )
            } else {
                (s.put(key, EntryView::fresh(value, slot)), back + 1, gone)
            }
        }
    }

    /// A key removed if its time is over. One that was given more time, or no
    /// end, since it was scheduled stays.
    pub open spec fn cleared(self, k: Seq<u8>, now: u64) -> StoreView {
        if self.map.contains_key(k) && self.map[k].expired(now) {
            self.removed(k)
        } else {
            self
        }
    }

    /// Keys whose time is over removed in turn.
    pub open spec fn cleared_all(self, keys: Seq<Seq<u8>>, now: u64) -> StoreView
        decreases keys.len(),
    {
        if keys.len() == 0 {
            self
        } else {
            self.cleared_all(keys.drop_last(), now).cleared(keys.last(), now)
        }
    }

    /// How many of these keys are removed if they are cleared in turn.
    pub open spec fn cleared_count(self, keys: Seq<Seq<u8>>, now: u64) -> nat
        decreases keys.len(),
    {
        if keys.len() == 0 {
            0
        } else {
            let s = self.cleared_all(keys.drop_last(), now);
            let over = s.map.contains_key(keys.last()) && s.map[keys.last()].expired(now);
            self.cleared_count(keys.drop_last(), now) + if over {
                1nat
            } else {
                0nat
            }
        }
    }

    /// The wheels moved on, and the keys removed that they report and whose
    /// time is over.
    pub open spec fn expired_at(self, now: u64) -> StoreView {
        let (w, due) = self.wheels.ticked(now);
        StoreView { wheels: w, ..self }.cleared_all(keys_of(due), now)
    }

    /// How many keys go when the wheels move on.
    pub open spec fn expired_count(self, now: u64) -> nat {
        let (w, due) = self.wheels.ticked(now);
        StoreView { wheels: w, ..self }.cleared_count(keys_of(due), now)
    }
}

/// Putting an entry back that was taken out is putting it in place of what was
/// there; putting it back unchanged leaves everything as it was.
pub proof fn lemma_put_back(s: StoreView, k: Seq<u8>)
    ensures
        forall|e: EntryView| #[trigger] s.removed(k).put(k, e) == s.put(k, e),
        s.map.contains_key(k) ==> s.put(k, s.map[k]) == s,
{
    assert forall|e: EntryView| #[trigger] s.removed(k).put(k, e) == s.put(k, e) by {
        let w = if s.map.contains_key(k) { weight(k, s.map[k]) } else { 0 };
        lemma_wrap_diff(s.used - w, weight(k, e));
        assert(s.removed(k).put(k, e).map =~= s.put(k, e).map);
        if !s.map.contains_key(k) {
            assert(s.map.remove(k) =~= s.map);
        }
    }
    if s.map.contains_key(k) {
        assert(s.map.insert(k, s.map[k]) =~= s.map);
    }
}

impl Store {
    pub open spec fn wf(&self) -> bool {
        self.pool.wf() && self.lethe.wf()
    }

    /// An empty store with room for `max_bytes`.
    pub fn new(max_bytes: u64) -> (s: Self)
        ensures
            s.wf(),
            s@.map == Map::<Seq<u8>, EntryView>::empty(),
            s@.used == 0,
            s@.limit == max_bytes,
            s@.wheels.origin == 0,
            forall|e: (Seq<u8>, u64)| !s@.wheels.holds(e),
    {
        Store { pool: Pool::new(max_bytes), lethe: Lethe::new(), rng: FastRand::new() }
    }

    /// Counts one more use.
    fn touch(counter: u8, rng: &mut FastRand) -> (r: u8)
        ensures
            (r, final(rng).state) == touched(counter, old(rng).state),
    {
        if counter < 5 || counter == 255 {
            Lethe::increment_lfu(counter, 0)
        } else {
            let rand: u64 = rng.fast_rand_u64();
            Lethe::increment_lfu(counter, rand)
        }
    }

    /// Takes the entry of a key out, if its time is not over.
    pub(crate) fn take(&mut self, k: &[u8], now_ms: u64) -> (r: Option<Entry>)
        requires
            old(self).wf(),
        ensures
            final(self).wf(),
            final(self)@ == old(self)@.removed(k@),
            final(self).rng == old(self).rng,
            match old(self)@.live(k@, now_ms) {
                Some(e) => r matches Some(x) && x@ == e,
                None => r is None,
            },
    {
        self.pool.take(k, now_ms)
    }

    /// Puts an entry in place of what is there.
    pub(crate) fn put(&mut self, k: Vec<u8>, e: Entry)
        requires
            old(self).wf(),
        ensures
            final(self).wf(),
            final(self)@ == old(self)@.put(k@, e@),
    {
        self.pool.set(k, e);
    }

    /// A live value, whose use is counted.
    fn read(&mut self, k: &[u8], now_ms: u64) -> (r: Option<Value>)
        requires
            old(self).wf(),
        ensures
            final(self).wf(),
            (final(self)@, crate::reply::option_view(r)) == old(self)@.read(k@, now_ms),
    {
        proof {
            lemma_put_back(self@, k@);
        }
        match self.take(k, now_ms) {
            None => None,
            Some(mut e) => {
                e.lfu_counter = Self::touch(e.lfu_counter, &mut self.rng);
                let v = e.value.clone();
                let ghost x = e@;
                self.put(copy_bytes(k), e);
                assert(self@ == StoreView { rng: self.rng.state, ..old(self)@.removed(k@).put(k@, x) });
                Some(v)
            },
        }
    }

    /// Puts a value under key `k` with a time to live.
    fn put_for(&mut self, k: Vec<u8>, value: Value, slot: u16, ttl_ms: u64, now_ms: u64)
        requires
            old(self).wf(),
        ensures
            final(self).wf(),
            final(self)@ == old(self)@.put_for(k@, value@, slot, ttl_ms, now_ms),
    {
        let mut entry = Entry::new(value, slot);
        if ttl_ms > 0 {
            entry = entry.with_ttl(ttl_ms, now_ms);
            self.lethe.schedule(copy_bytes(&k), entry.expires_at_ms, now_ms);
        }
        self.pool.set(k, entry);
    }

    pub fn get(&mut self, db_id: u16, key: &[u8], now_ms: u64) -> (r: Result<Reply, MnemeError>)
        requires
            old(self).wf(),
        ensures
            final(self).wf(),
            (final(self)@, answer(r)) == old(self)@.get(db_id, key@, now_ms),
    {
        let k: Vec<u8> = make_db_key(db_id, key);
        match self.read(&k, now_ms) {
            None => Err(MnemeError::KeyNotFound),
            Some(v) => Ok(Reply::Value(v)),
        }
    }

    pub fn set(&mut self, db_id: u16, key: &[u8], value: Value, ttl_ms: u64, now_ms: u64) -> (r: (
        Result<Reply, MnemeError>,
        Vec<PushKeyPayload>,
    ))
        requires
            old(self).wf(),
        ensures
            final(self).wf(),
            (final(self)@, answer(r.0), push_views(r.1@)) == old(self)@.set(db_id, key@, value@, ttl_ms, now_ms),
    {
        let mut pushes: Vec<PushKeyPayload> = Vec::new();
        if self.pool.is_full() {
            assert(push_views(pushes@) =~= Seq::empty());
            return (Err(MnemeError::OutOfMemory), pushes);
        }
        let slot: u16 = Iris::slot_for(key);
        let copy = value.clone();
        self.put_for(make_db_key(db_id, key), value, slot, ttl_ms, now_ms);
        pushes.push(PushKeyPayload::write(make_db_key(db_id, key), copy, ttl_ms, slot, db_id));
        assert(push_views(pushes@) =~= seq![PushView::write(db_key(db_id, key@), value@, ttl_ms, slot, db_id)]);
        (ok_str(), pushes)
    }

    pub fn del(&mut self, db_id: u16, keys: &Vec<Vec<u8>>) -> (r: (Result<Reply, MnemeError>, Vec<PushKeyPayload>))
        requires
            old(self).wf(),
        ensures
            final(self).wf(),
            (final(self)@, answer(r.0), push_views(r.1@)) == old(self)@.del(db_id, views(keys@)),
    {
        let mut pushes: Vec<PushKeyPayload> = Vec::new();
        let mut deleted: u64 = 0;
        let mut i: usize = 0;
        assert(push_views(pushes@) =~= Seq::empty());
        while i < keys.len()
            invariant
                i <= keys.len(),
                deleted <= i,
                self.wf(),
                (self@, deleted as nat, push_views(pushes@)) == old(self)@.del_all(db_id, views(keys@).take(i as int)),
            decreases keys.len() - i,
        {
            let ghost before = self@;
            let ghost had = push_views(pushes@);
            proof {
                assert(views(keys@).take(i + 1).drop_last() =~= views(keys@).take(i as int));
            }
            let k: Vec<u8> = make_db_key(db_id, &keys[i]);
            if self.pool.del(&k) {
                deleted = deleted + 1;
                let slot: u16 = Iris::slot_for(&keys[i]);
                pushes.push(PushKeyPayload::tombstone(k, slot, db_id));
                assert(push_views(pushes@) =~= had.push(
                    PushView::tombstone(db_key(db_id, keys@[i as int]@), slot, db_id),
                ));
                assert(self@ == before.removed(db_key(db_id, keys@[i as int]@)));
            } else {
                assert(self@.map =~= before.map);
            }
            i = i + 1;
        }
        assert(views(keys@).take(keys@.len() as int) =~= views(keys@));
        (Ok(Reply::Count(deleted)), pushes)
    }

    pub fn has_key(&self, db_id: u16, key: &[u8], now_ms: u64) -> (r: Reply)
        requires
            self.wf(),
        ensures
            r@ == self@.has_key(db_id, key@, now_ms),
    {
        Reply::Flag(self.pool.get(&make_db_key(db_id, key), now_ms).is_some())
    }

    pub fn expire(&mut self, db_id: u16, key: &[u8], seconds: u64, now_ms: u64) -> (r: (
        Result<Reply, MnemeError>,
        Vec<PushKeyPayload>,
    ))
        requires
            old(self).wf(),
            now_ms + seconds * 1000 <= u64::MAX,
        ensures
            final(self).wf(),
            (final(self)@, answer(r.0), push_views(r.1@)) == old(self)@.expire(db_id, key@, seconds, now_ms),
    {
        let mut pushes: Vec<PushKeyPayload> = Vec::new();
        assert(push_views(pushes@) =~= Seq::empty());
        let ttl_ms: u64 = seconds * 1000;
        let k: Vec<u8> = make_db_key(db_id, key);
        proof {
            lemma_put_back(self@, k@);
        }
        match self.take(&k, now_ms) {
            None => (Ok(Reply::Count(0)), pushes),
            Some(mut e) => {
                e.expires_at_ms = now_ms + ttl_ms;
                self.lethe.schedule(copy_bytes(&k), e.expires_at_ms, now_ms);
                if !e.is_expired(now_ms) {
                    let slot: u16 = Iris::slot_for(key);
                    let value = e.value.clone();
                    pushes.push(PushKeyPayload::write(copy_bytes(&k), value, ttl_ms, slot, db_id));
                    assert(push_views(pushes@) =~= seq![
                        PushView::write(db_key(db_id, key@), value@, ttl_ms, slot, db_id),
                    ]);
                }
                let ghost x = e@;
                self.put(k, e);
                assert(self@ == StoreView { wheels: self@.wheels, ..old(self)@.removed(k@).put(k@, x) });
                (Ok(Reply::Count(1)), pushes)
            },
        }
    }

    pub fn ttl(&self, db_id: u16, key: &[u8], now_ms: u64) -> (r: Reply)
        requires
            self.wf(),
        ensures
            r@ == self@.ttl(db_id, key@, now_ms),
    {
        match self.pool.get(&make_db_key(db_id, key), now_ms) {
            None => Reply::Number(-2),
            Some(e) => if e.expires_at_ms == 0 {
                Reply::Number(-1)
            } else {
                let left: u64 = e.expires_at_ms - now_ms;
                if left > 0x7fff_ffff_ffff_ffff {
                    Reply::Number(0)
                } else {
                    Reply::Number((left / 1000) as i64)
                }
            },
        }
    }

    pub fn getset(&mut self, db_id: u16, key: &[u8], value: Value, now_ms: u64) -> (r: Result<Reply, MnemeError>)
        requires
            old(self).wf(),
        ensures
            final(self).wf(),
            (final(self)@, answer(r)) == old(self)@.getset(db_id, key@, value@, now_ms),
    {
        let slot: u16 = Iris::slot_for(key);
        let k: Vec<u8> = make_db_key(db_id, key);
        let previous = self.pool.get(&k, now_ms);
        self.put(k, Entry::new(value, slot));
        match previous {
            Some(e) => Ok(Reply::Value(e.value)),
            None => Ok(Reply::NoValue),
        }
    }

    pub fn mget(&mut self, db_id: u16, keys: &Vec<Vec<u8>>, now_ms: u64) -> (r: Result<Reply, MnemeError>)
        requires
            old(self).wf(),
        ensures
            final(self).wf(),
            (final(self)@, answer(r)) == old(self)@.mget(db_id, views(keys@), now_ms),
    {
        let mut values: Vec<Option<Value>> = Vec::new();
        let mut i: usize = 0;
        assert(option_views(values@) =~= Seq::empty());
        while i < keys.len()
            invariant
                i <= keys.len(),
                self.wf(),
                (self@, option_views(values@)) == old(self)@.read_all(db_id, views(keys@).take(i as int), now_ms),
            decreases keys.len() - i,
        {
            let ghost had = option_views(values@);
            proof {
                assert(views(keys@).take(i + 1).drop_last() =~= views(keys@).take(i as int));
            }
            let v = self.read(&make_db_key(db_id, &keys[i]), now_ms);
            let ghost seen = crate::reply::option_view(v);
            values.push(v);
            assert(option_views(values@) =~= had.push(seen));
            i = i + 1;
        }
        assert(views(keys@).take(keys@.len() as int) =~= views(keys@));
        Ok(Reply::Values(values))
    }

    pub fn mset(&mut self, db_id: u16, pairs: &Vec<(Vec<u8>, Value, u64)>, now_ms: u64) -> (r: (
        Result<Reply, MnemeError>,
        Vec<PushKeyPayload>,
    ))
        requires
            old(self).wf(),
        ensures
            final(self).wf(),
            (final(self)@, answer(r.0), push_views(r.1@)) == old(self)@.mset(db_id, triple_views(pairs@), now_ms),
    {
        let mut pushes: Vec<PushKeyPayload> = Vec::new();
        assert(push_views(pushes@) =~= Seq::empty());
        if self.pool.is_full() {
            return (Err(MnemeError::OutOfMemory), pushes);
        }
        let mut i: usize = 0;
        while i < pairs.len()
            invariant
                i <= pairs.len(),
                self.wf(),
                (self@, push_views(pushes@)) == old(self)@.set_all(db_id, triple_views(pairs@).take(i as int), now_ms),
            decreases pairs.len() - i,
        {
            let ghost had = push_views(pushes@);
            proof {
                assert(triple_views(pairs@).take(i + 1).drop_last() =~= triple_views(pairs@).take(i as int));
            }
            let slot: u16 = Iris::slot_for(&pairs[i].0);
            let ttl_ms: u64 = pairs[i].2;
            self.put_for(make_db_key(db_id, &pairs[i].0), pairs[i].1.clone(), slot, ttl_ms, now_ms);
            pushes.push(
                PushKeyPayload::write(make_db_key(db_id, &pairs[i].0), pairs[i].1.clone(), ttl_ms, slot, db_id),
            );
            assert(push_views(pushes@) =~= had.push(
                PushView::write(db_key(db_id, pairs@[i as int].0@), pairs@[i as int].1@, ttl_ms, slot, db_id),
            ));
            i = i + 1;
        }
        assert(triple_views(pairs@).take(pairs@.len() as int) =~= triple_views(pairs@));
        (ok_str(), pushes)
    }

    // ---- hashes ----

    pub fn hset(&mut self, db_id: u16, key: &[u8], pairs: Vec<(Vec<u8>, Vec<u8>)>, now_ms: u64) -> (r: Result<Reply, MnemeError>)
        requires
            old(self).wf(),
        ensures
            final(self).wf(),
            (final(self)@, answer(r)) == old(self)@.hset(db_id, key@, pair_views(pairs@), now_ms),
    {
        if self.pool.is_full() {
            return Err(MnemeError::OutOfMemory);
        }
        let slot: u16 = Iris::slot_for(key);
        let k: Vec<u8> = make_db_key(db_id, key);
        proof {
            lemma_put_back(self@, k@);
        }
        match self.take(&k, now_ms) {
            Some(mut e) => {
                let added: u64 = match &mut e.value {
                    Value::Hash(h) => hash_set(h, &pairs),
                    _ => 0,
                };
                self.put(k, e);
                Ok(Reply::Count(added))
            },
            None => {
                let count: u64 = pairs.len() as u64;
                self.put(k, Entry::new(Value::Hash(pairs), slot));
                Ok(Reply::Count(count))
            },
        }
    }

    pub fn hget(&self, db_id: u16, key: &[u8], field: &[u8], now_ms: u64) -> (r: Result<Reply, MnemeError>)
        requires
            self.wf(),
        ensures
            answer(r) == self@.hget(db_id, key@, field@, now_ms),
    {
        match self.pool.get(&make_db_key(db_id, key), now_ms) {
            None => Err(MnemeError::KeyNotFound),
            Some(e) => match &e.value {
                Value::Hash(h) => {
                    let i: usize = find_field(h, field);
                    if i < h.len() {
                        Ok(Reply::Bytes(copy_bytes(&h[i].1)))
                    } else {
                        Err(MnemeError::KeyNotFound)
                    }
                },
                other => Err(MnemeError::WrongType { expected: "hash", got: other.kind() }),
            },
        }
    }

    pub fn hdel(&mut self, db_id: u16, key: &[u8], fields: &Vec<Vec<u8>>, now_ms: u64) -> (r: Result<Reply, MnemeError>)
        requires
            old(self).wf(),
        ensures
            final(self).wf(),
            (final(self)@, answer(r)) == old(self)@.hdel(db_id, key@, views(fields@), now_ms),
    {
        let k: Vec<u8> = make_db_key(db_id, key);
        proof {
            lemma_put_back(self@, k@);
        }
        match self.take(&k, now_ms) {
            Some(mut e) => {
                let removed: u64 = match &mut e.value {
                    Value::Hash(h) => hash_del(h, fields),
                    _ => 0,
                };
                self.put(k, e);
                Ok(Reply::Count(removed))
            },
            None => Ok(Reply::Count(0)),
        }
    }

    pub fn hgetall(&self, db_id: u16, key: &[u8], now_ms: u64) -> (r: Result<Reply, MnemeError>)
        requires
            self.wf(),
        ensures
            answer(r) == self@.hgetall(db_id, key@, now_ms),
    {
        match self.pool.get(&make_db_key(db_id, key), now_ms) {
            None => {
                let none: Vec<(Vec<u8>, Vec<u8>)> = Vec::new();
                assert(pair_views(none@) =~= Seq::empty());
                Ok(Reply::Pairs(none))
            },
            Some(e) => match &e.value {
                Value::Hash(h) => Ok(Reply::Pairs(copy_pairs(h))),
                other => Err(MnemeError::WrongType { expected: "hash", got: other.kind() }),
            },
        }
    }

    // ---- lists ----

    pub fn push_list(&mut self, db_id: u16, key: &[u8], values: &Vec<Vec<u8>>, front: bool, now_ms: u64) -> (r: Result<Reply, MnemeError>)
        requires
            old(self).wf(),
        ensures
            final(self).wf(),
            (final(self)@, answer(r)) == old(self)@.push_list(db_id, key@, views(values@), front, now_ms),
    {
        if self.pool.is_full() {
            return Err(MnemeError::OutOfMemory);
        }
        let slot: u16 = Iris::slot_for(key);
        let k: Vec<u8> = make_db_key(db_id, key);
        proof {
            lemma_put_back(self@, k@);
        }
        match self.take(&k, now_ms) {
            Some(mut e) => {
                let len: u64 = match &mut e.value {
                    Value::List(l) => {
                        let ghost before = views(l@);
                        list_push(l, values, front);
                        assert(views(l@).len() == before.len() + values@.len());
                        l.len() as u64
                    },
                    _ => 0,
                };
                self.put(k, e);
                Ok(Reply::Count(len))
            },
            None => {
                let mut l: VecDeque<Vec<u8>> = VecDeque::new();
                assert(views(l@) =~= Seq::empty());
                list_push(&mut l, values, front);
                assert(views(l@).len() == values@.len());
                let len: u64 = l.len() as u64;
                self.put(k, Entry::new(Value::List(l), slot));
                Ok(Reply::Count(len))
            },
        }
    }

    pub fn pop_list(&mut self, db_id: u16, key: &[u8], front: bool, now_ms: u64) -> (r: Result<Reply, MnemeError>)
        requires
            old(self).wf(),
        ensures
            final(self).wf(),
            (final(self)@, answer(r)) == old(self)@.pop_list(db_id, key@, front, now_ms),
    {
        let k: Vec<u8> = make_db_key(db_id, key);
        proof {
            lemma_put_back(self@, k@);
        }
        let popped: Option<Vec<u8>> = match self.take(&k, now_ms) {
            Some(mut e) => {
                let x: Option<Vec<u8>> = match &mut e.value {
                    Value::List(l) => {
                        let ghost before = views(l@);
                        let x = if front {
                            l.pop_front()
                        } else {
                            l.pop_back()
                        };
                        proof {
                            if before.len() > 0 {
                                assert(views(l@) =~= if front { before.drop_first() } else { before.drop_last() });
                            } else {
                                assert(views(l@) =~= before);
                            }
                        }
                        x
                    },
                    _ => None,
                };
                self.put(k, e);
                x
            },
            None => None,
        };
        match popped {
            Some(v) => Ok(Reply::Bytes(v)),
            None => Err(MnemeError::KeyNotFound),
        }
    }

    pub fn lrange(&self, db_id: u16, key: &[u8], start: i64, stop: i64, now_ms: u64) -> (r: Result<Reply, MnemeError>)
        requires
            self.wf(),
        ensures
            answer(r) == self@.lrange(db_id, key@, start, stop, now_ms),
    {
        match self.pool.get(&make_db_key(db_id, key), now_ms) {
            None => {
                let none: Vec<Vec<u8>> = Vec::new();
                assert(views(none@) =~= Seq::empty());
                Ok(Reply::BytesList(none))
            },
            Some(e) => match &e.value {
                Value::List(l) => Ok(Reply::BytesList(list_range(l, start, stop))),
                other => Err(MnemeError::WrongType { expected: "list", got: other.kind() }),
            },
        }
    }

    // ---- sorted sets ----

    pub fn zadd(&mut self, db_id: u16, key: &[u8], members: Vec<ZSetMember>, now_ms: u64) -> (r: Result<Reply, MnemeError>)
        requires
            old(self).wf(),
        ensures
            final(self).wf(),
            (final(self)@, answer(r)) == old(self)@.zadd(db_id, key@, member_views(members@), now_ms),
    {
        if self.pool.is_full() {
            return Err(MnemeError::OutOfMemory);
        }
        if !members_finite(&members) {
            return Err(MnemeError::Protocol("NaN or Inf scores are not allowed in sorted sets".to_string()));
        }
        let slot: u16 = Iris::slot_for(key);
        let k: Vec<u8> = make_db_key(db_id, key);
        proof {
            lemma_put_back(self@, k@);
        }
        match self.take(&k, now_ms) {
            Some(mut e) => {
                let added: u64 = match &mut e.value {
                    Value::ZSet(z) => zset_set(z, &members),
                    _ => 0,
                };
                self.put(k, e);
                Ok(Reply::Count(added))
            },
            None => {
                let count: u64 = members.len() as u64;
                self.put(k, Entry::new(Value::ZSet(members), slot));
                Ok(Reply::Count(count))
            },
        }
    }

    pub fn zrank(&self, db_id: u16, key: &[u8], member: &[u8], now_ms: u64) -> (r: Result<Reply, MnemeError>)
        requires
            self.wf(),
        ensures
            answer(r) == self@.zrank(db_id, key@, member@, now_ms),
    {
        match self.pool.get(&make_db_key(db_id, key), now_ms) {
            None => Err(MnemeError::KeyNotFound),
            Some(e) => match &e.value {
                Value::ZSet(z) => {
                    let sorted = sort_members(z);
                    let i: usize = find_member(&sorted, member);
                    if i < sorted.len() {
                        Ok(Reply::Count(i as u64))
                    } else {
                        Err(MnemeError::KeyNotFound)
                    }
                },
                _ => Err(MnemeError::KeyNotFound),
            },
        }
    }

    pub fn zrange(&self, db_id: u16, key: &[u8], start: i64, stop: i64, with_scores: bool, now_ms: u64) -> (r: Result<Reply, MnemeError>)
        requires
            self.wf(),
        ensures
            answer(r) == self@.zrange(db_id, key@, start, stop, with_scores, now_ms),
    {
        match self.pool.get(&make_db_key(db_id, key), now_ms) {
            None => {
                let none: Vec<Vec<u8>> = Vec::new();
                assert(views(none@) =~= Seq::empty());
                Ok(Reply::BytesList(none))
            },
            Some(e) => match &e.value {
                Value::ZSet(z) => {
                    let sorted = sort_members(z);
                    let (first, end) = range_bounds(start, stop, sorted.len());
                    if with_scores && first < end {
                        Ok(Reply::Scored(scored_between(&sorted, first, end)))
                    } else {
                        Ok(Reply::BytesList(names_between(&sorted, first, end)))
                    }
                },
                other => Err(MnemeError::WrongType { expected: "zset", got: other.kind() }),
            },
        }
    }

    pub fn zrangebyscore(&self, db_id: u16, key: &[u8], min: u64, max: u64, now_ms: u64) -> (r: Result<Reply, MnemeError>)
        requires
            self.wf(),
        ensures
            answer(r) == self@.zrangebyscore(db_id, key@, min, max, now_ms),
    {
        match self.pool.get(&make_db_key(db_id, key), now_ms) {
            None => {
                let none: Vec<Vec<u8>> = Vec::new();
                assert(views(none@) =~= Seq::empty());
                Ok(Reply::BytesList(none))
            },
            Some(e) => match &e.value {
                Value::ZSet(z) => {
                    let sorted = sort_members(&members_in(z, min, max));
                    let ghost all = member_views(sorted@);
                    assert(all.subrange(0, all.len() as int) =~= all);
                    Ok(Reply::BytesList(names_between(&sorted, 0, sorted.len())))
                },
                other => Err(MnemeError::WrongType { expected: "zset", got: other.kind() }),
            },
        }
    }

    pub fn zcard(&self, db_id: u16, key: &[u8], now_ms: u64) -> (r: Reply)
        requires
            self.wf(),
        ensures
            r@ == self@.zcard(db_id, key@, now_ms),
    {
        match self.pool.get(&make_db_key(db_id, key), now_ms) {
            None => Reply::Count(0),
            Some(e) => match &e.value {
                Value::ZSet(z) => Reply::Count(z.len() as u64),
                _ => Reply::Count(0),
            },
        }
    }

    pub fn zrem(&mut self, db_id: u16, key: &[u8], members: &Vec<Vec<u8>>, now_ms: u64) -> (r: Result<Reply, MnemeError>)
        requires
            old(self).wf(),
        ensures
            final(self).wf(),
            (final(self)@, answer(r)) == old(self)@.zrem(db_id, key@, views(members@), now_ms),
    {
        let k: Vec<u8> = make_db_key(db_id, key);
        proof {
            lemma_put_back(self@, k@);
        }
        match self.take(&k, now_ms) {
            Some(mut e) => {
                let removed: u64 = match &mut e.value {
                    Value::ZSet(z) => zset_del(z, members),
                    _ => 0,
                };
                self.put(k, e);
                Ok(Reply::Count(removed))
            },
            None => Ok(Reply::Count(0)),
        }
    }

    pub fn zscore(&self, db_id: u16, key: &[u8], member: &[u8], now_ms: u64) -> (r: Result<Reply, MnemeError>)
        requires
            self.wf(),
        ensures
            answer(r) == self@.zscore(db_id, key@, member@, now_ms),
    {
        match self.pool.get(&make_db_key(db_id, key), now_ms) {
            None => Err(MnemeError::KeyNotFound),
            Some(e) => match &e.value {
                Value::ZSet(z) => {
                    let i: usize = find_member(z, member);
                    if i < z.len() {
                        Ok(Reply::Score(z[i].score))
                    } else {
                        Err(MnemeError::KeyNotFound)
                    }
                },
                _ => Err(MnemeError::KeyNotFound),
            },
        }
    }

    // ---- counters ----

    /// Adds to a counter; a missing key counts as zero.
    pub fn counter_op(&mut self, db_id: u16, key: &[u8], delta: i64, now_ms: u64) -> (r: Result<Reply, MnemeError>)
        requires
            old(self).wf(),
        ensures
            final(self).wf(),
            (final(self)@, answer(r)) == old(self)@.counter_op(db_id, key@, delta as int, now_ms),
    {
        let slot: u16 = Iris::slot_for(key);
        let k: Vec<u8> = make_db_key(db_id, key);
        proof {
            lemma_put_back(self@, k@);
        }
        match self.take(&k, now_ms) {
            Some(mut e) => {
                let r = e.value.incrby(delta);
                self.put(k, e);
                match r {
                    Ok(n) => Ok(Reply::Number(n)),
                    Err(err) => Err(err),
                }
            },
            None => {
                self.put(k, Entry::new(Value::Counter(delta), slot));
                Ok(Reply::Number(delta))
            },
        }
    }

    // ---- replication and time ----

    /// Applies a replicated write.
    pub fn apply(&mut self, push: PushKeyPayload, now_ms: u64)
        requires
            old(self).wf(),
        ensures
            final(self).wf(),
            final(self)@ == old(self)@.applied(push@, now_ms),
    {
        if !push.deleted {
            self.put_for(push.key, push.value, push.slot, push.ttl_ms, now_ms);
        } else if push.key.len() == 2 {
            let _ = self.pool.flush_db(push.db_id);
        } else {
            let _ = self.pool.del(&push.key);
        }
    }

    /// Puts entries back that were kept on disk, except those whose time is
    /// over. Returns how many were put back and how many not.
    pub fn restore(&mut self, recovered: Vec<(Vec<u8>, Value, u64, u16)>, now_ms: u64) -> (r: (usize, usize))
        requires
            old(self).wf(),
        ensures
            final(self).wf(),
            (final(self)@, r.0 as nat, r.1 as nat) == old(self)@.restored(recovered_views(recovered@), now_ms),
    {
        let mut back: usize = 0;
        let mut gone: usize = 0;
        let mut i: usize = 0;
        while i < recovered.len()
            invariant
                i <= recovered.len(),
                back + gone == i,
                self.wf(),
                (self@, back as nat, gone as nat) == old(self)@.restored(
                    recovered_views(recovered@).take(i as int),
                    now_ms,
                ),
            decreases recovered.len() - i,
        {
            proof {
                assert(recovered_views(recovered@).take(i + 1).drop_last() =~= recovered_views(recovered@).take(
                    i as int,
                ));
            }
            let at: u64 = recovered[i].2;
            if at > 0 && at <= now_ms {
                gone = gone + 1;
            } else {
                let mut entry = Entry::new(recovered[i].1.clone(), recovered[i].3);
                if at > 0 {
                    entry.expires_at_ms = at;
                    self.lethe.schedule(copy_bytes(&recovered[i].0), at, now_ms);
                }
                self.pool.set(copy_bytes(&recovered[i].0), entry);
                back = back + 1;
            }
            i = i + 1;
        }
        assert(recovered_views(recovered@).take(recovered@.len() as int) =~= recovered_views(recovered@));
        (back, gone)
    }

    /// Moves the wheels on and removes the keys that they report and whose
    /// time is over. Returns how many those are.
    pub fn expire_due(&mut self, now_ms: u64) -> (n: usize)
        requires
            old(self).wf(),
            old(self)@.wheels.may_tick(now_ms),
        ensures
            final(self).wf(),
            final(self)@ == old(self)@.expired_at(now_ms),
            n == old(self)@.expired_count(now_ms),
    {
        let due = self.lethe.tick(now_ms);
        let ghost keys = views(due@);
        let ghost start = self@;
        let mut n: usize = 0;
        let mut i: usize = 0;
        while i < due.len()
            invariant
                n <= i <= due.len(),
                keys == views(due@),
                self.wf(),
                self@ == start.cleared_all(keys.take(i as int), now_ms),
                n == start.cleared_count(keys.take(i as int), now_ms),
            decreases due.len() - i,
        {
            proof {
                assert(keys.take(i + 1).drop_last() =~= keys.take(i as int));
            }
            let ghost before = self@;
            if self.pool.has_expired(&due[i], now_ms) {
                let _ = self.pool.del(&due[i]);
                n = n + 1;
            }
            assert(self@ == before.cleared(keys[i as int], now_ms));
            i = i + 1;
        }
        assert(keys.take(keys.len() as int) =~= keys);
        n
    }
}

/// What a list of keys with values and times to live holds.
pub open spec fn triple_views(s: Seq<(Vec<u8>, Value, u64)>) -> Seq<(Seq<u8>, ValueView, u64)> {
    s.map_values(|t: (Vec<u8>, Value, u64)| (t.0@, t.1@, t.2))
}

/// What a list of entries that were kept on disk holds.
pub open spec fn recovered_views(s: Seq<(Vec<u8>, Value, u64, u16)>) -> Seq<(Seq<u8>, ValueView, u64, u16)> {
    s.map_values(|t: (Vec<u8>, Value, u64, u16)| recovered_view(t))
}

} // verus!
