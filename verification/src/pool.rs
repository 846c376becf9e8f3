//! The pool keeps all entries in memory, in sixteen shards, and counts the
//! bytes that they take.

use std::collections::VecDeque;

use vstd::prelude::*;

use crate::bytes::{bytes_eq, copy_bytes, has_prefix, starts_with, views};
use crate::iris::{slot_of, Iris};
use crate::lethe::{by_counter, counted_views, first_keys, law_by_counter, Lethe};
use crate::listing::{is_listing, law_listing_unique, listing, page, sort_keys};
use crate::pattern::{key_matches, matches_pattern, pattern_bytes};
use crate::proto::{push_views, PushKeyPayload, PushView};
use crate::value::{Entry, EntryView};

verus! {

pub const NUM_SHARDS: usize = 16;

/// The shard that a key belongs to.
pub open spec fn shard_of(key: Seq<u8>) -> int {
    (slot_of(key) % 16) as int
}

/// The first bytes of every key of a database: its number, high byte first.
pub open spec fn db_prefix(db_id: u16) -> Seq<u8> {
    seq![(db_id / 256) as u8, (db_id % 256) as u8]
}

/// The key under which the pool keeps `key` of a database.
pub open spec fn db_key(db_id: u16, key: Seq<u8>) -> Seq<u8> {
    db_prefix(db_id) + key
}

/// The pool keeps this key for database `db_id`.
pub open spec fn in_db(k: Seq<u8>, db_id: u16) -> bool {
    has_prefix(k, db_prefix(db_id))
}

/// Keys of different databases never meet, nor do different keys of one.
pub proof fn law_databases_isolated(db1: u16, k1: Seq<u8>, db2: u16, k2: Seq<u8>)
    ensures
        db_key(db1, k1) == db_key(db2, k2) <==> db1 == db2 && k1 == k2,
        in_db(db_key(db1, k1), db2) <==> db1 == db2,
{
    let a = db_key(db1, k1);
    let b = db_key(db2, k2);
    assert(a[0] == (db1 / 256) as u8 && a[1] == (db1 % 256) as u8);
    assert(b[0] == (db2 / 256) as u8 && b[1] == (db2 % 256) as u8);
    assert(k1 =~= a.subrange(2, a.len() as int));
    assert(k2 =~= b.subrange(2, b.len() as int));
    assert(a.subrange(0, 2) =~= db_prefix(db1));
    if in_db(a, db2) {
        assert(db_prefix(db2)[0] == a[0]);
        assert(db_prefix(db2)[1] == a[1]);
    }
}

/// A key with the number of its database in front.
pub fn make_db_key(db_id: u16, key: &[u8]) -> (r: Vec<u8>)
    ensures
        r@ == db_key(db_id, key@),
{
    let mut r: Vec<u8> = Vec::new();
    r.push((db_id / 256) as u8);
    r.push((db_id % 256) as u8);
    let mut k: Vec<u8> = copy_bytes(key);
    r.append(&mut k);
    assert(r@ =~= db_key(db_id, key@));
    r
}

/// The value of an integer modulo 2^64.
pub open spec fn wrap(i: int) -> u64 {
    (i % 0x1_0000_0000_0000_0000) as u64
}

proof fn lemma_wrapping(a: u64, b: u64)
    ensures
        a.wrapping_sub(b) == wrap(a - b),
        a.wrapping_add(b) == wrap(a + b),
{
}

proof fn lemma_wrap(used: u64, gone: int, come: int)
    ensures
        used.wrapping_sub(wrap(gone)).wrapping_add(wrap(come)) == wrap(used + come - gone),
        used.wrapping_sub(wrap(gone)) == wrap(used - gone),
        used.wrapping_add(wrap(come)) == wrap(used + come),
{
    let m: int = 0x1_0000_0000_0000_0000;
    let u = used as int;
    lemma_wrapping(used, wrap(gone));
    lemma_wrapping(used, wrap(come));
    lemma_wrapping(wrap(u - gone), wrap(come));
    vstd::arithmetic::div_mod::lemma_sub_mod_noop_right(u, gone, m);
    vstd::arithmetic::div_mod::lemma_add_mod_noop_right(u, come, m);
    vstd::arithmetic::div_mod::lemma_add_mod_noop_right(wrap(u - gone) as int, come, m);
    vstd::arithmetic::div_mod::lemma_add_mod_noop_right(come, u - gone, m);
    assert(come + (u - gone) == u + come - gone);
}

/// What is wrapped round first makes no difference.
pub proof fn lemma_wrap_diff(a: int, b: int)
    ensures
        wrap(wrap(a) - b) == wrap(a - b),
        wrap(wrap(a) + b) == wrap(a + b),
{
    let m: int = 0x1_0000_0000_0000_0000;
    vstd::arithmetic::div_mod::lemma_add_mod_noop_right(-b, a, m);
    vstd::arithmetic::div_mod::lemma_add_mod_noop_right(b, a, m);
}

proof fn lemma_wrap_parts(size: int, len: int)
    requires
        0 <= len <= u64::MAX,
    ensures
        wrap(size).wrapping_add(len as u64) == wrap(size + len),
{
    lemma_wrapping(wrap(size), len as u64);
    vstd::arithmetic::div_mod::lemma_add_mod_noop_right(len, size, 0x1_0000_0000_0000_0000);
}

/// The bytes that an entry counts for: its value and its key.
pub open spec fn weight(key: Seq<u8>, e: EntryView) -> int {
    (e.value.size() + key.len()) as int
}

/// What the entries of some keys count for together.
pub open spec fn weight_of(m: Map<Seq<u8>, EntryView>, keys: Set<Seq<u8>>) -> int
    decreases keys.len(),
    when keys.finite()
{
    if keys.len() == 0 {
        0
    } else {
        let k = keys.choose();
        weight(k, m[k]) + weight_of(m, keys.remove(k))
    }
}

/// Which key is counted first makes no difference.
pub proof fn lemma_weight_split(m: Map<Seq<u8>, EntryView>, keys: Set<Seq<u8>>, k: Seq<u8>)
    requires
        keys.finite(),
        keys.contains(k),
    ensures
        weight_of(m, keys) == weight(k, m[k]) + weight_of(m, keys.remove(k)),
    decreases keys.len(),
{
    let c = keys.choose();
    if c != k {
        lemma_weight_split(m, keys.remove(c), k);
        lemma_weight_split(m, keys.remove(k), c);
        assert(keys.remove(c).remove(k) =~= keys.remove(k).remove(c));
    }
}

/// Only the entries of the keys themselves count.
pub proof fn lemma_weight_same(m1: Map<Seq<u8>, EntryView>, m2: Map<Seq<u8>, EntryView>, keys: Set<Seq<u8>>)
    requires
        keys.finite(),
        forall|k: Seq<u8>| keys.contains(k) ==> #[trigger] m1[k] == m2[k],
    ensures
        weight_of(m1, keys) == weight_of(m2, keys),
    decreases keys.len(),
{
    if keys.len() > 0 {
        lemma_weight_same(m1, m2, keys.remove(keys.choose()));
    }
}

/// What all entries count for together.
pub open spec fn total_weight(m: Map<Seq<u8>, EntryView>) -> int {
    weight_of(m, m.dom())
}

/// What all entries count for changes by what comes and what goes.
pub proof fn law_total_weight(m: Map<Seq<u8>, EntryView>, k: Seq<u8>, e: EntryView)
    requires
        m.dom().finite(),
    ensures
        total_weight(m.insert(k, e)) == total_weight(m.remove(k)) + weight(k, e),
        m.contains_key(k) ==> total_weight(m) == total_weight(m.remove(k)) + weight(k, m[k]),
        !m.contains_key(k) ==> total_weight(m) == total_weight(m.remove(k)),
{
    let i = m.insert(k, e);
    let r = m.remove(k);
    lemma_weight_split(i, i.dom(), k);
    assert(i.dom().remove(k) =~= r.dom());
    lemma_weight_same(i, r, r.dom());
    if m.contains_key(k) {
        lemma_weight_split(m, m.dom(), k);
        assert(m.dom().remove(k) =~= r.dom());
        lemma_weight_same(m, r, r.dom());
    } else {
        assert(r =~= m);
    }
}

/// What all entries count for is what some of them count for and the rest.
pub proof fn law_weight_of_removed(m: Map<Seq<u8>, EntryView>, gone: Set<Seq<u8>>)
    requires
        m.dom().finite(),
        gone.subset_of(m.dom()),
    ensures
        total_weight(m) == weight_of(m, gone) + total_weight(m.remove_keys(gone)),
    decreases gone.len(),
{
    vstd::set_lib::lemma_set_subset_finite(m.dom(), gone);
    if gone.len() == 0 {
        assert(gone =~= Set::empty());
        assert(m.remove_keys(gone) =~= m);
    } else {
        let k = gone.choose();
        let rest = gone.remove(k);
        law_weight_of_removed(m, rest);
        let a = m.remove_keys(rest);
        let b = m.remove_keys(gone);
        assert(a.dom() =~= m.dom().difference(rest));
        law_total_weight(a, k, a[k]);
        assert(a.remove(k) =~= b);
    }
}

/// A count that stays at the largest number once it is there.
pub open spec fn capped(n: nat) -> u64 {
    if n > u64::MAX { u64::MAX } else { n as u64 }
}

/// The key stands at place `i` of a shard.
spec fn at(shard: Seq<(Vec<u8>, Entry)>, key: Seq<u8>, i: int) -> bool {
    0 <= i < shard.len() && shard[i].0@ == key
}

/// The key stands before place `n` of a shard.
spec fn stands_before(shard: Seq<(Vec<u8>, Entry)>, key: Seq<u8>, n: int) -> bool {
    exists|q: int| 0 <= q < n && at(shard, key, q)
}

/// A shard holds the key.
spec fn in_shard(shard: Seq<(Vec<u8>, Entry)>, key: Seq<u8>) -> bool {
    exists|i: int| at(shard, key, i)
}

/// The entry that a shard holds under the key.
spec fn entry_in(shard: Seq<(Vec<u8>, Entry)>, key: Seq<u8>) -> EntryView {
    shard[choose|i: int| at(shard, key, i)].1@
}

/// Every key stands in its shard, once.
spec fn shard_wf(shard: Seq<(Vec<u8>, Entry)>, s: int) -> bool {
    &&& forall|i: int| 0 <= i < shard.len() ==> shard_of((#[trigger] shard[i]).0@) == s
    &&& forall|i: int, j: int| 0 <= i < j < shard.len() ==> (#[trigger] shard[i]).0@ != (#[trigger] shard[j]).0@
}

/// The entries of all shards by key.
spec fn map_of(shards: Seq<Vec<(Vec<u8>, Entry)>>) -> Map<Seq<u8>, EntryView> {
    Map::new(
        |k: Seq<u8>| in_shard(shards[shard_of(k)]@, k),
        |k: Seq<u8>| entry_in(shards[shard_of(k)]@, k),
    )
}

/// All entries, in sixteen shards.
pub struct Pool {
    shards: Vec<Vec<(Vec<u8>, Entry)>>,
    pool_bytes: u64,
    max_bytes: u64,
}

/// The entry of a key whose time is not over.
pub open spec fn live_entry(m: Map<Seq<u8>, EntryView>, key: Seq<u8>, now: u64) -> Option<EntryView> {
    if m.contains_key(key) && !m[key].expired(now) {
        Some(m[key])
    } else {
        None
    }
}

/// Replacing the entry at one place changes the map there and nowhere else.
proof fn lemma_replaced(a: Pool, b: Pool, s: int, i: int)
    requires
        a.placed(),
        0 <= s < 16,
        0 <= i < a.shards@[s]@.len(),
        b.shards@.len() == 16,
        forall|t: int| 0 <= t < 16 && t != s ==> #[trigger] b.shards@[t] == a.shards@[t],
        b.shards@[s]@.len() == a.shards@[s]@.len(),
        forall|j: int| 0 <= j < a.shards@[s]@.len() ==> (#[trigger] b.shards@[s]@[j]).0@ == a.shards@[s]@[j].0@,
        forall|j: int| 0 <= j < a.shards@[s]@.len() && j != i ==> (#[trigger] b.shards@[s]@[j]).1@ == a.shards@[s]@[j].1@,
    ensures
        b.placed(),
        b.map() == a.map().insert(a.shards@[s]@[i].0@, b.shards@[s]@[i].1@),
{
    let sa = a.shards@[s]@;
    let sb = b.shards@[s]@;
    let key = sa[i].0@;
    assert(shard_wf(sa, s));
    assert(shard_wf(sb, s)) by {
        assert forall|j: int| 0 <= j < sb.len() implies shard_of((#[trigger] sb[j]).0@) == s by {
            assert(shard_of(sa[j].0@) == s);
        }
        assert forall|j: int, k: int| 0 <= j < k < sb.len() implies (#[trigger] sb[j]).0@ != (#[trigger] sb[k]).0@ by {
            assert(sa[j].0@ != sa[k].0@);
        }
    }
    assert(b.placed()) by {
        assert forall|t: int| 0 <= t < 16 implies shard_wf((#[trigger] b.shards@[t])@, t) by {
            if t != s {
                assert(shard_wf(a.shards@[t]@, t));
            }
        }
    }
    let target = a.map().insert(key, sb[i].1@);
    assert(at(sa, key, i));
    assert(at(sb, key, i));
    assert forall|k: Seq<u8>|
        #![trigger b.map().dom().contains(k)]
        #![trigger b.map()[k]]
        b.map().dom().contains(k) == target.dom().contains(k) && (target.dom().contains(k) ==> b.map()[k]
            == target[k]) by {
        let t = shard_of(k);
        if t == s {
            if in_shard(sb, k) {
                let j = choose|j: int| at(sb, k, j);
                assert(at(sa, k, j));
                let j2 = choose|j: int| at(sa, k, j);
                assert(j == j2);
                if j != i {
                    assert(sb[j].1@ == sa[j].1@);
                }
            }
            if in_shard(sa, k) {
                let j = choose|j: int| at(sa, k, j);
                assert(at(sb, k, j));
            }
        } else {
            assert(b.shards@[t] == a.shards@[t]);
            assert(k != key);
        }
    }
    assert(b.map() =~= target);
}

impl Pool {
    /// The entries by key.
    pub closed spec fn map(&self) -> Map<Seq<u8>, EntryView> {
        map_of(self.shards@)
    }

    /// The bytes in use, modulo 2^64.
    pub closed spec fn used(&self) -> u64 {
        self.pool_bytes
    }

    /// The most bytes that may be in use.
    pub closed spec fn limit(&self) -> u64 {
        self.max_bytes
    }

    /// Every key stands in its shard, once.
    pub closed spec fn placed(&self) -> bool {
        &&& self.shards@.len() == 16
        &&& forall|s: int| 0 <= s < 16 ==> shard_wf((#[trigger] self.shards@[s])@, s)
    }

    /// Every key has its place, and the bytes in use are those of all entries.
    pub open spec fn wf(&self) -> bool {
        &&& self.placed()
        &&& self.used() == wrap(total_weight(self.map()))
    }

    fn shard_idx(key: &[u8]) -> (s: usize)
        ensures
            s == shard_of(key@),
            s < 16,
    {
        (Iris::slot_for(key) % 16) as usize
    }

    /// The place of a key in its shard, or the shard's length.
    fn find(&self, s: usize, key: &[u8]) -> (i: usize)
        requires
            self.placed(),
            s == shard_of(key@),
            s < 16,
        ensures
            i <= self.shards@[s as int]@.len(),
            i < self.shards@[s as int]@.len() <==> self.map().contains_key(key@),
            i < self.shards@[s as int]@.len() ==> self.shards@[s as int]@[i as int].0@ == key@
                && self.shards@[s as int]@[i as int].1@ == self.map()[key@],
    {
        let shard = &self.shards[s];
        let mut i: usize = 0;
        while i < shard.len()
            invariant
                i <= shard.len(),
                shard@ == self.shards@[s as int]@,
                self.placed(),
                s < 16,
                s == shard_of(key@),
                forall|j: int| 0 <= j < i ==> (#[trigger] shard@[j]).0@ != key@,
            decreases shard.len() - i,
        {
            if bytes_eq(&shard[i].0, key) {
                proof {
                    assert(at(shard@, key@, i as int));
                    let k = choose|k: int| at(shard@, key@, k);
                    assert(shard_wf(self.shards@[s as int]@, s as int));
                    assert(k == i);
                }
                return i;
            }
            i = i + 1;
        }
        i
    }

    /// The entry of a key, if its time is not over.
    pub fn get(&self, key: &[u8], now_ms: u64) -> (r: Option<Entry>)
        requires
            self.wf(),
        ensures
            match live_entry(self.map(), key@, now_ms) {
                Some(e) => r matches Some(x) && x@ == e,
                None => r is None,
            },
    {
        let s: usize = Self::shard_idx(key);
        let i: usize = self.find(s, key);
        if i == self.shards[s].len() {
            return None;
        }
        let e = &self.shards[s][i].1;
        if e.is_expired(now_ms) {
            None
        } else {
            Some(e.clone())
        }
    }

    /// Whether an entry stands under a key whose time is over.
    pub fn has_expired(&self, key: &[u8], now_ms: u64) -> (r: bool)
        requires
            self.wf(),
        ensures
            r == (self.map().contains_key(key@) && self.map()[key@].expired(now_ms)),
    {
        let s: usize = Self::shard_idx(key);
        let i: usize = self.find(s, key);
        i < self.shards[s].len() && self.shards[s][i].1.is_expired(now_ms)
    }

    /// The place of an entry decides what the map says of its key.
    proof fn lemma_place(&self, s: int, i: int)
        requires
            self.placed(),
            0 <= s < 16,
            0 <= i < self.shards@[s]@.len(),
        ensures
            shard_of(self.shards@[s]@[i].0@) == s,
            self.map().contains_key(self.shards@[s]@[i].0@),
            self.map()[self.shards@[s]@[i].0@] == self.shards@[s]@[i].1@,
    {
        let sh = self.shards@[s]@;
        let k = sh[i].0@;
        assert(shard_wf(sh, s));
        assert(at(sh, k, i));
        let j = choose|j: int| at(sh, k, j);
        assert(i == j);
    }

    /// Every key of the map has its place.
    proof fn lemma_placed(&self, k: Seq<u8>) -> (i: int)
        requires
            self.placed(),
            self.map().contains_key(k),
        ensures
            0 <= i < self.shards@[shard_of(k)]@.len(),
            self.shards@[shard_of(k)]@[i].0@ == k,
    {
        choose|i: int| at(self.shards@[shard_of(k)]@, k, i)
    }

    /// The keys of the first `n` shards.
    spec fn keys_upto(&self, n: int) -> Set<Seq<u8>> {
        self.map().dom().filter(|k: Seq<u8>| shard_of(k) < n)
    }

    /// How many entries the first `n` shards hold.
    spec fn count_upto(&self, n: int) -> nat
        decreases n,
    {
        if n <= 0 {
            0
        } else {
            self.count_upto(n - 1) + self.shards@[n - 1]@.len()
        }
    }

    /// The keys of one shard.
    spec fn shard_keys(&self, s: int) -> Set<Seq<u8>> {
        self.map().dom().filter(|k: Seq<u8>| shard_of(k) == s)
    }

    proof fn lemma_shard_keys(&self, s: int)
        requires
            self.placed(),
            0 <= s < 16,
        ensures
            self.shard_keys(s).finite(),
            self.shard_keys(s).len() == self.shards@[s]@.len(),
    {
        let sh = self.shards@[s]@;
        let ks = sh.map_values(|p: (Vec<u8>, Entry)| p.0@);
        assert(shard_wf(sh, s));
        assert(ks.no_duplicates());
        ks.unique_seq_to_set();
        assert forall|k: Seq<u8>| #[trigger] self.shard_keys(s).contains(k) <==> ks.to_set().contains(k) by {
            if self.shard_keys(s).contains(k) {
                let i = self.lemma_placed(k);
                assert(ks[i] == k);
            }
            if ks.contains(k) {
                let i = choose|i: int| 0 <= i < ks.len() && ks[i] == k;
                self.lemma_place(s, i);
            }
        }
        assert(self.shard_keys(s) =~= ks.to_set());
    }

    proof fn lemma_keys_upto(&self, n: int)
        requires
            self.placed(),
            0 <= n <= 16,
        ensures
            self.keys_upto(n).finite(),
            self.keys_upto(n).len() == self.count_upto(n),
        decreases n,
    {
        if n == 0 {
            assert(self.keys_upto(0) =~= Set::empty());
        } else {
            self.lemma_keys_upto(n - 1);
            self.lemma_shard_keys(n - 1);
            let a = self.keys_upto(n - 1);
            let b = self.shard_keys(n - 1);
            assert(a.disjoint(b));
            vstd::set_lib::lemma_set_disjoint_lens(a, b);
            assert(self.keys_upto(n) =~= a + b);
        }
    }

    /// There are finitely many entries.
    pub proof fn lemma_finite(&self)
        requires
            self.placed(),
        ensures
            self.map().dom().finite(),
    {
        self.lemma_counted();
    }

    /// There are as many entries as the shards hold.
    proof fn lemma_counted(&self)
        requires
            self.placed(),
        ensures
            self.map().dom().finite(),
            self.map().dom().len() == self.count_upto(16),
    {
        self.lemma_keys_upto(16);
        assert(self.keys_upto(16) =~= self.map().dom());
    }

    /// An empty pool with room for `max_bytes`.
    pub fn new(max_bytes: u64) -> (p: Self)
        ensures
            p.wf(),
            p.map() == Map::<Seq<u8>, EntryView>::empty(),
            p.used() == 0,
            p.limit() == max_bytes,
    {
        let mut shards: Vec<Vec<(Vec<u8>, Entry)>> = Vec::new();
        let mut s: usize = 0;
        while s < 16
            invariant
                s <= 16,
                shards@.len() == s,
                forall|t: int| 0 <= t < s ==> (#[trigger] shards@[t])@.len() == 0,
            decreases 16 - s,
        {
            shards.push(Vec::new());
            s = s + 1;
        }
        let p = Pool { shards, pool_bytes: 0, max_bytes };
        assert(p.map() =~= Map::<Seq<u8>, EntryView>::empty());
        p
    }

    /// Takes the entry of a key out, if its time is not over, to be put back
    /// once it has been changed. An entry whose time is over goes for good.
    pub fn take(&mut self, key: &[u8], now_ms: u64) -> (r: Option<Entry>)
        requires
            old(self).wf(),
        ensures
            final(self).wf(),
            final(self).limit() == old(self).limit(),
            final(self).map() == old(self).map().remove(key@),
            final(self).used() == (if old(self).map().contains_key(key@) {
                wrap(old(self).used() - weight(key@, old(self).map()[key@]))
            } else {
                old(self).used()
            }),
            match live_entry(old(self).map(), key@, now_ms) {
                Some(e) => r matches Some(x) && x@ == e,
                None => r is None,
            },
    {
        match self.remove(key) {
            Some(e) => if e.is_expired(now_ms) {
                None
            } else {
                Some(e)
            },
            None => None,
        }
    }

    /// Takes the entry of a key out.
    fn remove(&mut self, key: &[u8]) -> (r: Option<Entry>)
        requires
            old(self).wf(),
        ensures
            final(self).wf(),
            final(self).limit() == old(self).limit(),
            final(self).map() == old(self).map().remove(key@),
            final(self).used() == (if old(self).map().contains_key(key@) {
                wrap(old(self).used() - weight(key@, old(self).map()[key@]))
            } else {
                old(self).used()
            }),
            match r {
                Some(e) => old(self).map().contains_key(key@) && e@ == old(self).map()[key@],
                None => !old(self).map().contains_key(key@),
            },
    {
        let s: usize = Self::shard_idx(key);
        let i: usize = self.find(s, key);
        if i < self.shards[s].len() {
            let gone = self.remove_at(s, i);
            let mem: u64 = gone.value.memory_usage().wrapping_add(key.len() as u64);
            proof {
                let m = old(self).map();
                old(self).lemma_counted();
                law_total_weight(m, key@, m[key@]);
                lemma_wrap_parts(gone@.value.size() as int, key@.len() as int);
                lemma_wrap(self.pool_bytes, weight(key@, gone@), 0);
                lemma_wrap_diff(total_weight(m), weight(key@, m[key@]));
            }
            self.pool_bytes = self.pool_bytes.wrapping_sub(mem);
            assert(self.map() == old(self).map().remove(key@));
            Some(gone)
        } else {
            assert(self.map().remove(key@) =~= self.map());
            None
        }
    }

    /// Takes the entry at one place out, without touching the count of bytes.
    fn remove_at(&mut self, s: usize, i: usize) -> (e: Entry)
        requires
            old(self).placed(),
            s < 16,
            i < old(self).shards@[s as int]@.len(),
        ensures
            final(self).placed(),
            final(self).used() == old(self).used(),
            final(self).limit() == old(self).limit(),
            final(self).map() == old(self).map().remove(old(self).shards@[s as int]@[i as int].0@),
            e@ == old(self).shards@[s as int]@[i as int].1@,
            final(self).shards@.len() == 16,
            forall|t: int| 0 <= t < 16 && t != s ==> #[trigger] final(self).shards@[t] == old(self).shards@[t],
            final(self).shards@[s as int]@.len() == old(self).shards@[s as int]@.len() - 1,
            forall|j: int| 0 <= j < i ==> #[trigger] final(self).shards@[s as int]@[j] == old(self).shards@[s as int]@[j],
    {
        let ghost before = *self;
        let ghost sa = self.shards@[s as int]@;
        let ghost key = sa[i as int].0@;
        let gone = self.shards[s].swap_remove(i);
        proof {
            let sb = self.shards@[s as int]@;
            let n = sa.len() as int;
            assert(shard_wf(sa, s as int));
            assert(shard_wf(sb, s as int)) by {
                assert forall|j: int| 0 <= j < sb.len() implies shard_of((#[trigger] sb[j]).0@) == s by {
                    if j == i {
                        assert(sb[j] == sa[n - 1]);
                    } else {
                        assert(sb[j] == sa[j]);
                    }
                }
                assert forall|j: int, k: int| 0 <= j < k < sb.len() implies (#[trigger] sb[j]).0@ != (#[trigger] sb[k]).0@ by {
                    if j == i {
                        assert(sb[j] == sa[n - 1] && sb[k] == sa[k]);
                    } else if k == i {
                        assert(sb[k] == sa[n - 1] && sb[j] == sa[j]);
                    } else {
                        assert(sb[k] == sa[k] && sb[j] == sa[j]);
                    }
                }
            }
            assert forall|k: Seq<u8>| k != key implies (#[trigger] in_shard(sb, k) <==> in_shard(sa, k)) && (in_shard(
                sa,
                k,
            ) ==> entry_in(sb, k) == entry_in(sa, k)) by {
                if in_shard(sb, k) {
                    let j = choose|j: int| at(sb, k, j);
                    if j == i {
                        assert(at(sa, k, n - 1));
                    } else {
                        assert(at(sa, k, j));
                    }
                }
                if in_shard(sa, k) {
                    let j = choose|j: int| at(sa, k, j);
                    if j == n - 1 {
                        assert(at(sb, k, i as int));
                        let j2 = choose|j2: int| at(sb, k, j2);
                        assert(j2 == i);
                    } else {
                        assert(at(sb, k, j));
                        let j2 = choose|j2: int| at(sb, k, j2);
                        assert(j2 == j);
                    }
                }
            }
            assert(!in_shard(sb, key)) by {
                if in_shard(sb, key) {
                    let j = choose|j: int| at(sb, key, j);
                    if j == i {
                        assert(sb[j] == sa[n - 1]);
                    } else {
                        assert(sb[j] == sa[j]);
                    }
                }
            }
            lemma_changed(before, *self, s as int, key);
            assert(self.map() =~= before.map().remove(key));
        }
        gone.1
    }

    /// Puts an entry under a key, in place of what was there.
    pub fn set(&mut self, key: Vec<u8>, entry: Entry)
        requires
            old(self).wf(),
        ensures
            final(self).wf(),
            final(self).limit() == old(self).limit(),
            final(self).map() == old(self).map().insert(key@, entry@),
            final(self).used() == wrap(
                old(self).used() + weight(key@, entry@) - (if old(self).map().contains_key(key@) {
                    weight(key@, old(self).map()[key@])
                } else {
                    0
                }),
            ),
    {
        let ghost k = key@;
        let ghost e = entry@;
        let mem: u64 = entry.value.memory_usage().wrapping_add(key.len() as u64);
        let s: usize = Self::shard_idx(&key);
        let i: usize = self.find(s, &key);
        if i < self.shards[s].len() {
            let gone_mem: u64 = self.shards[s][i].1.value.memory_usage().wrapping_add(key.len() as u64);
            proof {
                lemma_wrap(self.pool_bytes, weight(key@, self.map()[key@]), weight(key@, entry@));
                lemma_wrap_parts(self.map()[key@].value.size() as int, key@.len() as int);
                lemma_wrap_parts(entry@.value.size() as int, key@.len() as int);
            }
            self.replace_at(s, i, entry);
            self.pool_bytes = self.pool_bytes.wrapping_sub(gone_mem).wrapping_add(mem);
        } else {
            proof {
                lemma_wrap(self.pool_bytes, 0, weight(key@, entry@));
                lemma_wrap_parts(entry@.value.size() as int, key@.len() as int);
            }
            self.insert_new(s, key, entry);
            self.pool_bytes = self.pool_bytes.wrapping_add(mem);
        }
        proof {
            let m = old(self).map();
            old(self).lemma_counted();
            law_total_weight(m, k, e);
            lemma_wrap_diff(
                total_weight(m),
                weight(k, e) - (if m.contains_key(k) { weight(k, m[k]) } else { 0 }),
            );
            assert(self.map() == m.insert(k, e));
        }
    }

    /// Puts an entry at a place in use, without touching the count of bytes.
    fn replace_at(&mut self, s: usize, i: usize, entry: Entry)
        requires
            old(self).placed(),
            s < 16,
            i < old(self).shards@[s as int]@.len(),
        ensures
            final(self).placed(),
            final(self).used() == old(self).used(),
            final(self).limit() == old(self).limit(),
            final(self).map() == old(self).map().insert(old(self).shards@[s as int]@[i as int].0@, entry@),
    {
        let ghost before = *self;
        let place = &mut self.shards[s][i].1;
        *place = entry;
        proof {
            lemma_replaced(before, *self, s as int, i as int);
        }
    }

    /// Adds a key to its shard, without touching the count of bytes.
    fn insert_new(&mut self, s: usize, key: Vec<u8>, entry: Entry)
        requires
            old(self).placed(),
            s < 16,
            s == shard_of(key@),
            !old(self).map().contains_key(key@),
        ensures
            final(self).placed(),
            final(self).used() == old(self).used(),
            final(self).limit() == old(self).limit(),
            final(self).map() == old(self).map().insert(key@, entry@),
    {
        let ghost before = *self;
        let ghost k = key@;
        let ghost x = entry@;
        let ghost sa = self.shards@[s as int]@;
        self.shards[s].push((key, entry));
        proof {
            let sb = self.shards@[s as int]@;
            assert(shard_wf(sa, s as int));
            assert(sb == sa.push((key, entry)));
            assert(forall|j: int| 0 <= j < sa.len() ==> #[trigger] sb[j] == sa[j]);
            assert(!in_shard(sa, k));
            assert forall|j: int| 0 <= j < sa.len() implies (#[trigger] sa[j]).0@ != k by {
                if sa[j].0@ == k {
                    assert(at(sa, k, j));
                }
            }
            assert(shard_wf(sb, s as int));
            assert forall|q: Seq<u8>| q != k implies (#[trigger] in_shard(sb, q) <==> in_shard(sa, q)) && (in_shard(
                sa,
                q,
            ) ==> entry_in(sb, q) == entry_in(sa, q)) by {
                if in_shard(sb, q) {
                    let j = choose|j: int| at(sb, q, j);
                    assert(at(sa, q, j));
                }
                if in_shard(sa, q) {
                    let j = choose|j: int| at(sa, q, j);
                    assert(at(sb, q, j));
                    let j2 = choose|j2: int| at(sb, q, j2);
                    assert(j2 == j);
                }
            }
            assert(before.shards@[s as int]@ == sa);
            lemma_changed(before, *self, s as int, k);
            assert(at(sb, k, sa.len() as int));
            let j = choose|j: int| at(sb, k, j);
            assert(j == sa.len());
            assert(self.map() =~= before.map().insert(k, x));
        }
    }

    /// Removes a key; says whether it was there.
    pub fn del(&mut self, key: &[u8]) -> (r: bool)
        requires
            old(self).wf(),
        ensures
            final(self).wf(),
            final(self).limit() == old(self).limit(),
            r == old(self).map().contains_key(key@),
            final(self).map() == old(self).map().remove(key@),
            final(self).used() == (if r {
                wrap(old(self).used() - weight(key@, old(self).map()[key@]))
            } else {
                old(self).used()
            }),
    {
        self.remove(key).is_some()
    }

    pub fn pool_used(&self) -> (r: u64)
        ensures
            r == self.used(),
    {
        self.pool_bytes
    }

    pub fn pool_max(&self) -> (r: u64)
        ensures
            r == self.limit(),
    {
        self.max_bytes
    }

    pub fn set_pool_max(&mut self, v: u64)
        requires
            old(self).wf(),
        ensures
            final(self).wf(),
            final(self).map() == old(self).map(),
            final(self).used() == old(self).used(),
            final(self).limit() == v,
    {
        self.max_bytes = v;
        assert(self.map() =~= old(self).map());
    }

    /// Whether the pool has no room left: the bytes in use reach the limit.
    pub fn is_full(&self) -> (r: bool)
        ensures
            r == (self.used() >= self.limit()),
    {
        self.pool_bytes >= self.max_bytes
    }
}

/// A change in one shard that concerns one key alone.
proof fn lemma_changed(a: Pool, b: Pool, s: int, key: Seq<u8>)
    requires
        a.placed(),
        0 <= s < 16,
        s == shard_of(key),
        b.shards@.len() == 16,
        forall|t: int| 0 <= t < 16 && t != s ==> #[trigger] b.shards@[t] == a.shards@[t],
        shard_wf(b.shards@[s]@, s),
        forall|k: Seq<u8>|
            k != key ==> (#[trigger] in_shard(b.shards@[s]@, k) <==> in_shard(a.shards@[s]@, k)) && (in_shard(
                a.shards@[s]@,
                k,
            ) ==> entry_in(b.shards@[s]@, k) == entry_in(a.shards@[s]@, k)),
    ensures
        b.placed(),
        forall|k: Seq<u8>|
            #![trigger b.map().dom().contains(k)]
            #![trigger b.map()[k]]
            k != key ==> b.map().dom().contains(k) == a.map().dom().contains(k) && (a.map().dom().contains(k)
                ==> b.map()[k] == a.map()[k]),
        b.map().dom().contains(key) == in_shard(b.shards@[s]@, key),
        b.map().dom().contains(key) ==> b.map()[key] == entry_in(b.shards@[s]@, key),
{
    assert forall|t: int| 0 <= t < 16 implies shard_wf((#[trigger] b.shards@[t])@, t) by {
        if t != s {
            assert(shard_wf(a.shards@[t]@, t));
        }
    }
    assert forall|k: Seq<u8>|
        #![trigger b.map().dom().contains(k)]
        #![trigger b.map()[k]]
        k != key implies b.map().dom().contains(k) == a.map().dom().contains(k) && (a.map().dom().contains(k)
        ==> b.map()[k] == a.map()[k]) by {
        let t = shard_of(k);
        if t == s {
            assert(in_shard(b.shards@[s]@, k) <==> in_shard(a.shards@[s]@, k));
        } else {
            assert(b.shards@[t] == a.shards@[t]);
        }
    }
}

/// The live keys of a database.
pub open spec fn db_keys(m: Map<Seq<u8>, EntryView>, db_id: u16, now: u64) -> Set<Seq<u8>> {
    m.dom().filter(|k: Seq<u8>| in_db(k, db_id) && !m[k].expired(now))
}

/// All keys of a database.
pub open spec fn all_db_keys(m: Map<Seq<u8>, EntryView>, db_id: u16) -> Set<Seq<u8>> {
    m.dom().filter(|k: Seq<u8>| in_db(k, db_id))
}

fn db_prefix_exec(db_id: u16) -> (r: Vec<u8>)
    ensures
        r@ == db_prefix(db_id),
{
    let mut r: Vec<u8> = Vec::new();
    r.push((db_id / 256) as u8);
    r.push((db_id % 256) as u8);
    assert(r@ =~= db_prefix(db_id));
    r
}

/// How many entries of one shard a search for eviction candidates looks at.
pub open spec fn per_shard(n: usize) -> int {
    if n / 16 < 4 { 4 } else { (n / 16) as int }
}

impl Pool {
    /// How many entries there are.
    pub fn total_entries(&self) -> (r: u64)
        requires
            self.wf(),
        ensures
            r == capped(self.map().dom().len()),
    {
        let mut total: u64 = 0;
        let mut s: usize = 0;
        while s < 16
            invariant
                s <= 16,
                self.placed(),
                total == capped(self.count_upto(s as int)),
            decreases 16 - s,
        {
            total = total.saturating_add(self.shards[s].len() as u64);
            s = s + 1;
        }
        proof {
            self.lemma_counted();
        }
        total
    }

    /// How many live keys a database has.
    pub fn db_size(&self, db_id: u16, now_ms: u64) -> (r: u64)
        requires
            self.wf(),
        ensures
            r == capped(db_keys(self.map(), db_id, now_ms).len()),
    {
        let prefix: Vec<u8> = db_prefix_exec(db_id);
        let ghost m = self.map();
        let ghost mut seen: Set<Seq<u8>> = Set::empty();
        let mut count: u64 = 0;
        let mut s: usize = 0;
        while s < 16
            invariant
                s <= 16,
                self.placed(),
                m == self.map(),
                prefix@ == db_prefix(db_id),
                seen.finite(),
                count == capped(seen.len()),
                forall|k: Seq<u8>| #[trigger] seen.contains(k) <==> db_keys(m, db_id, now_ms).contains(k) && shard_of(k) < s,
            decreases 16 - s,
        {
            let ghost prev = seen;
            let shard = &self.shards[s];
            let mut i: usize = 0;
            while i < shard.len()
                invariant
                    i <= shard.len(),
                    s < 16,
                    self.placed(),
                    m == self.map(),
                    shard@ == self.shards@[s as int]@,
                    prefix@ == db_prefix(db_id),
                    seen.finite(),
                    count == capped(seen.len()),
                    forall|k: Seq<u8>| #[trigger] prev.contains(k) ==> shard_of(k) < s,
                    forall|k: Seq<u8>| #[trigger] seen.contains(k) <==> prev.contains(k) || (db_keys(m, db_id, now_ms).contains(k)
                        && stands_before(shard@, k, i as int)),
                decreases shard.len() - i,
            {
                let ghost key = shard@[i as int].0@;
                let ghost had = seen;
                proof {
                    self.lemma_place(s as int, i as int);
                    assert(shard_wf(self.shards@[s as int]@, s as int));
                    assert(!seen.contains(key));
                }
                if starts_with(&shard[i].0, &prefix) && !shard[i].1.is_expired(now_ms) {
                    count = count.saturating_add(1);
                    proof {
                        seen = seen.insert(key);
                    }
                }
                proof {
                    assert forall|k: Seq<u8>| #[trigger] seen.contains(k) <==> prev.contains(k) || (db_keys(m, db_id, now_ms).contains(k)
                        && stands_before(shard@, k, i + 1)) by {
                        assert(had.contains(k) <==> prev.contains(k) || (db_keys(m, db_id, now_ms).contains(k)
                            && stands_before(shard@, k, i as int)));
                        if k == key {
                            assert(at(shard@, k, i as int));
                        }
                    }
                }
                i = i + 1;
            }
            proof {
                assert forall|k: Seq<u8>| #[trigger] seen.contains(k) <==> db_keys(m, db_id, now_ms).contains(k) && shard_of(k) < s + 1 by {
                    assert(prev.contains(k) <==> db_keys(m, db_id, now_ms).contains(k) && shard_of(k) < s);
                    if db_keys(m, db_id, now_ms).contains(k) && shard_of(k) == s {
                        let j = self.lemma_placed(k);
                        assert(at(shard@, k, j));
                    }
                    if stands_before(shard@, k, i as int) {
                        let j = choose|j: int| 0 <= j < i && at(shard@, k, j);
                        self.lemma_place(s as int, j);
                    }
                }
            }
            s = s + 1;
        }
        assert(seen =~= db_keys(m, db_id, now_ms));
        count
    }

    /// Removes all keys of a database; returns how many there were.
    pub fn flush_db(&mut self, db_id: u16) -> (r: u64)
        requires
            old(self).wf(),
        ensures
            final(self).wf(),
            final(self).limit() == old(self).limit(),
            r == capped(all_db_keys(old(self).map(), db_id).len()),
            final(self).map() == old(self).map().remove_keys(all_db_keys(old(self).map(), db_id)),
            final(self).used() == wrap(
                old(self).used() - weight_of(old(self).map(), all_db_keys(old(self).map(), db_id)),
            ),
    {
        let prefix: Vec<u8> = db_prefix_exec(db_id);
        let ghost m0 = self.map();
        let ghost used0 = self.used();
        let ghost mut gone: Set<Seq<u8>> = Set::empty();
        let mut count: u64 = 0;
        let mut s: usize = 0;
        assert(m0.remove_keys(gone) =~= m0);
        while s < 16
            invariant
                s <= 16,
                self.placed(),
                self.limit() == old(self).limit(),
                prefix@ == db_prefix(db_id),
                gone.finite(),
                count == capped(gone.len()),
                gone.subset_of(all_db_keys(m0, db_id)),
                self.map() == m0.remove_keys(gone),
                self.used() == wrap(used0 - weight_of(m0, gone)),
                forall|t: int, j: int| 0 <= t < s && 0 <= j < self.shards@[t]@.len() ==> !in_db((#[trigger] self.shards@[t]@[j]).0@, db_id),
            decreases 16 - s,
        {
            let mut i: usize = 0;
            while i < self.shards[s].len()
                invariant
                    s < 16,
                    i <= self.shards@[s as int]@.len(),
                    self.placed(),
                    self.shards@.len() == 16,
                    self.limit() == old(self).limit(),
                    prefix@ == db_prefix(db_id),
                    gone.finite(),
                    count == capped(gone.len()),
                    gone.subset_of(all_db_keys(m0, db_id)),
                    self.map() == m0.remove_keys(gone),
                    self.used() == wrap(used0 - weight_of(m0, gone)),
                    forall|t: int, j: int| 0 <= t < s && 0 <= j < self.shards@[t]@.len() ==> !in_db((#[trigger] self.shards@[t]@[j]).0@, db_id),
                    forall|j: int| 0 <= j < i ==> !in_db((#[trigger] self.shards@[s as int]@[j]).0@, db_id),
                decreases self.shards@[s as int]@.len() - i,
            {
                let ghost key = self.shards@[s as int]@[i as int].0@;
                proof {
                    self.lemma_place(s as int, i as int);
                }
                if starts_with(&self.shards[s][i].0, &prefix) {
                    let key_len: u64 = self.shards[s][i].0.len() as u64;
                    let ghost before = self.map();
                    let entry = self.remove_at(s, i);
                    let mem: u64 = entry.value.memory_usage().wrapping_add(key_len);
                    self.pool_bytes = self.pool_bytes.wrapping_sub(mem);
                    count = count.saturating_add(1);
                    proof {
                        let w = weight(key, m0[key]);
                        assert(before[key] == m0[key]);
                        lemma_wrap_parts(m0[key].value.size() as int, key.len() as int);
                        lemma_wrap(wrap(used0 - weight_of(m0, gone)), w, 0);
                        lemma_wrap_twice(used0 as int, weight_of(m0, gone), w);
                        lemma_weight_split(m0, gone.insert(key), key);
                        assert(gone.insert(key).remove(key) =~= gone);
                        gone = gone.insert(key);
                        assert(self.map() =~= m0.remove_keys(gone));
                    }
                } else {
                    i = i + 1;
                }
            }
            s = s + 1;
        }
        proof {
            assert forall|k: Seq<u8>| #[trigger] all_db_keys(m0, db_id).contains(k) implies gone.contains(k) by {
                if !gone.contains(k) {
                    assert(self.map().contains_key(k));
                    let j = self.lemma_placed(k);
                    assert(!in_db(self.shards@[shard_of(k)]@[j].0@, db_id));
                }
            }
            assert(gone =~= all_db_keys(m0, db_id));
            old(self).lemma_counted();
            law_weight_of_removed(m0, gone);
            lemma_wrap_diff(total_weight(m0), weight_of(m0, gone));
        }
        count
    }

    /// Removes the given keys.
    pub fn remove_keys(&mut self, keys: &Vec<Vec<u8>>)
        requires
            old(self).wf(),
        ensures
            final(self).wf(),
            final(self).limit() == old(self).limit(),
            final(self).map() == old(self).map().remove_keys(views(keys@).to_set()),
            final(self).used() == wrap(
                old(self).used() - weight_of(
                    old(self).map(),
                    old(self).map().dom().intersect(views(keys@).to_set()),
                ),
            ),
    {
        let ghost m0 = self.map();
        let ghost used0 = self.used();
        let ghost mut gone: Set<Seq<u8>> = Set::empty();
        let mut i: usize = 0;
        assert(m0.remove_keys(gone) =~= m0);
        while i < keys.len()
            invariant
                i <= keys.len(),
                self.wf(),
                self.limit() == old(self).limit(),
                gone.finite(),
                self.map() == m0.remove_keys(gone),
                self.used() == wrap(used0 - weight_of(m0, gone)),
                forall|k: Seq<u8>| #[trigger] gone.contains(k) <==> m0.contains_key(k) && exists|j: int| 0 <= j < i && (#[trigger] keys@[j])@ == k,
            decreases keys.len() - i,
        {
            let ghost key = keys@[i as int]@;
            let ghost had = gone;
            let ghost before = self.map();
            let was = self.del(&keys[i]);
            proof {
                if was {
                    let w = weight(key, m0[key]);
                    assert(before[key] == m0[key]);
                    lemma_wrap_twice(used0 as int, weight_of(m0, gone), w);
                    lemma_weight_split(m0, gone.insert(key), key);
                    assert(gone.insert(key).remove(key) =~= gone);
                    gone = gone.insert(key);
                }
                assert(self.map() =~= m0.remove_keys(gone));
                assert forall|k: Seq<u8>| #[trigger] gone.contains(k) <==> m0.contains_key(k) && exists|j: int| 0 <= j < i + 1 && (#[trigger] keys@[j])@ == k by {
                    assert(had.contains(k) <==> m0.contains_key(k) && exists|j: int| 0 <= j < i && (#[trigger] keys@[j])@ == k);
                    if k == key {
                        assert(keys@[i as int]@ == k);
                    }
                }
            }
            i = i + 1;
        }
        proof {
            let set = views(keys@).to_set();
            assert forall|k: Seq<u8>| #[trigger] gone.contains(k) <==> m0.dom().intersect(set).contains(k) by {
                if set.contains(k) {
                    let j = choose|j: int| 0 <= j < views(keys@).len() && views(keys@)[j] == k;
                    assert(keys@[j]@ == k);
                }
                if exists|j: int| 0 <= j < i && (#[trigger] keys@[j])@ == k {
                    let j = choose|j: int| 0 <= j < i && (#[trigger] keys@[j])@ == k;
                    assert(views(keys@)[j] == k);
                }
            }
            assert(gone =~= m0.dom().intersect(set));
            assert(self.map() =~= m0.remove_keys(set));
        }
    }

    /// Bytes that a live entry and its key take.
    pub fn memory_usage_of(&self, key: &[u8], now_ms: u64) -> (r: Option<u64>)
        requires
            self.wf(),
        ensures
            r == (match live_entry(self.map(), key@, now_ms) {
                Some(e) => Some(wrap(weight(key@, e))),
                None => None,
            }),
    {
        let s: usize = Self::shard_idx(key);
        let i: usize = self.find(s, key);
        if i == self.shards[s].len() {
            return None;
        }
        let e = &self.shards[s][i].1;
        if e.is_expired(now_ms) {
            return None;
        }
        let key_len: u64 = key.len() as u64;
        proof {
            lemma_wrap_parts(e@.value.size() as int, key@.len() as int);
        }
        Some(e.value.memory_usage().wrapping_add(key_len))
    }

    /// Name of the type of a live value, `none` where there is none.
    pub fn key_type(&self, key: &[u8], now_ms: u64) -> (r: &'static str)
        requires
            self.wf(),
        ensures
            r@ == (match live_entry(self.map(), key@, now_ms) {
                Some(e) => e.value.kind(),
                None => "none"@,
            }),
    {
        let s: usize = Self::shard_idx(key);
        let i: usize = self.find(s, key);
        if i == self.shards[s].len() {
            return "none";
        }
        let e = &self.shards[s][i].1;
        if e.is_expired(now_ms) {
            "none"
        } else {
            e.value.kind()
        }
    }
}

proof fn lemma_wrap_twice(used: int, a: int, b: int)
    ensures
        wrap(wrap(used - a) - b) == wrap(used - (a + b)),
{
    let m: int = 0x1_0000_0000_0000_0000;
    vstd::arithmetic::div_mod::lemma_add_mod_noop_right(-b, used - a, m);
    assert(-b + (used - a) == used - (a + b));
}

/// The items are live entries with their use counters, each key once.
pub open spec fn are_candidates(c: Seq<(Seq<u8>, u8)>, m: Map<Seq<u8>, EntryView>, now: u64) -> bool {
    &&& forall|j: int| 0 <= j < c.len() ==> (live_entry(m, (#[trigger] c[j]).0, now) matches Some(e) && e.lfu_counter == c[j].1)
    &&& forall|i: int, j: int| 0 <= i < j < c.len() ==> (#[trigger] c[i]).0 != (#[trigger] c[j]).0
}

/// The keys of items.
pub open spec fn listed_keys(c: Seq<(Seq<u8>, u8)>) -> Seq<Seq<u8>> {
    c.map_values(|x: (Seq<u8>, u8)| x.0)
}

/// The keys of items that belong to one shard.
pub open spec fn listed_in_shard(c: Seq<(Seq<u8>, u8)>, s: int) -> Set<Seq<u8>> {
    listed_keys(c).to_set().filter(|k: Seq<u8>| shard_of(k) == s)
}

/// The stored keys of one shard.
pub open spec fn keys_in_shard(m: Map<Seq<u8>, EntryView>, s: int) -> Set<Seq<u8>> {
    m.dom().filter(|k: Seq<u8>| shard_of(k) == s)
}

/// The stored keys of one shard whose time is over.
pub open spec fn expired_in_shard(m: Map<Seq<u8>, EntryView>, s: int, now: u64) -> Set<Seq<u8>> {
    m.dom().filter(|k: Seq<u8>| shard_of(k) == s && m[k].expired(now))
}

/// How many entries of one shard a search for `n` looks at: its part, or all
/// where there are fewer.
pub open spec fn looked_at(m: Map<Seq<u8>, EntryView>, s: int, n: usize) -> int {
    if keys_in_shard(m, s).len() < per_shard(n) {
        keys_in_shard(m, s).len() as int
    } else {
        per_shard(n)
    }
}

/// Every entry of one shard that a search for `n` looks at is listed, or its
/// time is over.
pub open spec fn is_searched(c: Seq<(Seq<u8>, u8)>, m: Map<Seq<u8>, EntryView>, s: int, n: usize, now: u64) -> bool {
    listed_in_shard(c, s).len() + expired_in_shard(m, s, now).len() >= looked_at(m, s, n)
}

/// What a search for `n` eviction candidates finds: live entries, no more of
/// one shard than its part, and the whole part of each shard but for entries
/// whose time is over, unless enough were found.
pub open spec fn is_sample(c: Seq<(Seq<u8>, u8)>, m: Map<Seq<u8>, EntryView>, n: usize, now: u64) -> bool {
    &&& are_candidates(c, m, now)
    &&& c.len() <= n + per_shard(n)
    &&& forall|s: int| 0 <= s < 16 ==> #[trigger] listed_in_shard(c, s).len() <= looked_at(m, s, n)
    &&& c.len() < n ==> forall|s: int| 0 <= s < 16 ==> #[trigger] is_searched(c, m, s, n, now)
}

proof fn lemma_listed(c: Seq<(Seq<u8>, u8)>, k: Seq<u8>)
    ensures
        listed_keys(c).to_set().finite(),
        listed_keys(c).to_set().contains(k) <==> exists|j: int| 0 <= j < c.len() && (#[trigger] c[j]).0 == k,
{
    if listed_keys(c).contains(k) {
        let j = choose|j: int| 0 <= j < c.len() && listed_keys(c)[j] == k;
        assert(c[j].0 == k);
    }
    if exists|j: int| 0 <= j < c.len() && (#[trigger] c[j]).0 == k {
        let j = choose|j: int| 0 <= j < c.len() && (#[trigger] c[j]).0 == k;
        assert(listed_keys(c)[j] == k);
    }
}

/// Why entries are evicted: the pool has no room left, or little.
#[derive(Debug, Clone, Copy, PartialEq, Eq, Structural)]
pub enum EvictionReason {
    Oom,
    Lfu,
}

/// How many entries one round of eviction takes: five in a hundred without
/// room, one in a hundred with little, within bounds.
pub open spec fn eviction_quota(reason: EvictionReason, total: int) -> int {
    match reason {
        EvictionReason::Oom => if total / 20 < 64 { 64 } else if total / 20 > 4096 { 4096 } else { total / 20 },
        EvictionReason::Lfu => if total / 100 < 16 { 16 } else if total / 100 > 512 { 512 } else { total / 100 },
    }
}

/// The keys that one round of eviction takes: those with the lowest use
/// counters in a sample of the live entries.
pub open spec fn are_evicted(gone: Seq<Seq<u8>>, m: Map<Seq<u8>, EntryView>, n: usize, now: u64) -> bool {
    exists|c: Seq<(Seq<u8>, u8)>|
        is_sample(c, m, (4 * n) as usize, now) && gone == #[trigger] first_keys(by_counter(c, 256), n as int)
}

/// A round of eviction takes something, unless in every shard the entries that
/// are looked at may be ones whose time is over; and it takes no more than was
/// asked for, and live entries alone.
pub proof fn law_eviction_takes_something(gone: Seq<Seq<u8>>, m: Map<Seq<u8>, EntryView>, n: usize, now: u64, s: int)
    requires
        are_evicted(gone, m, n, now),
        0 < n,
        4 * n <= usize::MAX,
        0 <= s < 16,
        expired_in_shard(m, s, now).len() < looked_at(m, s, (4 * n) as usize),
    ensures
        gone.len() > 0,
        gone.len() <= n,
        forall|i: int| 0 <= i < gone.len() ==> live_entry(m, #[trigger] gone[i], now) is Some,
{
    let c = choose|c: Seq<(Seq<u8>, u8)>|
        is_sample(c, m, (4 * n) as usize, now) && gone == #[trigger] first_keys(by_counter(c, 256), n as int);
    if c.len() == 0 {
        assert(is_searched(c, m, s, (4 * n) as usize, now));
        lemma_none_listed(c, s);
    }
    let sorted = by_counter(c, 256);
    law_by_counter(c, 256);
    assert(sorted.contains(c[0])) by {
        assert(c.contains(c[0]));
    }
    assert forall|i: int| 0 <= i < gone.len() implies live_entry(m, #[trigger] gone[i], now) is Some by {
        let x = sorted[i];
        assert(sorted.contains(x));
        assert(c.contains(x));
        let j = choose|j: int| 0 <= j < c.len() && c[j] == x;
        assert(c[j] == x);
        assert(gone[i] == x.0);
        assert(live_entry(m, c[j].0, now) is Some);
    }
}

/// The keys that go are the least used of a sample of live entries: none of the
/// sample that stays has a lower counter than one that goes. As many go as were
/// asked for, or the whole sample where it is smaller.
pub proof fn law_least_used_go(gone: Seq<Seq<u8>>, m: Map<Seq<u8>, EntryView>, n: usize, now: u64) -> (sample: Seq<
    (Seq<u8>, u8),
>)
    requires
        are_evicted(gone, m, n, now),
        4 * n <= usize::MAX,
    ensures
        is_sample(sample, m, (4 * n) as usize, now),
        forall|j: int| 0 <= j < sample.len() ==> m.contains_key((#[trigger] sample[j]).0) && m[sample[j].0].lfu_counter
            == sample[j].1 && (m[sample[j].0].expires_at_ms == 0 || now < m[sample[j].0].expires_at_ms),
        gone.len() == if n < sample.len() { n as nat } else { sample.len() },
        forall|i: int| 0 <= i < gone.len() ==> listed_keys(sample).contains(#[trigger] gone[i]),
        forall|i: int, j: int|
            0 <= i < gone.len() && 0 <= j < sample.len() && !gone.contains(sample[j].0) ==> m[#[trigger] gone[i]].lfu_counter <= (
            #[trigger] sample[j]).1,
{
    let c = choose|c: Seq<(Seq<u8>, u8)>|
        is_sample(c, m, (4 * n) as usize, now) && gone == #[trigger] first_keys(by_counter(c, 256), n as int);
    let sorted = by_counter(c, 256);
    law_by_counter(c, 256);
    assert(sorted.len() == c.len()) by {
        sorted.to_multiset_ensures();
        c.to_multiset_ensures();
    }
    assert forall|i: int| 0 <= i < gone.len() implies listed_keys(c).contains(#[trigger] gone[i]) by {
        assert(gone[i] == sorted[i].0);
        assert(sorted.contains(sorted[i]));
        assert(c.contains(sorted[i]));
        let j = choose|j: int| 0 <= j < c.len() && c[j] == sorted[i];
        assert(listed_keys(c)[j] == gone[i]);
    }
    assert forall|i: int, j: int|
        0 <= i < gone.len() && 0 <= j < c.len() && !gone.contains(c[j].0) implies m[#[trigger] gone[i]].lfu_counter <= (
    #[trigger] c[j]).1 by {
        assert(c.contains(c[j]));
        assert(sorted.contains(c[j]));
        let k = choose|k: int| 0 <= k < sorted.len() && sorted[k] == c[j];
        if k < gone.len() {
            assert(gone[k] == c[j].0);
        }
        assert(sorted[i].1 <= sorted[k].1);
        assert(sorted.contains(sorted[i]));
        assert(c.contains(sorted[i]));
        let a = choose|a: int| 0 <= a < c.len() && c[a] == sorted[i];
        assert(live_entry(m, c[a].0, now) is Some);
        assert(gone[i] == sorted[i].0);
    }
    c
}

/// A round takes five in a hundred of the entries where there is no room, and
/// one in a hundred where there is little: at least 64 and at most 4096, or at
/// least 16 and at most 512.
pub proof fn law_eviction_quota(total: int)
    requires
        total >= 0,
    ensures
        ({
            let q = eviction_quota(EvictionReason::Oom, total);
            &&& 64 <= q <= 4096
            &&& 64 < q < 4096 ==> 20 * q <= total < 20 * (q + 1)
            &&& q == 64 ==> total < 20 * 65
            &&& q == 4096 ==> total >= 20 * 4096
        }),
        ({
            let q = eviction_quota(EvictionReason::Lfu, total);
            &&& 16 <= q <= 512
            &&& 16 < q < 512 ==> 100 * q <= total < 100 * (q + 1)
            &&& q == 16 ==> total < 100 * 17
            &&& q == 512 ==> total >= 100 * 512
        }),
{
}

impl Pool {
    /// Evicts up to `n` of the least used entries. Returns their keys.
    fn evict(&mut self, n: usize, now_ms: u64) -> (gone: Vec<Vec<u8>>)
        requires
            old(self).wf(),
            n <= 4096,
        ensures
            final(self).wf(),
            final(self).limit() == old(self).limit(),
            are_evicted(views(gone@), old(self).map(), n, now_ms),
            final(self).map() == old(self).map().remove_keys(views(gone@).to_set()),
            final(self).used() == wrap(
                old(self).used() - weight_of(
                    old(self).map(),
                    old(self).map().dom().intersect(views(gone@).to_set()),
                ),
            ),
    {
        let candidates = self.lfu_candidates(n * 4, now_ms);
        let gone = Lethe::pick_eviction_candidates(candidates.as_slice(), n);
        assert(views(gone@) == first_keys(by_counter(counted_views(candidates@), 256), n as int));
        self.remove_keys(&gone);
        gone
    }

    /// One round of eviction. Without room it evicts more than with little
    /// room; `pressed` says whether the pool is filled beyond the threshold.
    /// Returns why and what was evicted.
    pub fn relieve(&mut self, pressed: bool, now_ms: u64) -> (r: Option<(EvictionReason, Vec<Vec<u8>>)>)
        requires
            old(self).wf(),
        ensures
            final(self).wf(),
            final(self).limit() == old(self).limit(),
            match r {
                None => {
                    &&& old(self).used() < old(self).limit() && !pressed
                    &&& final(self).map() == old(self).map()
                    &&& final(self).used() == old(self).used()
                },
                Some((reason, gone)) => {
                    &&& reason == (if old(self).used() >= old(self).limit() {
                        EvictionReason::Oom
                    } else {
                        EvictionReason::Lfu
                    })
                    &&& old(self).used() >= old(self).limit() || pressed
                    &&& are_evicted(
                        views(gone@),
                        old(self).map(),
                        eviction_quota(reason, capped(old(self).map().dom().len()) as int) as usize,
                        now_ms,
                    )
                    &&& final(self).map() == old(self).map().remove_keys(views(gone@).to_set())
                    &&& final(self).used() == wrap(
                        old(self).used() - weight_of(
                            old(self).map(),
                            old(self).map().dom().intersect(views(gone@).to_set()),
                        ),
                    )
                },
            },
    {
        let reason = if self.is_full() {
            EvictionReason::Oom
        } else if pressed {
            EvictionReason::Lfu
        } else {
            return None;
        };
        let total: u64 = self.total_entries();
        let n: usize = match reason {
            EvictionReason::Oom => if total / 20 < 64 {
                64
            } else if total / 20 > 4096 {
                4096
            } else {
                (total / 20) as usize
            },
            EvictionReason::Lfu => if total / 100 < 16 {
                16
            } else if total / 100 > 512 {
                512
            } else {
                (total / 100) as usize
            },
        };
        let gone = self.evict(n, now_ms);
        Some((reason, gone))
    }

    /// Live entries to choose from for eviction, with their use counters. Of
    /// each shard its part is looked at, and the search ends once `n` are
    /// found. Which entries of a shard those are is left open.
    pub fn lfu_candidates(&self, n: usize, now_ms: u64) -> (r: Vec<(Vec<u8>, u8)>)
        requires
            self.wf(),
        ensures
            is_sample(counted_views(r@), self.map(), n, now_ms),
    {
        let limit: usize = if n / 16 < 4 { 4 } else { n / 16 };
        let ghost m = self.map();
        let mut out: Vec<(Vec<u8>, u8)> = Vec::new();
        let mut s: usize = 0;
        while s < 16
            invariant
                s <= 16,
                self.placed(),
                m == self.map(),
                limit == per_shard(n),
                are_candidates(counted_views(out@), m, now_ms),
                out@.len() < n || s == 0 && out@.len() == 0,
                forall|j: int| 0 <= j < out@.len() ==> shard_of((#[trigger] counted_views(out@)[j]).0) < s,
                forall|t: int| 0 <= t < s ==> (#[trigger] listed_in_shard(counted_views(out@), t)).len() <= looked_at(m, t, n),
                forall|t: int| 0 <= t < s ==> #[trigger] is_searched(counted_views(out@), m, t, n, now_ms),
            decreases 16 - s,
        {
            let shard = &self.shards[s];
            let ghost had = out@.len();
            let ghost prev = counted_views(out@);
            let mut i: usize = 0;
            while i < shard.len() && i < limit
                invariant
                    i <= shard.len(),
                    i <= limit,
                    s < 16,
                    self.placed(),
                    m == self.map(),
                    shard@ == self.shards@[s as int]@,
                    had == prev.len(),
                    had <= out@.len() <= had + i,
                    are_candidates(counted_views(out@), m, now_ms),
                    forall|j: int| 0 <= j < had ==> #[trigger] counted_views(out@)[j] == prev[j],
                    forall|j: int| 0 <= j < had ==> shard_of((#[trigger] prev[j]).0) < s,
                    forall|j: int| had <= j < out@.len() ==> stands_before(shard@, (#[trigger] counted_views(out@)[j]).0, i as int),
                    forall|q: int|
                        0 <= q < i && !(#[trigger] shard@[q]).1@.expired(now_ms) ==> listed_keys(counted_views(out@)).contains(
                            shard@[q].0@,
                        ),
                decreases shard.len() - i,
            {
                let ghost key = shard@[i as int].0@;
                let ghost listed = counted_views(out@);
                proof {
                    self.lemma_place(s as int, i as int);
                    assert(shard_wf(self.shards@[s as int]@, s as int));
                    assert forall|j: int| 0 <= j < listed.len() implies (#[trigger] listed[j]).0 != key by {
                        if j < had {
                            assert(listed[j] == prev[j]);
                        } else {
                            let q = choose|q: int| 0 <= q < i && at(shard@, listed[j].0, q);
                            assert(shard@[q].0@ != shard@[i as int].0@);
                        }
                    }
                }
                if !shard[i].1.is_expired(now_ms) {
                    out.push((copy_bytes(&shard[i].0), shard[i].1.lfu_counter));
                    assert(counted_views(out@) =~= listed.push((key, shard@[i as int].1@.lfu_counter)));
                }
                proof {
                    let after = counted_views(out@);
                    assert forall|j: int| 0 <= j < listed.len() implies #[trigger] after[j] == listed[j] by {
                    }
                    assert forall|j: int| had <= j < after.len() implies stands_before(shard@, (#[trigger] after[j]).0, i + 1) by {
                        if j < listed.len() {
                            assert(after[j] == listed[j]);
                            let q = choose|q: int| 0 <= q < i && at(shard@, listed[j].0, q);
                            assert(at(shard@, after[j].0, q));
                        } else {
                            assert(at(shard@, after[j].0, i as int));
                        }
                    }
                    assert forall|q: int| 0 <= q < i + 1 && !(#[trigger] shard@[q]).1@.expired(now_ms) implies listed_keys(
                        after,
                    ).contains(shard@[q].0@) by {
                        if q < i {
                            let j = choose|j: int| 0 <= j < listed.len() && listed_keys(listed)[j] == shard@[q].0@;
                            assert(listed_keys(after)[j] == shard@[q].0@);
                        } else {
                            assert(listed_keys(after)[listed.len() as int] == key);
                        }
                    }
                }
                i = i + 1;
            }
            proof {
                let after = counted_views(out@);
                assert forall|j: int| 0 <= j < after.len() implies shard_of((#[trigger] after[j]).0) < s + 1 by {
                    if j < had {
                        assert(after[j] == prev[j]);
                    } else {
                        let q = choose|q: int| 0 <= q < i && at(shard@, after[j].0, q);
                        self.lemma_place(s as int, q);
                    }
                }
                self.lemma_searched(prev, after, s as int, i as int, now_ms);
                self.lemma_shard_keys(s as int);
                assert(keys_in_shard(m, s as int) =~= self.shard_keys(s as int));
                assert(i == looked_at(m, s as int, n));
                assert forall|t: int| 0 <= t < s + 1 implies (#[trigger] listed_in_shard(after, t)).len() <= looked_at(m, t, n) by {
                    if t < s {
                        assert(listed_in_shard(after, t) == listed_in_shard(prev, t));
                    }
                }
                assert forall|t: int| 0 <= t < s + 1 implies #[trigger] is_searched(after, m, t, n, now_ms) by {
                    if t < s {
                        assert(is_searched(prev, m, t, n, now_ms));
                        assert(listed_in_shard(after, t) == listed_in_shard(prev, t));
                    }
                }
            }
            if out.len() >= n {
                proof {
                    assert forall|t: int| 0 <= t < 16 implies (#[trigger] listed_in_shard(counted_views(out@), t)).len()
                        <= looked_at(m, t, n) by {
                        if t > s {
                            lemma_none_listed(counted_views(out@), t);
                        }
                    }
                }
                return out;
            }
            s = s + 1;
        }
        out
    }

    /// What looking at the first entries of a shard lists.
    proof fn lemma_searched(&self, prev: Seq<(Seq<u8>, u8)>, after: Seq<(Seq<u8>, u8)>, s: int, upto: int, now: u64)
        requires
            self.placed(),
            0 <= s < 16,
            0 <= upto <= self.shards@[s]@.len(),
            prev.len() <= after.len(),
            forall|j: int| 0 <= j < prev.len() ==> #[trigger] after[j] == prev[j],
            forall|j: int| 0 <= j < prev.len() ==> shard_of((#[trigger] prev[j]).0) < s,
            forall|j: int| prev.len() <= j < after.len() ==> stands_before(self.shards@[s]@, (#[trigger] after[j]).0, upto),
            forall|q: int|
                0 <= q < upto && !(#[trigger] self.shards@[s]@[q]).1@.expired(now) ==> listed_keys(after).contains(
                    self.shards@[s]@[q].0@,
                ),
        ensures
            forall|t: int| 0 <= t < s ==> #[trigger] listed_in_shard(after, t) == listed_in_shard(prev, t),
            listed_in_shard(after, s).len() <= upto,
            listed_in_shard(after, s).len() + expired_in_shard(self.map(), s, now).len() >= upto,
    {
        let sh = self.shards@[s]@;
        let m = self.map();
        assert(shard_wf(sh, s));
        let first = Seq::new(upto as nat, |q: int| sh[q].0@);
        assert(first.no_duplicates());
        first.unique_seq_to_set();
        let f = first.to_set();
        let a = listed_in_shard(after, s);
        let e = expired_in_shard(m, s, now);
        lemma_listed(after, Seq::empty());
        self.lemma_counted();
        assert forall|k: Seq<u8>| a.contains(k) implies f.contains(k) by {
            lemma_listed(after, k);
            let j = choose|j: int| 0 <= j < after.len() && (#[trigger] after[j]).0 == k;
            if j < prev.len() {
                assert(after[j] == prev[j]);
            } else {
                let q = choose|q: int| 0 <= q < upto && at(sh, after[j].0, q);
                assert(first[q] == k);
            }
        }
        assert forall|k: Seq<u8>| f.contains(k) implies (a + e).contains(k) by {
            let q = choose|q: int| 0 <= q < upto && first[q] == k;
            self.lemma_place(s, q);
            if !sh[q].1@.expired(now) {
                assert(listed_keys(after).contains(k));
            }
        }
        vstd::set_lib::lemma_len_subset(a, f);
        vstd::set_lib::lemma_len_subset(f, a + e);
        vstd::set_lib::lemma_len_union(a, e);
        assert forall|t: int| 0 <= t < s implies #[trigger] listed_in_shard(after, t) == listed_in_shard(prev, t) by {
            assert forall|k: Seq<u8>| listed_in_shard(after, t).contains(k) <==> listed_in_shard(prev, t).contains(k) by {
                lemma_listed(after, k);
                lemma_listed(prev, k);
                if listed_in_shard(after, t).contains(k) {
                    let j = choose|j: int| 0 <= j < after.len() && (#[trigger] after[j]).0 == k;
                    if j >= prev.len() {
                        let q = choose|q: int| 0 <= q < upto && at(sh, after[j].0, q);
                        self.lemma_place(s, q);
                    } else {
                        assert(prev[j].0 == k);
                    }
                }
                if listed_in_shard(prev, t).contains(k) {
                    let j = choose|j: int| 0 <= j < prev.len() && (#[trigger] prev[j]).0 == k;
                    assert(after[j].0 == k);
                }
            }
            assert(listed_in_shard(after, t) =~= listed_in_shard(prev, t));
        }
    }
}

proof fn lemma_none_listed(c: Seq<(Seq<u8>, u8)>, s: int)
    requires
        forall|j: int| 0 <= j < c.len() ==> shard_of((#[trigger] c[j]).0) != s,
    ensures
        listed_in_shard(c, s).len() == 0,
{
    assert forall|k: Seq<u8>| !listed_in_shard(c, s).contains(k) by {
        lemma_listed(c, k);
        if listed_in_shard(c, s).contains(k) {
            let j = choose|j: int| 0 <= j < c.len() && (#[trigger] c[j]).0 == k;
        }
    }
    assert(listed_in_shard(c, s) =~= Set::empty());
}

/// The keys of a database, as its users know them, that are live and match a
/// pattern.
pub open spec fn scanned(
    m: Map<Seq<u8>, EntryView>,
    db_id: u16,
    pattern: Option<Seq<u8>>,
    now: u64,
) -> spec_fn(Seq<u8>) -> bool {
    |u: Seq<u8>| live_entry(m, db_key(db_id, u), now) is Some && key_matches(u, pattern)
}

proof fn lemma_user_key(k: Seq<u8>, db_id: u16)
    requires
        in_db(k, db_id),
    ensures
        k.len() >= 2,
        db_key(db_id, k.subrange(2, k.len() as int)) == k,
{
    assert(k.subrange(0, 2) == db_prefix(db_id));
    assert(k =~= k.subrange(0, 2) + k.subrange(2, k.len() as int));
}

proof fn lemma_db_key(db_id: u16, u: Seq<u8>)
    ensures
        in_db(db_key(db_id, u), db_id),
        db_key(db_id, u).subrange(2, db_key(db_id, u).len() as int) == u,
{
    assert(db_key(db_id, u).subrange(0, 2) =~= db_prefix(db_id));
    assert(db_key(db_id, u).subrange(2, db_key(db_id, u).len() as int) =~= u);
}

impl Pool {
    /// The live keys of a database that match a pattern, in any order.
    #[verifier::rlimit(60)]
    #[verifier::spinoff_prover]
    fn user_keys(&self, db_id: u16, pattern: Option<&str>, now_ms: u64) -> (found: VecDeque<Vec<u8>>)
        requires
            self.placed(),
        ensures
            views(found@).no_duplicates(),
            forall|u: Seq<u8>| #[trigger] views(found@).contains(u) <==> scanned(self.map(), db_id, pattern_bytes(pattern), now_ms)(u),
    {
        let prefix: Vec<u8> = db_prefix_exec(db_id);
        let ghost m = self.map();
        let ghost pick = scanned(m, db_id, pattern_bytes(pattern), now_ms);
        let mut found: VecDeque<Vec<u8>> = VecDeque::new();
        let mut s: usize = 0;
        while s < 16
            invariant
                s <= 16,
                self.placed(),
                m == self.map(),
                pick == scanned(m, db_id, pattern_bytes(pattern), now_ms),
                prefix@ == db_prefix(db_id),
                views(found@).no_duplicates(),
                forall|u: Seq<u8>| #[trigger] views(found@).contains(u) <==> pick(u) && shard_of(db_key(db_id, u)) < s,
            decreases 16 - s,
        {
            let ghost prev = views(found@);
            let shard = &self.shards[s];
            let mut i: usize = 0;
            while i < shard.len()
                invariant
                    i <= shard.len(),
                    s < 16,
                    self.placed(),
                    m == self.map(),
                    pick == scanned(m, db_id, pattern_bytes(pattern), now_ms),
                    shard@ == self.shards@[s as int]@,
                    prefix@ == db_prefix(db_id),
                    views(found@).no_duplicates(),
                    forall|u: Seq<u8>| #[trigger] prev.contains(u) ==> shard_of(db_key(db_id, u)) < s,
                    forall|u: Seq<u8>| #[trigger] views(found@).contains(u) <==> prev.contains(u) || (pick(u)
                        && stands_before(shard@, db_key(db_id, u), i as int)),
                decreases shard.len() - i,
            {
                let ghost key = shard@[i as int].0@;
                let ghost had = views(found@);
                proof {
                    self.lemma_place(s as int, i as int);
                    assert(shard_wf(self.shards@[s as int]@, s as int));
                }
                if starts_with(&shard[i].0, &prefix) && !shard[i].1.is_expired(now_ms) {
                    proof {
                        lemma_user_key(key, db_id);
                    }
                    let user = vstd::slice::slice_subrange(shard[i].0.as_slice(), 2, shard[i].0.len());
                    assert(user@ == key.subrange(2, key.len() as int));
                    if matches_pattern(user, pattern) {
                        let ghost u = user@;
                        proof {
                            if had.contains(u) {
                                assert(stands_before(shard@, key, i as int));
                                let q = choose|q: int| 0 <= q < i && at(shard@, key, q);
                                assert(shard@[q].0@ != shard@[i as int].0@);
                            }
                        }
                        found.push_back(copy_bytes(user));
                        assert(views(found@) =~= had.push(u));
                        assert(views(found@).no_duplicates());
                    }
                }
                proof {
                    let now_found = views(found@);
                    assert forall|u: Seq<u8>| #[trigger] now_found.contains(u) <==> prev.contains(u) || (pick(u)
                        && stands_before(shard@, db_key(db_id, u), i + 1)) by {
                        lemma_db_key(db_id, u);
                        assert(had.contains(u) <==> prev.contains(u) || (pick(u)
                            && stands_before(shard@, db_key(db_id, u), i as int)));
                        if db_key(db_id, u) == key {
                            assert(at(shard@, key, i as int));
                            assert(u == key.subrange(2, key.len() as int));
                        }
                        if had.contains(u) {
                            let j = choose|j: int| 0 <= j < had.len() && had[j] == u;
                            assert(now_found[j] == u);
                        }
                        if now_found.len() > had.len() {
                            let x = now_found[had.len() as int];
                            if now_found.contains(u) && u != x {
                                let j = choose|j: int| 0 <= j < now_found.len() && now_found[j] == u;
                                assert(had[j] == u);
                            }
                            if u == x {
                                assert(now_found.contains(x));
                            }
                        }
                        if stands_before(shard@, db_key(db_id, u), i + 1) {
                            let q = choose|q: int| 0 <= q < i + 1 && at(shard@, db_key(db_id, u), q);
                            if q < i {
                                assert(stands_before(shard@, db_key(db_id, u), i as int));
                            }
                        }
                        if stands_before(shard@, db_key(db_id, u), i as int) {
                            let q = choose|q: int| 0 <= q < i && at(shard@, db_key(db_id, u), q);
                            assert(0 <= q < i + 1);
                        }
                    }
                }
                i = i + 1;
            }
            proof {
                assert forall|u: Seq<u8>| #[trigger] views(found@).contains(u) <==> pick(u) && shard_of(db_key(db_id, u)) < s + 1 by {
                    let k = db_key(db_id, u);
                    if pick(u) && shard_of(k) == s {
                        let j = self.lemma_placed(k);
                        assert(at(shard@, k, j));
                    }
                    if stands_before(shard@, k, i as int) {
                        let j = choose|j: int| 0 <= j < i && at(shard@, k, j);
                        self.lemma_place(s as int, j);
                    }
                    assert(prev.contains(u) <==> pick(u) && shard_of(k) < s);
                }
            }
            s = s + 1;
        }
        found
    }

    /// One page of the live keys of a database that match a pattern, in
    /// order, and the cursor of the next page; cursor 0 says that this was the
    /// last one. The keys come without the number of their database.
    pub fn scan_db(&self, db_id: u16, cursor: u64, pattern: Option<&str>, count: u64, now_ms: u64) -> (r: (u64, Vec<Vec<u8>>))
        requires
            self.wf(),
        ensures
            is_listing(
                listing(scanned(self.map(), db_id, pattern_bytes(pattern), now_ms)),
                scanned(self.map(), db_id, pattern_bytes(pattern), now_ms),
            ),
            (r.0 as int, views(r.1@)) == page(
                listing(scanned(self.map(), db_id, pattern_bytes(pattern), now_ms)),
                cursor as int,
                count as int,
            ),
    {
        let ghost pick = scanned(self.map(), db_id, pattern_bytes(pattern), now_ms);
        let keys = sort_keys(self.user_keys(db_id, pattern, now_ms));
        let ghost all = views(keys@);
        proof {
            assert(is_listing(all, pick));
            law_listing_unique(all, listing(pick), pick);
        }
        let len: u64 = keys.len() as u64;
        if cursor >= len {
            let none: Vec<Vec<u8>> = Vec::new();
            assert(views(none@) =~= Seq::empty());
            return (0, none);
        }
        let end: u64 = if count < len - cursor { cursor + count } else { len };
        let mut out: Vec<Vec<u8>> = Vec::new();
        let mut i: usize = cursor as usize;
        while i < end as usize
            invariant
                cursor <= i <= end <= keys@.len(),
                out@.len() == i - cursor,
                forall|j: int| 0 <= j < out@.len() ==> (#[trigger] out@[j])@ == keys@[cursor + j]@,
            decreases end - i,
        {
            out.push(copy_bytes(&keys[i]));
            i = i + 1;
        }
        assert(views(out@) =~= all.subrange(cursor as int, end as int));
        (if end >= len { 0 } else { end }, out)
    }
}

/// The database that a stored key belongs to.
pub open spec fn db_of(key: Seq<u8>) -> u16 {
    (key[0] * 256 + key[1]) as u16
}

/// Milliseconds until an entry expires; 0 for never.
pub open spec fn ttl_left(e: EntryView, now: u64) -> u64 {
    if e.expires_at_ms == 0 || e.expires_at_ms < now {
        0
    } else {
        (e.expires_at_ms - now) as u64
    }
}

/// The write that hands an entry on to a replica.
pub open spec fn handed_on(key: Seq<u8>, e: EntryView, now: u64) -> PushView {
    PushView::write(key, e.value, ttl_left(e, now), e.slot, db_of(key))
}

/// A write of a list hands on the live entry of a key.
pub open spec fn hands_on(p: Seq<PushView>, key: Seq<u8>) -> bool {
    exists|i: int| 0 <= i < p.len() && (#[trigger] p[i]).key == key
}

/// The writes hand on every live entry once and nothing else.
pub open spec fn is_replay(p: Seq<PushView>, m: Map<Seq<u8>, EntryView>, now: u64) -> bool {
    &&& forall|i: int|
        0 <= i < p.len() ==> (live_entry(m, (#[trigger] p[i]).key, now) matches Some(e) && p[i] == handed_on(p[i].key, e, now))
    &&& forall|i: int, j: int| 0 <= i < j < p.len() ==> (#[trigger] p[i]).key != (#[trigger] p[j]).key
    &&& forall|k: Seq<u8>| live_entry(m, k, now) is Some ==> #[trigger] hands_on(p, k)
}

/// Every stored key starts with a database number.
pub open spec fn all_prefixed(m: Map<Seq<u8>, EntryView>) -> bool {
    forall|k: Seq<u8>| #[trigger] m.contains_key(k) ==> k.len() >= 2
}

impl Pool {
    /// Whether every stored key starts with a database number.
    pub fn keys_prefixed(&self) -> (r: bool)
        requires
            self.wf(),
        ensures
            r == all_prefixed(self.map()),
    {
        let ghost m = self.map();
        let mut s: usize = 0;
        while s < 16
            invariant
                s <= 16,
                self.placed(),
                m == self.map(),
                forall|k: Seq<u8>| #[trigger] m.contains_key(k) && shard_of(k) < s ==> k.len() >= 2,
            decreases 16 - s,
        {
            let shard = &self.shards[s];
            let mut i: usize = 0;
            while i < shard.len()
                invariant
                    i <= shard.len(),
                    s < 16,
                    self.placed(),
                    m == self.map(),
                    shard@ == self.shards@[s as int]@,
                    forall|j: int| 0 <= j < i ==> (#[trigger] shard@[j]).0@.len() >= 2,
                decreases shard.len() - i,
            {
                proof {
                    self.lemma_place(s as int, i as int);
                }
                if shard[i].0.len() < 2 {
                    assert(m.contains_key(shard@[i as int].0@));
                    return false;
                }
                i = i + 1;
            }
            proof {
                assert forall|k: Seq<u8>| #[trigger] m.contains_key(k) && shard_of(k) < s + 1 implies k.len() >= 2 by {
                    if shard_of(k) == s {
                        let j = self.lemma_placed(k);
                        assert(shard@[j].0@.len() >= 2);
                    }
                }
            }
            s = s + 1;
        }
        true
    }

    /// The writes that hand all live entries on to a replica.
    pub fn replay(&self, now_ms: u64) -> (r: Vec<PushKeyPayload>)
        requires
            self.wf(),
            all_prefixed(self.map()),
        ensures
            is_replay(push_views(r@), self.map(), now_ms),
    {
        let ghost m = self.map();
        let mut out: Vec<PushKeyPayload> = Vec::new();
        let mut s: usize = 0;
        while s < 16
            invariant
                s <= 16,
                self.placed(),
                m == self.map(),
                all_prefixed(m),
                forall|i: int|
                    0 <= i < out@.len() ==> (live_entry(m, (#[trigger] out@[i])@.key, now_ms) matches Some(e) && out@[i]@
                        == handed_on(out@[i]@.key, e, now_ms)),
                forall|i: int, j: int| 0 <= i < j < out@.len() ==> (#[trigger] out@[i])@.key != (#[trigger] out@[j])@.key,
                forall|i: int| 0 <= i < out@.len() ==> shard_of((#[trigger] out@[i])@.key) < s,
                forall|k: Seq<u8>| live_entry(m, k, now_ms) is Some && shard_of(k) < s ==> #[trigger] hands_on(push_views(out@), k),
            decreases 16 - s,
        {
            let shard = &self.shards[s];
            let mut i: usize = 0;
            while i < shard.len()
                invariant
                    i <= shard.len(),
                    s < 16,
                    self.placed(),
                    m == self.map(),
                    all_prefixed(m),
                    shard@ == self.shards@[s as int]@,
                    forall|i: int|
                        0 <= i < out@.len() ==> (live_entry(m, (#[trigger] out@[i])@.key, now_ms) matches Some(e) && out@[i]@
                            == handed_on(out@[i]@.key, e, now_ms)),
                    forall|i: int, j: int| 0 <= i < j < out@.len() ==> (#[trigger] out@[i])@.key != (#[trigger] out@[j])@.key,
                    forall|j: int|
                        0 <= j < out@.len() ==> shard_of((#[trigger] out@[j])@.key) < s || stands_before(
                            shard@,
                            out@[j]@.key,
                            i as int,
                        ),
                    forall|k: Seq<u8>| live_entry(m, k, now_ms) is Some && shard_of(k) < s ==> #[trigger] hands_on(push_views(out@), k),
                    forall|j: int|
                        0 <= j < i && !(#[trigger] shard@[j]).1@.expired(now_ms) ==> hands_on(
                            push_views(out@),
                            shard@[j].0@,
                        ),
                decreases shard.len() - i,
            {
                let ghost key = shard@[i as int].0@;
                let ghost had = out@;
                proof {
                    self.lemma_place(s as int, i as int);
                    assert(shard_wf(self.shards@[s as int]@, s as int));
                    assert forall|j: int| 0 <= j < out@.len() implies (#[trigger] out@[j])@.key != key by {
                        if stands_before(shard@, out@[j]@.key, i as int) {
                            let h = choose|h: int| 0 <= h < i && at(shard@, out@[j]@.key, h);
                            assert(shard@[h].0@ != shard@[i as int].0@);
                        }
                    }
                }
                let e = &shard[i].1;
                if !e.is_expired(now_ms) {
                    let ttl: u64 = if e.expires_at_ms == 0 {
                        0
                    } else {
                        e.expires_at_ms.saturating_sub(now_ms)
                    };
                    let db_id: u16 = shard[i].0[0] as u16 * 256 + shard[i].0[1] as u16;
                    out.push(PushKeyPayload::write(copy_bytes(&shard[i].0), e.value.clone(), ttl, e.slot, db_id));
                    proof {
                        assert(push_views(out@)[out@.len() - 1].key == key);
                        assert(hands_on(push_views(out@), key));
                    }
                }
                proof {
                    assert forall|k: Seq<u8>| hands_on(push_views(had), k) implies #[trigger] hands_on(push_views(out@), k) by {
                        let j = choose|j: int| 0 <= j < push_views(had).len() && (#[trigger] push_views(had)[j]).key == k;
                        assert(push_views(out@)[j].key == k);
                    }
                    assert(at(shard@, key, i as int));
                    assert forall|j: int| 0 <= j < out@.len() implies shard_of((#[trigger] out@[j])@.key) < s || stands_before(
                        shard@,
                        out@[j]@.key,
                        i + 1,
                    ) by {
                        if j < had.len() {
                            assert(out@[j] == had[j]);
                        }
                    }
                }
                i = i + 1;
            }
            proof {
                assert forall|k: Seq<u8>| live_entry(m, k, now_ms) is Some && shard_of(k) < s + 1 implies #[trigger] hands_on(
                    push_views(out@),
                    k,
                ) by {
                    if shard_of(k) == s {
                        let j = self.lemma_placed(k);
                        assert(shard@[j].0@ == k);
                    }
                }
                assert forall|j: int| 0 <= j < out@.len() implies shard_of((#[trigger] out@[j])@.key) < s + 1 by {
                    if stands_before(shard@, out@[j]@.key, i as int) {
                        let h = choose|h: int| 0 <= h < i && at(shard@, out@[j]@.key, h);
                        self.lemma_place(s as int, h);
                    }
                }
            }
            s = s + 1;
        }
        out
    }
}

/// The number of a database is read back from the keys that it has in the pool.
pub proof fn law_database_of_key(db_id: u16, key: Seq<u8>)
    ensures
        db_of(db_key(db_id, key)) == db_id,
        db_key(db_id, key).len() == key.len() + 2,
        db_key(db_id, key).skip(2) == key,
{
    assert(db_key(db_id, key).skip(2) =~= key);
}

} // verus!
