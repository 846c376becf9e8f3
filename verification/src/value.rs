//! The values that the store holds, the entries around them, and the errors
//! that commands answer with.

use std::collections::VecDeque;

use vstd::prelude::*;

use crate::bytes::{copy_bytes, copy_pairs, pair_views, views};
use crate::num::{parse_i64, decimal_i64};

verus! {

/// A member of a sorted set. The score is kept as the bit pattern of an IEEE
/// 754 double.
#[derive(Debug)]
pub struct ZSetMember {
    pub score: u64,
    pub member: Vec<u8>,
}

impl View for ZSetMember {
    type V = (u64, Seq<u8>);

    open spec fn view(&self) -> (u64, Seq<u8>) {
        (self.score, self.member@)
    }
}

impl Clone for ZSetMember {
    fn clone(&self) -> (r: Self)
        ensures
            r@ == self@,
    {
        ZSetMember { score: self.score, member: copy_bytes(&self.member) }
    }
}

/// The contents of a list of sorted-set members.
pub open spec fn member_views(s: Seq<ZSetMember>) -> Seq<(u64, Seq<u8>)> {
    s.map_values(|m: ZSetMember| m@)
}

/// A JSON document as text.
#[derive(Debug)]
pub struct JsonDoc {
    pub raw: String,
}

/// A stored value.
#[derive(Debug)]
pub enum Value {
    String(Vec<u8>),
    Hash(Vec<(Vec<u8>, Vec<u8>)>),
    List(VecDeque<Vec<u8>>),
    ZSet(Vec<ZSetMember>),
    Counter(i64),
    Json(JsonDoc),
}

/// What a value holds.
pub enum ValueView {
    String(Seq<u8>),
    Hash(Seq<(Seq<u8>, Seq<u8>)>),
    List(Seq<Seq<u8>>),
    ZSet(Seq<(u64, Seq<u8>)>),
    Counter(i64),
    Json(Seq<char>),
}

impl View for Value {
    type V = ValueView;

    open spec fn view(&self) -> ValueView {
        match self {
            Value::String(b) => ValueView::String(b@),
            Value::Hash(p) => ValueView::Hash(pair_views(p@)),
            Value::List(l) => ValueView::List(views(l@)),
            Value::ZSet(m) => ValueView::ZSet(member_views(m@)),
            Value::Counter(n) => ValueView::Counter(*n),
            Value::Json(d) => ValueView::Json(d.raw@),
        }
    }
}

/// Total length of a list of byte strings.
pub open spec fn sum_len(s: Seq<Seq<u8>>) -> nat
    decreases s.len(),
{
    if s.len() == 0 {
        0
    } else {
        sum_len(s.drop_last()) + s.last().len()
    }
}

/// Total length of the fields and values of a hash.
pub open spec fn sum_pairs(s: Seq<(Seq<u8>, Seq<u8>)>) -> nat
    decreases s.len(),
{
    if s.len() == 0 {
        0
    } else {
        sum_pairs(s.drop_last()) + s.last().0.len() + s.last().1.len()
    }
}

/// Total size of sorted-set members: eight bytes of score and the member.
pub open spec fn sum_members(s: Seq<(u64, Seq<u8>)>) -> nat
    decreases s.len(),
{
    if s.len() == 0 {
        0
    } else {
        sum_members(s.drop_last()) + 8 + s.last().1.len()
    }
}

impl ValueView {
    /// Payload bytes of the value.
    pub open spec fn size(self) -> nat {
        match self {
            ValueView::String(b) => b.len(),
            ValueView::Hash(p) => sum_pairs(p),
            ValueView::List(l) => sum_len(l),
            ValueView::ZSet(m) => sum_members(m),
            ValueView::Counter(_) => 8,
            ValueView::Json(t) => vstd::utf8::encode_utf8(t).len(),
        }
    }

    /// Name of the value's type.
    pub open spec fn kind(self) -> Seq<char> {
        match self {
            ValueView::String(_) => "string"@,
            ValueView::Hash(_) => "hash"@,
            ValueView::List(_) => "list"@,
            ValueView::ZSet(_) => "zset"@,
            ValueView::Counter(_) => "counter"@,
            ValueView::Json(_) => "json"@,
        }
    }

    /// The number that a counter command works on: a counter's, or the one
    /// that a string spells out.
    pub open spec fn number(self) -> Option<int> {
        match self {
            ValueView::Counter(n) => Some(n as int),
            ValueView::String(b) => decimal_i64(b),
            _ => None,
        }
    }
}

/// What went wrong with a command.
#[derive(Debug)]
#[allow(inconsistent_fields)]
pub enum MnemeError {
    KeyNotFound,
    WrongType { expected: &'static str, got: &'static str },
    OutOfMemory,
    QuorumNotReached { got: usize, need: usize },
    Protocol(String),
    Serialization(String),
    /// An error that is nothing but its text.
    Message(String),
}

/// What an error says.
pub enum ErrorView {
    KeyNotFound,
    WrongType(Seq<char>, Seq<char>),
    OutOfMemory,
    QuorumNotReached(usize, usize),
    Protocol(Seq<char>),
    Serialization(Seq<char>),
    Message(Seq<char>),
}

impl View for MnemeError {
    type V = ErrorView;

    open spec fn view(&self) -> ErrorView {
        match self {
            MnemeError::KeyNotFound => ErrorView::KeyNotFound,
            MnemeError::WrongType { expected, got } => ErrorView::WrongType(expected@, got@),
            MnemeError::OutOfMemory => ErrorView::OutOfMemory,
            MnemeError::QuorumNotReached { got, need } => ErrorView::QuorumNotReached(*got, *need),
            MnemeError::Protocol(t) => ErrorView::Protocol(t@),
            MnemeError::Serialization(t) => ErrorView::Serialization(t@),
            MnemeError::Message(t) => ErrorView::Message(t@),
        }
    }
}

fn size_of_pairs(p: &Vec<(Vec<u8>, Vec<u8>)>) -> (r: u64)
    ensures
        r == sum_pairs(pair_views(p@)) % 0x1_0000_0000_0000_0000,
{
    let mut total: u64 = 0;
    let mut i: usize = 0;
    while i < p.len()
        invariant
            i <= p.len(),
            total == sum_pairs(pair_views(p@).take(i as int)) % 0x1_0000_0000_0000_0000,
        decreases p.len() - i,
    {
        let ghost next = pair_views(p@).take(i + 1);
        assert(next.drop_last() =~= pair_views(p@).take(i as int));
        total = total.wrapping_add(p[i].0.len() as u64).wrapping_add(p[i].1.len() as u64);
        i = i + 1;
    }
    assert(pair_views(p@).take(p@.len() as int) =~= pair_views(p@));
    total
}

fn size_of_list(l: &VecDeque<Vec<u8>>) -> (r: u64)
    ensures
        r == sum_len(views(l@)) % 0x1_0000_0000_0000_0000,
{
    let mut total: u64 = 0;
    let mut i: usize = 0;
    while i < l.len()
        invariant
            i <= l.len(),
            total == sum_len(views(l@).take(i as int)) % 0x1_0000_0000_0000_0000,
        decreases l.len() - i,
    {
        let ghost next = views(l@).take(i + 1);
        assert(next.drop_last() =~= views(l@).take(i as int));
        total = total.wrapping_add(l[i].len() as u64);
        i = i + 1;
    }
    assert(views(l@).take(l@.len() as int) =~= views(l@));
    total
}

fn size_of_members(m: &Vec<ZSetMember>) -> (r: u64)
    ensures
        r == sum_members(member_views(m@)) % 0x1_0000_0000_0000_0000,
{
    let mut total: u64 = 0;
    let mut i: usize = 0;
    while i < m.len()
        invariant
            i <= m.len(),
            total == sum_members(member_views(m@).take(i as int)) % 0x1_0000_0000_0000_0000,
        decreases m.len() - i,
    {
        let ghost next = member_views(m@).take(i + 1);
        assert(next.drop_last() =~= member_views(m@).take(i as int));
        total = total.wrapping_add(8).wrapping_add(m[i].member.len() as u64);
        i = i + 1;
    }
    assert(member_views(m@).take(m@.len() as int) =~= member_views(m@));
    total
}

/// A copy of a list.
pub fn copy_deque(l: &VecDeque<Vec<u8>>) -> (r: VecDeque<Vec<u8>>)
    ensures
        views(r@) == views(l@),
{
    let mut r: VecDeque<Vec<u8>> = VecDeque::new();
    let mut i: usize = 0;
    while i < l.len()
        invariant
            i <= l.len(),
            r@.len() == i,
            forall|j: int| 0 <= j < i ==> (#[trigger] r@[j])@ == l@[j]@,
        decreases l.len() - i,
    {
        r.push_back(copy_bytes(&l[i]));
        i = i + 1;
    }
    assert(views(r@) =~= views(l@));
    r
}

/// A copy of a list of sorted-set members.
pub fn copy_members(l: &Vec<ZSetMember>) -> (r: Vec<ZSetMember>)
    ensures
        member_views(r@) == member_views(l@),
{
    let mut r: Vec<ZSetMember> = Vec::new();
    let mut i: usize = 0;
    while i < l.len()
        invariant
            i <= l.len(),
            r@.len() == i,
            forall|j: int| 0 <= j < i ==> (#[trigger] r@[j])@ == l@[j]@,
        decreases l.len() - i,
    {
        r.push(l[i].clone());
        i = i + 1;
    }
    assert(member_views(r@) =~= member_views(l@));
    r
}

impl Clone for Value {
    fn clone(&self) -> (r: Self)
        ensures
            r@ == self@,
    {
        match self {
            Value::String(b) => Value::String(copy_bytes(b)),
            Value::Hash(p) => Value::Hash(copy_pairs(p)),
            Value::List(l) => Value::List(copy_deque(l)),
            Value::ZSet(m) => Value::ZSet(copy_members(m)),
            Value::Counter(n) => Value::Counter(*n),
            Value::Json(d) => Value::Json(JsonDoc { raw: d.raw.clone() }),
        }
    }
}

impl Value {
    pub fn kind(&self) -> (r: &'static str)
        ensures
            r@ == self@.kind(),
    {
        match self {
            Value::String(_) => "string",
            Value::Hash(_) => "hash",
            Value::List(_) => "list",
            Value::ZSet(_) => "zset",
            Value::Counter(_) => "counter",
            Value::Json(_) => "json",
        }
    }

    /// Payload bytes of the value, modulo 2^64.
    pub fn memory_usage(&self) -> (r: u64)
        ensures
            r == self@.size() % 0x1_0000_0000_0000_0000,
    {
        match self {
            Value::String(b) => b.len() as u64,
            Value::Hash(p) => size_of_pairs(p),
            Value::List(l) => size_of_list(l),
            Value::ZSet(m) => size_of_members(m),
            Value::Counter(_) => 8,
            Value::Json(d) => d.raw.as_str().as_bytes().len() as u64,
        }
    }

    /// Adds `delta` to a counter, or to the number that a string spells out,
    /// which thereby becomes a counter. Returns the new number.
    pub fn incrby(&mut self, delta: i64) -> (r: Result<i64, MnemeError>)
        ensures
            match old(self)@.number() {
                None => r matches Err(e) && e@ == ErrorView::WrongType("counter"@, old(self)@.kind())
                    && *final(self) == *old(self),
                Some(n) => if i64::MIN <= n + delta <= i64::MAX {
                    r == Ok::<i64, MnemeError>((n + delta) as i64)
                        && final(self)@ == ValueView::Counter((n + delta) as i64)
                } else {
                    r matches Err(e) && e@ == ErrorView::Protocol("counter overflow"@)
                        && *final(self) == *old(self)
                },
            },
    {
        let n: i64 = match &*self {
            Value::Counter(n) => *n,
            Value::String(b) => match parse_i64(b) {
                Some(n) => n,
                None => return Err(MnemeError::WrongType { expected: "counter", got: "string" }),
            },
            other => return Err(
                MnemeError::WrongType { expected: "counter", got: other.kind() },
            ),
        };
        match n.checked_add(delta) {
            None => Err(MnemeError::Protocol("counter overflow".to_string())),
            Some(sum) => {
                *self = Value::Counter(sum);
                Ok(sum)
            },
        }
    }
}

/// A value in the store: its slot, when it expires (0 for never), and how
/// often it was used.
#[derive(Debug)]
pub struct Entry {
    pub value: Value,
    pub slot: u16,
    pub expires_at_ms: u64,
    pub lfu_counter: u8,
}

/// What an entry holds.
pub struct EntryView {
    pub value: ValueView,
    pub slot: u16,
    pub expires_at_ms: u64,
    pub lfu_counter: u8,
}

impl View for Entry {
    type V = EntryView;

    open spec fn view(&self) -> EntryView {
        EntryView {
            value: self.value@,
            slot: self.slot,
            expires_at_ms: self.expires_at_ms,
            lfu_counter: self.lfu_counter,
        }
    }
}

impl EntryView {
    /// The entry's time is over at `now`.
    pub open spec fn expired(self, now: u64) -> bool {
        0 < self.expires_at_ms <= now
    }

    /// A new entry without expiry.
    pub open spec fn fresh(value: ValueView, slot: u16) -> EntryView {
        EntryView { value, slot, expires_at_ms: 0, lfu_counter: 0 }
    }

    /// The same entry, to expire `ttl` milliseconds after `now`.
    pub open spec fn expiring(self, ttl: u64, now: u64) -> EntryView {
        EntryView {
            expires_at_ms: if now + ttl > u64::MAX { u64::MAX } else { (now + ttl) as u64 },
            ..self
        }
    }
}

impl Clone for Entry {
    fn clone(&self) -> (r: Self)
        ensures
            r@ == self@,
    {
        Entry {
            value: self.value.clone(),
            slot: self.slot,
            expires_at_ms: self.expires_at_ms,
            lfu_counter: self.lfu_counter,
        }
    }
}

impl Entry {
    /// A new entry without expiry.
    pub fn new(value: Value, slot: u16) -> (e: Self)
        ensures
            e@ == EntryView::fresh(value@, slot),
    {
        Entry { value, slot, expires_at_ms: 0, lfu_counter: 0 }
    }

    /// The entry, to expire `ttl_ms` after `now_ms`.
    pub fn with_ttl(self, ttl_ms: u64, now_ms: u64) -> (e: Self)
        ensures
            e@ == self@.expiring(ttl_ms, now_ms),
    {
        Entry { expires_at_ms: now_ms.saturating_add(ttl_ms), ..self }
    }

    /// Whether the entry's time is over.
    pub fn is_expired(&self, now_ms: u64) -> (r: bool)
        ensures
            r == self@.expired(now_ms),
    {
        self.expires_at_ms > 0 && self.expires_at_ms <= now_ms
    }
}

/// What values weigh: their bytes; a score and a counter eight each; a document
/// the bytes of its text. Each item adds its own.
pub proof fn law_value_sizes(b: Seq<u8>, p: Seq<(Seq<u8>, Seq<u8>)>, l: Seq<Seq<u8>>, m: Seq<(u64, Seq<u8>)>, n: i64, t: Seq<char>, x: Seq<u8>, y: Seq<u8>, score: u64)
    ensures
        ValueView::String(b).size() == b.len(),
        ValueView::Counter(n).size() == 8,
        ValueView::Json(t).size() == vstd::utf8::encode_utf8(t).len(),
        ValueView::Hash(Seq::empty()).size() == 0,
        ValueView::List(Seq::empty()).size() == 0,
        ValueView::ZSet(Seq::empty()).size() == 0,
        ValueView::Hash(p.push((x, y))).size() == ValueView::Hash(p).size() + x.len() + y.len(),
        ValueView::List(l.push(x)).size() == ValueView::List(l).size() + x.len(),
        ValueView::ZSet(m.push((score, x))).size() == ValueView::ZSet(m).size() + 8 + x.len(),
{
    assert(p.push((x, y)).drop_last() =~= p);
    assert(l.push(x).drop_last() =~= l);
    assert(m.push((score, x)).drop_last() =~= m);
}

} // verus!
