//! The commands on the data of a database, and what each does.

use vstd::prelude::*;

use crate::bytes::{pair_views, views};
use crate::json::{pair_view, sum_view, text_view, FloatSum};
use crate::listing::{listing, page};
use crate::pool::{db_key, make_db_key, scanned, weight, wrap};
use crate::proto::{push_views, CmdId, PushKeyPayload, PushView};
use crate::reply::{answer, Reply, ReplyView};
use crate::store::{triple_views, Store, StoreView};
use crate::value::{member_views, ErrorView, MnemeError, Value, ZSetMember};

verus! {

/// A command on data. Scores are bit patterns of floating-point numbers. What
/// the commands on JSON documents and floating-point numbers carry was worked
/// out on the value as it stands.
#[derive(Debug)]
#[allow(inconsistent_fields)]
pub enum DataCommand {
    Get { key: Vec<u8> },
    SetKey { key: Vec<u8>, value: Value, ttl_ms: u64 },
    Del { keys: Vec<Vec<u8>> },
    Exists { key: Vec<u8> },
    Expire { key: Vec<u8>, seconds: u64 },
    Ttl { key: Vec<u8> },
    GetSet { key: Vec<u8>, value: Value },
    MGet { keys: Vec<Vec<u8>> },
    MSet { pairs: Vec<(Vec<u8>, Value, u64)> },
    HSet { key: Vec<u8>, pairs: Vec<(Vec<u8>, Vec<u8>)> },
    HGet { key: Vec<u8>, field: Vec<u8> },
    HDel { key: Vec<u8>, fields: Vec<Vec<u8>> },
    HGetAll { key: Vec<u8> },
    LPush { key: Vec<u8>, values: Vec<Vec<u8>> },
    RPush { key: Vec<u8>, values: Vec<Vec<u8>> },
    LPop { key: Vec<u8> },
    RPop { key: Vec<u8> },
    LRange { key: Vec<u8>, start: i64, stop: i64 },
    ZAdd { key: Vec<u8>, members: Vec<ZSetMember> },
    ZRank { key: Vec<u8>, member: Vec<u8> },
    ZRange { key: Vec<u8>, start: i64, stop: i64, with_scores: bool },
    ZRangeByScore { key: Vec<u8>, min: u64, max: u64 },
    ZCard { key: Vec<u8> },
    ZRem { key: Vec<u8>, members: Vec<Vec<u8>> },
    ZScore { key: Vec<u8>, member: Vec<u8> },
    Incr { key: Vec<u8> },
    Decr { key: Vec<u8> },
    IncrBy { key: Vec<u8>, delta: i64 },
    DecrBy { key: Vec<u8>, delta: i64 },
    IncrByFloat { key: Vec<u8>, delta_bits: u64, delta_int: i64, sum: Option<FloatSum> },
    JsonGet { key: Vec<u8>, said: Result<String, MnemeError> },
    JsonSet { key: Vec<u8>, changed: Result<String, MnemeError>, made: Result<String, MnemeError> },
    JsonDel { key: Vec<u8>, changed: Result<(String, bool), MnemeError> },
    JsonExists { key: Vec<u8>, found: bool },
    JsonType { key: Vec<u8>, said: Result<String, MnemeError> },
    JsonArrAppend { key: Vec<u8>, changed: Result<String, MnemeError> },
    JsonNumIncrBy { key: Vec<u8>, changed: Result<(String, u64), MnemeError> },
    MemoryUsage { key: Vec<u8> },
    Type { key: Vec<u8> },
    Scan { cursor: u64, pattern: Option<String>, count: u64 },
}

/// The bytes of a pattern that may be missing.
pub open spec fn opt_text(p: Option<String>) -> Option<Seq<u8>> {
    match p {
        Some(s) => Some(vstd::utf8::encode_utf8(s@)),
        None => None,
    }
}

impl DataCommand {
    /// The command's number.
    pub open spec fn id(self) -> CmdId {
        match self {
            DataCommand::Get { .. } => CmdId::Get,
            DataCommand::SetKey { .. } => CmdId::SetKey,
            DataCommand::Del { .. } => CmdId::Del,
            DataCommand::Exists { .. } => CmdId::Exists,
            DataCommand::Expire { .. } => CmdId::Expire,
            DataCommand::Ttl { .. } => CmdId::Ttl,
            DataCommand::GetSet { .. } => CmdId::GetSet,
            DataCommand::MGet { .. } => CmdId::MGet,
            DataCommand::MSet { .. } => CmdId::MSet,
            DataCommand::HSet { .. } => CmdId::HSet,
            DataCommand::HGet { .. } => CmdId::HGet,
            DataCommand::HDel { .. } => CmdId::HDel,
            DataCommand::HGetAll { .. } => CmdId::HGetAll,
            DataCommand::LPush { .. } => CmdId::LPush,
            DataCommand::RPush { .. } => CmdId::RPush,
            DataCommand::LPop { .. } => CmdId::LPop,
            DataCommand::RPop { .. } => CmdId::RPop,
            DataCommand::LRange { .. } => CmdId::LRange,
            DataCommand::ZAdd { .. } => CmdId::ZAdd,
            DataCommand::ZRank { .. } => CmdId::ZRank,
            DataCommand::ZRange { .. } => CmdId::ZRange,
            DataCommand::ZRangeByScore { .. } => CmdId::ZRangeByScore,
            DataCommand::ZCard { .. } => CmdId::ZCard,
            DataCommand::ZRem { .. } => CmdId::ZRem,
            DataCommand::ZScore { .. } => CmdId::ZScore,
            DataCommand::Incr { .. } => CmdId::Incr,
            DataCommand::Decr { .. } => CmdId::Decr,
            DataCommand::IncrBy { .. } => CmdId::IncrBy,
            DataCommand::DecrBy { .. } => CmdId::DecrBy,
            DataCommand::IncrByFloat { .. } => CmdId::IncrByFloat,
            DataCommand::JsonGet { .. } => CmdId::JsonGet,
            DataCommand::JsonSet { .. } => CmdId::JsonSet,
            DataCommand::JsonDel { .. } => CmdId::JsonDel,
            DataCommand::JsonExists { .. } => CmdId::JsonExists,
            DataCommand::JsonType { .. } => CmdId::JsonType,
            DataCommand::JsonArrAppend { .. } => CmdId::JsonArrAppend,
            DataCommand::JsonNumIncrBy { .. } => CmdId::JsonNumIncrBy,
            DataCommand::MemoryUsage { .. } => CmdId::MemoryUsage,
            DataCommand::Type { .. } => CmdId::Type,
            DataCommand::Scan { .. } => CmdId::Scan,
        }
    }

    /// The command's number.
    pub fn cmd_id(&self) -> (r: CmdId)
        ensures
            r == self.id(),
    {
        match self {
            DataCommand::Get { .. } => CmdId::Get,
            DataCommand::SetKey { .. } => CmdId::SetKey,
            DataCommand::Del { .. } => CmdId::Del,
            DataCommand::Exists { .. } => CmdId::Exists,
            DataCommand::Expire { .. } => CmdId::Expire,
            DataCommand::Ttl { .. } => CmdId::Ttl,
            DataCommand::GetSet { .. } => CmdId::GetSet,
            DataCommand::MGet { .. } => CmdId::MGet,
            DataCommand::MSet { .. } => CmdId::MSet,
            DataCommand::HSet { .. } => CmdId::HSet,
            DataCommand::HGet { .. } => CmdId::HGet,
            DataCommand::HDel { .. } => CmdId::HDel,
            DataCommand::HGetAll { .. } => CmdId::HGetAll,
            DataCommand::LPush { .. } => CmdId::LPush,
            DataCommand::RPush { .. } => CmdId::RPush,
            DataCommand::LPop { .. } => CmdId::LPop,
            DataCommand::RPop { .. } => CmdId::RPop,
            DataCommand::LRange { .. } => CmdId::LRange,
            DataCommand::ZAdd { .. } => CmdId::ZAdd,
            DataCommand::ZRank { .. } => CmdId::ZRank,
            DataCommand::ZRange { .. } => CmdId::ZRange,
            DataCommand::ZRangeByScore { .. } => CmdId::ZRangeByScore,
            DataCommand::ZCard { .. } => CmdId::ZCard,
            DataCommand::ZRem { .. } => CmdId::ZRem,
            DataCommand::ZScore { .. } => CmdId::ZScore,
            DataCommand::Incr { .. } => CmdId::Incr,
            DataCommand::Decr { .. } => CmdId::Decr,
            DataCommand::IncrBy { .. } => CmdId::IncrBy,
            DataCommand::DecrBy { .. } => CmdId::DecrBy,
            DataCommand::IncrByFloat { .. } => CmdId::IncrByFloat,
            DataCommand::JsonGet { .. } => CmdId::JsonGet,
            DataCommand::JsonSet { .. } => CmdId::JsonSet,
            DataCommand::JsonDel { .. } => CmdId::JsonDel,
            DataCommand::JsonExists { .. } => CmdId::JsonExists,
            DataCommand::JsonType { .. } => CmdId::JsonType,
            DataCommand::JsonArrAppend { .. } => CmdId::JsonArrAppend,
            DataCommand::JsonNumIncrBy { .. } => CmdId::JsonNumIncrBy,
            DataCommand::MemoryUsage { .. } => CmdId::MemoryUsage,
            DataCommand::Type { .. } => CmdId::Type,
            DataCommand::Scan { .. } => CmdId::Scan,
        }
    }

    /// The numbers of the command stay within the range of machine numbers.
    pub open spec fn in_range(self, now: u64) -> bool {
        match self {
            DataCommand::Expire { seconds, .. } => now + seconds * 1000 <= u64::MAX,
            DataCommand::DecrBy { delta, .. } => delta > i64::MIN,
            _ => true,
        }
    }

    /// Whether the numbers of the command stay within the range of machine
    /// numbers.
    pub fn is_in_range(&self, now_ms: u64) -> (r: bool)
        ensures
            r == self.in_range(now_ms),
    {
        match self {
            DataCommand::Expire { seconds, .. } => now_ms as u128 + *seconds as u128 * 1000 <= u64::MAX as u128,
            DataCommand::DecrBy { delta, .. } => *delta > i64::MIN,
            _ => true,
        }
    }
}

/// How many keys a page of a scan may have.
pub open spec fn page_size(count: u64) -> u64 {
    if count < 1 {
        1
    } else if count > 1000 {
        1000
    } else {
        count
    }
}

impl StoreView {
    pub open spec fn memory_usage(self, db_id: u16, key: Seq<u8>, now: u64) -> Result<ReplyView, ErrorView> {
        match self.live(db_key(db_id, key), now) {
            Some(e) => Ok(ReplyView::Count(wrap(weight(db_key(db_id, key), e)) as int)),
            None => Err(ErrorView::KeyNotFound),
        }
    }

    pub open spec fn kind_of(self, db_id: u16, key: Seq<u8>, now: u64) -> ReplyView {
        match self.live(db_key(db_id, key), now) {
            Some(e) => ReplyView::Text(e.value.kind()),
            None => ReplyView::Text("none"@),
        }
    }

    /// One page of the keys of a database that match a pattern, in order.
    pub open spec fn scan(self, db_id: u16, cursor: u64, pattern: Option<Seq<u8>>, count: u64, now: u64) -> ReplyView {
        let (next, keys) = page(
            listing(scanned(self.map, db_id, pattern, now)),
            cursor as int,
            page_size(count) as int,
        );
        ReplyView::Page(next, keys)
    }

    /// What a command does to the store, what it answers, and what is
    /// replicated.
    pub open spec fn ran(self, c: DataCommand, db_id: u16, now: u64) -> (StoreView, Result<ReplyView, ErrorView>, Seq<PushView>) {
        match c {
            DataCommand::Get { key } => without_pushes(self.get(db_id, key@, now)),
            DataCommand::SetKey { key, value, ttl_ms } => self.set(db_id, key@, value@, ttl_ms, now),
            DataCommand::Del { keys } => self.del(db_id, views(keys@)),
            DataCommand::Exists { key } => (self, Ok(self.has_key(db_id, key@, now)), Seq::empty()),
            DataCommand::Expire { key, seconds } => self.expire(db_id, key@, seconds, now),
            DataCommand::Ttl { key } => (self, Ok(self.ttl(db_id, key@, now)), Seq::empty()),
            DataCommand::GetSet { key, value } => without_pushes(self.getset(db_id, key@, value@, now)),
            DataCommand::MGet { keys } => without_pushes(self.mget(db_id, views(keys@), now)),
            DataCommand::MSet { pairs } => self.mset(db_id, triple_views(pairs@), now),
            DataCommand::HSet { key, pairs } => without_pushes(self.hset(db_id, key@, pair_views(pairs@), now)),
            DataCommand::HGet { key, field } => (self, self.hget(db_id, key@, field@, now), Seq::empty()),
            DataCommand::HDel { key, fields } => without_pushes(self.hdel(db_id, key@, views(fields@), now)),
            DataCommand::HGetAll { key } => (self, self.hgetall(db_id, key@, now), Seq::empty()),
            DataCommand::LPush { key, values } => without_pushes(self.push_list(db_id, key@, views(values@), true, now)),
            DataCommand::RPush { key, values } => without_pushes(self.push_list(db_id, key@, views(values@), false, now)),
            DataCommand::LPop { key } => without_pushes(self.pop_list(db_id, key@, true, now)),
            DataCommand::RPop { key } => without_pushes(self.pop_list(db_id, key@, false, now)),
            DataCommand::LRange { key, start, stop } => (self, self.lrange(db_id, key@, start, stop, now), Seq::empty()),
            DataCommand::ZAdd { key, members } => without_pushes(self.zadd(db_id, key@, member_views(members@), now)),
            DataCommand::ZRank { key, member } => (self, self.zrank(db_id, key@, member@, now), Seq::empty()),
            DataCommand::ZRange { key, start, stop, with_scores } => (self, self.zrange(db_id, key@, start, stop, with_scores, now), Seq::empty()),
            DataCommand::ZRangeByScore { key, min, max } => (self, self.zrangebyscore(db_id, key@, min, max, now), Seq::empty()),
            DataCommand::ZCard { key } => (self, Ok(self.zcard(db_id, key@, now)), Seq::empty()),
            DataCommand::ZRem { key, members } => without_pushes(self.zrem(db_id, key@, views(members@), now)),
            DataCommand::ZScore { key, member } => (self, self.zscore(db_id, key@, member@, now), Seq::empty()),
            DataCommand::Incr { key } => without_pushes(self.counter_op(db_id, key@, 1, now)),
            DataCommand::Decr { key } => without_pushes(self.counter_op(db_id, key@, -1, now)),
            DataCommand::IncrBy { key, delta } => without_pushes(self.counter_op(db_id, key@, delta as int, now)),
            DataCommand::DecrBy { key, delta } => without_pushes(self.counter_op(db_id, key@, -(delta as int), now)),
            DataCommand::IncrByFloat { key, delta_bits, delta_int, sum } => without_pushes(self.incrbyfloat(db_id, key@, delta_bits, delta_int, sum_view(sum), now)),
            DataCommand::JsonGet { key, said } => (self, self.json_ask(db_id, key@, text_view(said), now), Seq::empty()),
            DataCommand::JsonSet { key, changed, made } => without_pushes(self.json_set(db_id, key@, text_view(changed), text_view(made), now)),
            DataCommand::JsonDel { key, changed } => without_pushes(self.json_del(db_id, key@, pair_view(changed), now)),
            DataCommand::JsonExists { key, found } => (self, Ok(self.json_exists(db_id, key@, found, now)), Seq::empty()),
            DataCommand::JsonType { key, said } => (self, self.json_ask(db_id, key@, text_view(said), now), Seq::empty()),
            DataCommand::JsonArrAppend { key, changed } => without_pushes(self.json_arr_append(db_id, key@, text_view(changed), now)),
            DataCommand::JsonNumIncrBy { key, changed } => without_pushes(self.json_num_incrby(db_id, key@, pair_view(changed), now)),
            DataCommand::MemoryUsage { key } => (self, self.memory_usage(db_id, key@, now), Seq::empty()),
            DataCommand::Type { key } => (self, Ok(self.kind_of(db_id, key@, now)), Seq::empty()),
            DataCommand::Scan { cursor, pattern, count } => (self, Ok(self.scan(db_id, cursor, opt_text(pattern), count, now)), Seq::empty()),
        }
    }
}

/// An outcome with nothing to replicate.
pub open spec fn without_pushes(r: (StoreView, Result<ReplyView, ErrorView>)) -> (StoreView, Result<ReplyView, ErrorView>, Seq<PushView>) {
    (r.0, r.1, Seq::empty())
}

impl Store {
    pub fn memory_usage(&self, db_id: u16, key: &[u8], now_ms: u64) -> (r: Result<Reply, MnemeError>)
        requires
            self.wf(),
        ensures
            answer(r) == self@.memory_usage(db_id, key@, now_ms),
    {
        match self.pool.memory_usage_of(&make_db_key(db_id, key), now_ms) {
            Some(n) => Ok(Reply::Count(n)),
            None => Err(MnemeError::KeyNotFound),
        }
    }

    pub fn kind_of(&self, db_id: u16, key: &[u8], now_ms: u64) -> (r: Reply)
        requires
            self.wf(),
        ensures
            r@ == self@.kind_of(db_id, key@, now_ms),
    {
        Reply::Text(self.pool.key_type(&make_db_key(db_id, key), now_ms).to_string())
    }

    /// One page of the keys of a database that match a pattern, in order.
    pub fn scan(&self, db_id: u16, cursor: u64, pattern: Option<String>, count: u64, now_ms: u64) -> (r: Reply)
        requires
            self.wf(),
        ensures
            r@ == self@.scan(db_id, cursor, opt_text(pattern), count, now_ms),
    {
        let n: u64 = if count < 1 {
            1
        } else if count > 1000 {
            1000
        } else {
            count
        };
        let (next, keys) = match &pattern {
            Some(p) => self.pool.scan_db(db_id, cursor, Some(p.as_str()), n, now_ms),
            None => self.pool.scan_db(db_id, cursor, None, n, now_ms),
        };
        Reply::Page(next, keys)
    }

    /// Runs a command.
    pub fn run(&mut self, c: DataCommand, db_id: u16, now: u64) -> (r: (Result<Reply, MnemeError>, Vec<PushKeyPayload>))
        requires
            old(self).wf(),
            c.in_range(now),
        ensures
            final(self).wf(),
            (final(self)@, answer(r.0), push_views(r.1@)) == old(self)@.ran(c, db_id, now),
    {
        let none: Vec<PushKeyPayload> = Vec::new();
        assert(push_views(none@) =~= Seq::empty());
        match c {
            DataCommand::Get { key } => (self.get(db_id, &key, now), none),
            DataCommand::SetKey { key, value, ttl_ms } => self.set(db_id, &key, value, ttl_ms, now),
            DataCommand::Del { keys } => self.del(db_id, &keys),
            DataCommand::Exists { key } => (Ok(self.has_key(db_id, &key, now)), none),
            DataCommand::Expire { key, seconds } => self.expire(db_id, &key, seconds, now),
            DataCommand::Ttl { key } => (Ok(self.ttl(db_id, &key, now)), none),
            DataCommand::GetSet { key, value } => (self.getset(db_id, &key, value, now), none),
            DataCommand::MGet { keys } => (self.mget(db_id, &keys, now), none),
            DataCommand::MSet { pairs } => self.mset(db_id, &pairs, now),
            DataCommand::HSet { key, pairs } => (self.hset(db_id, &key, pairs, now), none),
            DataCommand::HGet { key, field } => (self.hget(db_id, &key, &field, now), none),
            DataCommand::HDel { key, fields } => (self.hdel(db_id, &key, &fields, now), none),
            DataCommand::HGetAll { key } => (self.hgetall(db_id, &key, now), none),
            DataCommand::LPush { key, values } => (self.push_list(db_id, &key, &values, true, now), none),
            DataCommand::RPush { key, values } => (self.push_list(db_id, &key, &values, false, now), none),
            DataCommand::LPop { key } => (self.pop_list(db_id, &key, true, now), none),
            DataCommand::RPop { key } => (self.pop_list(db_id, &key, false, now), none),
            DataCommand::LRange { key, start, stop } => (self.lrange(db_id, &key, start, stop, now), none),
            DataCommand::ZAdd { key, members } => (self.zadd(db_id, &key, members, now), none),
            DataCommand::ZRank { key, member } => (self.zrank(db_id, &key, &member, now), none),
            DataCommand::ZRange { key, start, stop, with_scores } => (self.zrange(db_id, &key, start, stop, with_scores, now), none),
            DataCommand::ZRangeByScore { key, min, max } => (self.zrangebyscore(db_id, &key, min, max, now), none),
            DataCommand::ZCard { key } => (Ok(self.zcard(db_id, &key, now)), none),
            DataCommand::ZRem { key, members } => (self.zrem(db_id, &key, &members, now), none),
            DataCommand::ZScore { key, member } => (self.zscore(db_id, &key, &member, now), none),
            DataCommand::Incr { key } => (self.counter_op(db_id, &key, 1, now), none),
            DataCommand::Decr { key } => (self.counter_op(db_id, &key, -1, now), none),
            DataCommand::IncrBy { key, delta } => (self.counter_op(db_id, &key, delta, now), none),
            DataCommand::DecrBy { key, delta } => (self.counter_op(db_id, &key, -delta, now), none),
            DataCommand::IncrByFloat { key, delta_bits, delta_int, sum } => (self.incrbyfloat(db_id, &key, delta_bits, delta_int, sum, now), none),
            DataCommand::JsonGet { key, said } => (self.json_ask(db_id, &key, said, now), none),
            DataCommand::JsonSet { key, changed, made } => (self.json_set(db_id, &key, changed, made, now), none),
            DataCommand::JsonDel { key, changed } => (self.json_del(db_id, &key, changed, now), none),
            DataCommand::JsonExists { key, found } => (Ok(self.json_exists(db_id, &key, found, now)), none),
            DataCommand::JsonType { key, said } => (self.json_ask(db_id, &key, said, now), none),
            DataCommand::JsonArrAppend { key, changed } => (self.json_arr_append(db_id, &key, changed, now), none),
            DataCommand::JsonNumIncrBy { key, changed } => (self.json_num_incrby(db_id, &key, changed, now), none),
            DataCommand::MemoryUsage { key } => (self.memory_usage(db_id, &key, now), none),
            DataCommand::Type { key } => (Ok(self.kind_of(db_id, &key, now)), none),
            DataCommand::Scan { cursor, pattern, count } => (Ok(self.scan(db_id, cursor, pattern, count, now)), none),
        }
    }
}

/// Every command can be run, but for an end beyond the range of times and the
/// one number whose negative is out of range.
pub proof fn law_commands_can_be_run(c: DataCommand, now: u64)
    ensures
        !(c is Expire) && !(c is DecrBy) ==> c.in_range(now),
        c matches DataCommand::Expire { seconds, .. } ==> (c.in_range(now) <==> now + 1000 * seconds <= u64::MAX),
        c matches DataCommand::DecrBy { delta, .. } ==> (c.in_range(now) <==> -delta <= i64::MAX),
{
}

} // verus!
