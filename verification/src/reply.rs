//! What commands answer.

use std::collections::HashMap;

use vstd::prelude::*;

use crate::argus::listed_views;
use crate::bytes::{pair_views, views};
use crate::cluster_info::info_views;
use crate::data::scored_views;
use crate::dbs::{db_views, DbInfo};
use crate::moirai::{keeper_views, KeeperInfo, KeeperView};
use crate::value::{ErrorView, MnemeError, Value, ValueView};

verus! {

/// The answer to a command that succeeded.
#[derive(Debug)]
pub enum Reply {
    Text(String),
    Count(u64),
    Number(i64),
    Flag(bool),
    Bytes(Vec<u8>),
    BytesList(Vec<Vec<u8>>),
    Pairs(Vec<(Vec<u8>, Vec<u8>)>),
    /// Members with the bit patterns of their scores.
    Scored(Vec<(Vec<u8>, u64)>),
    /// The bit pattern of a score.
    Score(u64),
    Value(Value),
    NoValue,
    Values(Vec<Option<Value>>),
    Page(u64, Vec<Vec<u8>>),
    /// A database and its name.
    Db(DbInfo),
    Dbs(Vec<DbInfo>),
    /// Names, roles and databases of accounts.
    Users(Vec<(String, String, Vec<u16>)>),
    /// Name, number, role and databases of an account.
    User(String, u64, String, Vec<u16>),
    /// Slow commands with their keys and durations.
    Slow(Vec<(String, Vec<u8>, u64)>),
    /// Bytes in use and the limit.
    Usage(u64, u64),
    /// Bytes in use, the limit, and the number of keepers.
    PoolUsage(u64, u64, u64),
    /// Number, name, address and figures of keepers.
    Keepers(Vec<KeeperInfo>),
    /// The owners of the slots.
    Slots(HashMap<u16, u64>),
    Info(Vec<(String, String)>),
    /// The client has to turn to the leader at this address.
    Redirect(String),
}

/// What an answer says.
pub enum ReplyView {
    Text(Seq<char>),
    Count(int),
    Number(int),
    Flag(bool),
    Bytes(Seq<u8>),
    BytesList(Seq<Seq<u8>>),
    Pairs(Seq<(Seq<u8>, Seq<u8>)>),
    Scored(Seq<(Seq<u8>, u64)>),
    Score(u64),
    Value(ValueView),
    NoValue,
    Values(Seq<Option<ValueView>>),
    Page(int, Seq<Seq<u8>>),
    Db(Seq<char>, u16),
    Dbs(Seq<(Seq<char>, u16)>),
    Users(Seq<(Seq<char>, Seq<char>, Seq<u16>)>),
    User(Seq<char>, u64, Seq<char>, Seq<u16>),
    Slow(Seq<(Seq<char>, Seq<u8>, u64)>),
    Usage(u64, u64),
    PoolUsage(u64, u64, int),
    Keepers(Seq<KeeperView>),
    Slots(Map<u16, u64>),
    Info(Seq<(Seq<char>, Seq<char>)>),
    Redirect(Seq<char>),
}

/// What a list of slow commands says.
pub open spec fn slow_triples(s: Seq<(String, Vec<u8>, u64)>) -> Seq<(Seq<char>, Seq<u8>, u64)> {
    s.map_values(|e: (String, Vec<u8>, u64)| (e.0@, e.1@, e.2))
}

/// What a value that may be missing holds.
pub open spec fn option_view(v: Option<Value>) -> Option<ValueView> {
    match v {
        Some(x) => Some(x@),
        None => None,
    }
}

/// What a list of values that may be missing holds.
pub open spec fn option_views(s: Seq<Option<Value>>) -> Seq<Option<ValueView>> {
    s.map_values(|v: Option<Value>| option_view(v))
}

impl View for Reply {
    type V = ReplyView;

    open spec fn view(&self) -> ReplyView {
        match self {
            Reply::Text(t) => ReplyView::Text(t@),
            Reply::Count(n) => ReplyView::Count(*n as int),
            Reply::Number(n) => ReplyView::Number(*n as int),
            Reply::Flag(b) => ReplyView::Flag(*b),
            Reply::Bytes(b) => ReplyView::Bytes(b@),
            Reply::BytesList(l) => ReplyView::BytesList(views(l@)),
            Reply::Pairs(p) => ReplyView::Pairs(pair_views(p@)),
            Reply::Scored(s) => ReplyView::Scored(scored_views(s@)),
            Reply::Score(s) => ReplyView::Score(*s),
            Reply::Value(v) => ReplyView::Value(v@),
            Reply::NoValue => ReplyView::NoValue,
            Reply::Values(v) => ReplyView::Values(option_views(v@)),
            Reply::Page(c, l) => ReplyView::Page(*c as int, views(l@)),
            Reply::Db(d) => ReplyView::Db(d.name@, d.id),
            Reply::Dbs(l) => ReplyView::Dbs(db_views(l@)),
            Reply::Users(l) => ReplyView::Users(listed_views(l@)),
            Reply::User(n, id, r, d) => ReplyView::User(n@, *id, r@, d@),
            Reply::Slow(l) => ReplyView::Slow(slow_triples(l@)),
            Reply::Usage(u, m) => ReplyView::Usage(*u, *m),
            Reply::PoolUsage(u, m, k) => ReplyView::PoolUsage(*u, *m, *k as int),
            Reply::Keepers(l) => ReplyView::Keepers(keeper_views(l@)),
            Reply::Slots(m) => ReplyView::Slots(m@),
            Reply::Info(l) => ReplyView::Info(info_views(l@)),
            Reply::Redirect(a) => ReplyView::Redirect(a@),
        }
    }
}

/// What the outcome of a command says.
pub open spec fn answer(r: Result<Reply, MnemeError>) -> Result<ReplyView, ErrorView> {
    match r {
        Ok(x) => Ok(x@),
        Err(e) => Err(e@),
    }
}

/// The answer `OK`.
pub fn ok_str() -> (r: Result<Reply, MnemeError>)
    ensures
        answer(r) == Ok::<ReplyView, ErrorView>(ReplyView::Text("OK"@)),
{
    Ok(Reply::Text("OK".to_string()))
}

} // verus!
