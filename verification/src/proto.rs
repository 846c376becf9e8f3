//! What travels between nodes and clients: commands, consistency levels,
//! frames and replicated writes.

use vstd::prelude::*;

use crate::bytes::copy_bytes;
use crate::value::{Value, ValueView};

verus! {

/// What a frame asks for or answers.
#[derive(Debug, Clone, Copy, PartialEq, Eq, Structural)]
pub enum CmdId {
    Get,
    SetKey,
    Del,
    Exists,
    Expire,
    Ttl,
    HGet,
    HSet,
    HDel,
    HGetAll,
    LPush,
    RPush,
    LPop,
    RPop,
    LRange,
    ZAdd,
    ZRank,
    ZRange,
    ZRangeByScore,
    ZRem,
    ZCard,
    ZScore,
    Incr,
    Decr,
    IncrBy,
    DecrBy,
    IncrByFloat,
    GetSet,
    JsonGet,
    JsonSet,
    JsonDel,
    JsonExists,
    JsonType,
    JsonArrAppend,
    JsonNumIncrBy,
    Auth,
    RevokeToken,
    SlowLog,
    Metrics,
    Stats,
    MemoryUsage,
    Monitor,
    Config,
    ClusterInfo,
    ClusterSlots,
    KeeperList,
    PoolStats,
    Wait,
    GenerateJoinToken,
    Select,
    DbSize,
    FlushDb,
    DbCreate,
    DbList,
    DbDrop,
    Scan,
    Type,
    MGet,
    MSet,
    UserCreate,
    UserDelete,
    UserList,
    UserGrant,
    UserRevoke,
    UserSetRole,
    UserInfo,
    PushKey,
    AckWrite,
    Heartbeat,
    SyncStart,
    SyncComplete,
    SyncRequest,
    Moved,
    LeaderRedirect,
    RaftAppendEntries,
    RaftVote,
    RaftInstallSnapshot,
    OkReply,
    ErrorReply,
}

impl CmdId {
    /// The name of a command.
    pub open spec fn text(self) -> Seq<char> {
        match self {
            CmdId::Get => "Get"@,
            CmdId::SetKey => "Set"@,
            CmdId::Del => "Del"@,
            CmdId::Exists => "Exists"@,
            CmdId::Expire => "Expire"@,
            CmdId::Ttl => "Ttl"@,
            CmdId::HGet => "HGet"@,
            CmdId::HSet => "HSet"@,
            CmdId::HDel => "HDel"@,
            CmdId::HGetAll => "HGetAll"@,
            CmdId::LPush => "LPush"@,
            CmdId::RPush => "RPush"@,
            CmdId::LPop => "LPop"@,
            CmdId::RPop => "RPop"@,
            CmdId::LRange => "LRange"@,
            CmdId::ZAdd => "ZAdd"@,
            CmdId::ZRank => "ZRank"@,
            CmdId::ZRange => "ZRange"@,
            CmdId::ZRangeByScore => "ZRangeByScore"@,
            CmdId::ZRem => "ZRem"@,
            CmdId::ZCard => "ZCard"@,
            CmdId::ZScore => "ZScore"@,
            CmdId::Incr => "Incr"@,
            CmdId::Decr => "Decr"@,
            CmdId::IncrBy => "IncrBy"@,
            CmdId::DecrBy => "DecrBy"@,
            CmdId::IncrByFloat => "IncrByFloat"@,
            CmdId::GetSet => "GetSet"@,
            CmdId::JsonGet => "JsonGet"@,
            CmdId::JsonSet => "JsonSet"@,
            CmdId::JsonDel => "JsonDel"@,
            CmdId::JsonExists => "JsonExists"@,
            CmdId::JsonType => "JsonType"@,
            CmdId::JsonArrAppend => "JsonArrAppend"@,
            CmdId::JsonNumIncrBy => "JsonNumIncrBy"@,
            CmdId::Auth => "Auth"@,
            CmdId::RevokeToken => "RevokeToken"@,
            CmdId::SlowLog => "SlowLog"@,
            CmdId::Metrics => "Metrics"@,
            CmdId::Stats => "Stats"@,
            CmdId::MemoryUsage => "MemoryUsage"@,
            CmdId::Monitor => "Monitor"@,
            CmdId::Config => "Config"@,
            CmdId::ClusterInfo => "ClusterInfo"@,
            CmdId::ClusterSlots => "ClusterSlots"@,
            CmdId::KeeperList => "KeeperList"@,
            CmdId::PoolStats => "PoolStats"@,
            CmdId::Wait => "Wait"@,
            CmdId::GenerateJoinToken => "GenerateJoinToken"@,
            CmdId::Select => "Select"@,
            CmdId::DbSize => "DbSize"@,
            CmdId::FlushDb => "FlushDb"@,
            CmdId::DbCreate => "DbCreate"@,
            CmdId::DbList => "DbList"@,
            CmdId::DbDrop => "DbDrop"@,
            CmdId::Scan => "Scan"@,
            CmdId::Type => "Type"@,
            CmdId::MGet => "MGet"@,
            CmdId::MSet => "MSet"@,
            CmdId::UserCreate => "UserCreate"@,
            CmdId::UserDelete => "UserDelete"@,
            CmdId::UserList => "UserList"@,
            CmdId::UserGrant => "UserGrant"@,
            CmdId::UserRevoke => "UserRevoke"@,
            CmdId::UserSetRole => "UserSetRole"@,
            CmdId::UserInfo => "UserInfo"@,
            CmdId::PushKey => "PushKey"@,
            CmdId::AckWrite => "AckWrite"@,
            CmdId::Heartbeat => "Heartbeat"@,
            CmdId::SyncStart => "SyncStart"@,
            CmdId::SyncComplete => "SyncComplete"@,
            CmdId::SyncRequest => "SyncRequest"@,
            CmdId::Moved => "Moved"@,
            CmdId::LeaderRedirect => "LeaderRedirect"@,
            CmdId::RaftAppendEntries => "RaftAppendEntries"@,
            CmdId::RaftVote => "RaftVote"@,
            CmdId::RaftInstallSnapshot => "RaftInstallSnapshot"@,
            CmdId::OkReply => "Ok"@,
            CmdId::ErrorReply => "Error"@,
        }
    }

    /// The name of a command.
    pub fn name(self) -> (r: &'static str)
        ensures
            r@ == self.text(),
    {
        match self {
            CmdId::Get => "Get",
            CmdId::SetKey => "Set",
            CmdId::Del => "Del",
            CmdId::Exists => "Exists",
            CmdId::Expire => "Expire",
            CmdId::Ttl => "Ttl",
            CmdId::HGet => "HGet",
            CmdId::HSet => "HSet",
            CmdId::HDel => "HDel",
            CmdId::HGetAll => "HGetAll",
            CmdId::LPush => "LPush",
            CmdId::RPush => "RPush",
            CmdId::LPop => "LPop",
            CmdId::RPop => "RPop",
            CmdId::LRange => "LRange",
            CmdId::ZAdd => "ZAdd",
            CmdId::ZRank => "ZRank",
            CmdId::ZRange => "ZRange",
            CmdId::ZRangeByScore => "ZRangeByScore",
            CmdId::ZRem => "ZRem",
            CmdId::ZCard => "ZCard",
            CmdId::ZScore => "ZScore",
            CmdId::Incr => "Incr",
            CmdId::Decr => "Decr",
            CmdId::IncrBy => "IncrBy",
            CmdId::DecrBy => "DecrBy",
            CmdId::IncrByFloat => "IncrByFloat",
            CmdId::GetSet => "GetSet",
            CmdId::JsonGet => "JsonGet",
            CmdId::JsonSet => "JsonSet",
            CmdId::JsonDel => "JsonDel",
            CmdId::JsonExists => "JsonExists",
            CmdId::JsonType => "JsonType",
            CmdId::JsonArrAppend => "JsonArrAppend",
            CmdId::JsonNumIncrBy => "JsonNumIncrBy",
            CmdId::Auth => "Auth",
            CmdId::RevokeToken => "RevokeToken",
            CmdId::SlowLog => "SlowLog",
            CmdId::Metrics => "Metrics",
            CmdId::Stats => "Stats",
            CmdId::MemoryUsage => "MemoryUsage",
            CmdId::Monitor => "Monitor",
            CmdId::Config => "Config",
            CmdId::ClusterInfo => "ClusterInfo",
            CmdId::ClusterSlots => "ClusterSlots",
            CmdId::KeeperList => "KeeperList",
            CmdId::PoolStats => "PoolStats",
            CmdId::Wait => "Wait",
            CmdId::GenerateJoinToken => "GenerateJoinToken",
            CmdId::Select => "Select",
            CmdId::DbSize => "DbSize",
            CmdId::FlushDb => "FlushDb",
            CmdId::DbCreate => "DbCreate",
            CmdId::DbList => "DbList",
            CmdId::DbDrop => "DbDrop",
            CmdId::Scan => "Scan",
            CmdId::Type => "Type",
            CmdId::MGet => "MGet",
            CmdId::MSet => "MSet",
            CmdId::UserCreate => "UserCreate",
            CmdId::UserDelete => "UserDelete",
            CmdId::UserList => "UserList",
            CmdId::UserGrant => "UserGrant",
            CmdId::UserRevoke => "UserRevoke",
            CmdId::UserSetRole => "UserSetRole",
            CmdId::UserInfo => "UserInfo",
            CmdId::PushKey => "PushKey",
            CmdId::AckWrite => "AckWrite",
            CmdId::Heartbeat => "Heartbeat",
            CmdId::SyncStart => "SyncStart",
            CmdId::SyncComplete => "SyncComplete",
            CmdId::SyncRequest => "SyncRequest",
            CmdId::Moved => "Moved",
            CmdId::LeaderRedirect => "LeaderRedirect",
            CmdId::RaftAppendEntries => "RaftAppendEntries",
            CmdId::RaftVote => "RaftVote",
            CmdId::RaftInstallSnapshot => "RaftInstallSnapshot",
            CmdId::OkReply => "Ok",
            CmdId::ErrorReply => "Error",
        }
    }
}

/// How many keepers have to confirm a write.
#[derive(Debug, Clone, Copy, PartialEq, Eq, Structural)]
pub enum ConsistencyLevel {
    Eventual,
    Quorum,
    All,
    One,
}

impl ConsistencyLevel {
    pub open spec fn text(self) -> Seq<char> {
        match self {
            ConsistencyLevel::Eventual => "Eventual"@,
            ConsistencyLevel::Quorum => "Quorum"@,
            ConsistencyLevel::All => "All"@,
            ConsistencyLevel::One => "One"@,
        }
    }

    /// The level's name.
    pub fn name(self) -> (r: &'static str)
        ensures
            r@ == self.text(),
    {
        match self {
            ConsistencyLevel::Eventual => "Eventual",
            ConsistencyLevel::Quorum => "Quorum",
            ConsistencyLevel::All => "All",
            ConsistencyLevel::One => "One",
        }
    }
}

/// The consistency level in the flags of a frame: bits 3 and 2.
pub open spec fn level_in(flags: u16) -> ConsistencyLevel {
    let bits = (flags / 4) % 4;
    if bits == 0 {
        ConsistencyLevel::Eventual
    } else if bits == 1 {
        ConsistencyLevel::Quorum
    } else if bits == 2 {
        ConsistencyLevel::All
    } else {
        ConsistencyLevel::One
    }
}

/// Only the third and fourth bits of the flags count for the level: 0, 1, 2 and
/// 3 in them stand for eventual, quorum, all and one.
pub proof fn law_level_bits(high: u16, bits: u16, low: u16)
    requires
        low < 4,
        bits < 4,
        high < 4096,
    ensures
        bits == 0 ==> level_in((16 * high + 4 * bits + low) as u16) == ConsistencyLevel::Eventual,
        bits == 1 ==> level_in((16 * high + 4 * bits + low) as u16) == ConsistencyLevel::Quorum,
        bits == 2 ==> level_in((16 * high + 4 * bits + low) as u16) == ConsistencyLevel::All,
        bits == 3 ==> level_in((16 * high + 4 * bits + low) as u16) == ConsistencyLevel::One,
{
}

/// The consistency level in the flags of a frame.
pub fn consistency(flags: u16) -> (r: ConsistencyLevel)
    ensures
        r == level_in(flags),
{
    let bits: u16 = (flags / 4) % 4;
    if bits == 0 {
        ConsistencyLevel::Eventual
    } else if bits == 1 {
        ConsistencyLevel::Quorum
    } else if bits == 2 {
        ConsistencyLevel::All
    } else {
        ConsistencyLevel::One
    }
}

/// Bytes of a frame before its payload: magic, version, command, flags,
/// payload length and request number.
pub const FRAME_HEADER: usize = 16;

/// The largest payload that a client may send.
pub const MAX_PAYLOAD: usize = 67108864;

/// The number that four bytes spell out, high byte first.
pub open spec fn be_u32(b: Seq<u8>) -> nat {
    (b[0] * 0x100_0000 + b[1] * 0x1_0000 + b[2] * 0x100 + b[3]) as nat
}

/// The length of the first frame of a buffer, as soon as its header is there.
pub open spec fn frame_len(b: Seq<u8>) -> Option<nat> {
    if b.len() >= FRAME_HEADER {
        Some((FRAME_HEADER + be_u32(b.subrange(8, 12))) as nat)
    } else {
        None
    }
}

/// The first frame of a buffer is there in full.
pub open spec fn frame_complete(b: Seq<u8>) -> bool {
    frame_len(b) matches Some(n) && n <= b.len()
}

/// The length of the first frame of a buffer, if the frame is there in full.
pub fn complete_frame(b: &[u8]) -> (r: Option<usize>)
    ensures
        match r {
            Some(n) => frame_complete(b@) && frame_len(b@) == Some(n as nat),
            None => !frame_complete(b@),
        },
{
    if b.len() < FRAME_HEADER {
        return None;
    }
    let payload: u64 = b[8] as u64 * 0x100_0000 + b[9] as u64 * 0x1_0000 + b[10] as u64 * 0x100 + b[11] as u64;
    let total: u64 = payload + 16;
    assert(frame_len(b@) == Some(total as nat));
    if total <= b.len() as u64 {
        Some(total as usize)
    } else {
        None
    }
}

/// Whether a client has sent more than one frame may hold.
pub fn too_large(buffered: usize) -> (r: bool)
    ensures
        r == (buffered > MAX_PAYLOAD + FRAME_HEADER),
        r == is_too_much(buffered as int),
{
    buffered > MAX_PAYLOAD + FRAME_HEADER
}

/// A write on its way to a keeper or a replica.
#[derive(Debug)]
pub struct PushKeyPayload {
    pub key: Vec<u8>,
    pub value: Value,
    pub seq: u64,
    pub ttl_ms: u64,
    pub slot: u16,
    pub deleted: bool,
    pub db_id: u16,
}

/// What a replicated write says.
pub struct PushView {
    pub key: Seq<u8>,
    pub value: ValueView,
    pub seq: u64,
    pub ttl_ms: u64,
    pub slot: u16,
    pub deleted: bool,
    pub db_id: u16,
}

impl View for PushKeyPayload {
    type V = PushView;

    open spec fn view(&self) -> PushView {
        PushView {
            key: self.key@,
            value: self.value@,
            seq: self.seq,
            ttl_ms: self.ttl_ms,
            slot: self.slot,
            deleted: self.deleted,
            db_id: self.db_id,
        }
    }
}

/// What a list of replicated writes says.
pub open spec fn push_views(s: Seq<PushKeyPayload>) -> Seq<PushView> {
    s.map_values(|p: PushKeyPayload| p@)
}

impl PushView {
    /// The removal of a key.
    pub open spec fn tombstone(key: Seq<u8>, slot: u16, db_id: u16) -> PushView {
        PushView { key, value: ValueView::String(Seq::empty()), seq: 0, ttl_ms: 0, slot, deleted: true, db_id }
    }

    /// A value set under a key.
    pub open spec fn write(key: Seq<u8>, value: ValueView, ttl_ms: u64, slot: u16, db_id: u16) -> PushView {
        PushView { key, value, seq: 0, ttl_ms, slot, deleted: false, db_id }
    }
}

impl PushKeyPayload {
    /// The removal of a key.
    pub fn tombstone(key: Vec<u8>, slot: u16, db_id: u16) -> (p: Self)
        ensures
            p@ == PushView::tombstone(key@, slot, db_id),
    {
        let none: Vec<u8> = Vec::new();
        PushKeyPayload { key, value: Value::String(none), seq: 0, ttl_ms: 0, slot, deleted: true, db_id }
    }

    /// A value set under a key.
    pub fn write(key: Vec<u8>, value: Value, ttl_ms: u64, slot: u16, db_id: u16) -> (p: Self)
        ensures
            p@ == PushView::write(key@, value@, ttl_ms, slot, db_id),
    {
        PushKeyPayload { key, value, seq: 0, ttl_ms, slot, deleted: false, db_id }
    }
}

impl Clone for PushKeyPayload {
    fn clone(&self) -> (r: Self)
        ensures
            r@ == self@,
    {
        PushKeyPayload {
            key: copy_bytes(&self.key),
            value: self.value.clone(),
            seq: self.seq,
            ttl_ms: self.ttl_ms,
            slot: self.slot,
            deleted: self.deleted,
            db_id: self.db_id,
        }
    }
}

/// More than one frame may hold.
pub open spec fn is_too_much(buffered: int) -> bool {
    buffered > MAX_PAYLOAD + FRAME_HEADER
}

/// A frame with a payload of 64 megabytes may be sent, and nothing longer.
pub proof fn law_frames_up_to_the_limit(b: Seq<u8>, n: int)
    ensures
        n <= 64 * 1024 * 1024 ==> !is_too_much(n + 16),
        n > 64 * 1024 * 1024 ==> is_too_much(n + 16),
        b.len() >= 16 ==> frame_len(b) == Some((16 + 16777216 * b[8] + 65536 * b[9] + 256 * b[10] + b[11]) as nat),
        b.len() < 16 ==> frame_len(b) is None,
        frame_complete(b) ==> frame_len(b)->0 <= b.len(),
{
    if b.len() >= 16 {
        let s = b.subrange(8, 12);
        assert(s[0] == b[8] && s[1] == b[9] && s[2] == b[10] && s[3] == b[11]);
    }
}

} // verus!
