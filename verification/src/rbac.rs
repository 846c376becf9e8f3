//! Which role may run which command on which database.
//!
//! Administrators may run everything. The other roles are held to their
//! databases (an empty list stands for all) and to reading, or to reading and
//! writing data. Managing users is left to administrators.

use vstd::prelude::*;

use crate::proto::CmdId;
use crate::text::str_eq;

verus! {

/// The role of a user.
#[derive(Debug, Clone, Copy, PartialEq, Eq, Structural)]
pub enum Role {
    Admin,
    ReadWrite,
    ReadOnly,
}

impl Role {
    /// The name of the role.
    pub open spec fn name(self) -> Seq<char> {
        match self {
            Role::Admin => "admin"@,
            Role::ReadWrite => "readwrite"@,
            Role::ReadOnly => "readonly"@,
        }
    }

    /// The role of this name; unknown names stand for `ReadWrite`.
    pub open spec fn named(s: Seq<char>) -> Role {
        if s == "admin"@ {
            Role::Admin
        } else if s == "readonly"@ {
            Role::ReadOnly
        } else {
            Role::ReadWrite
        }
    }

    /// The role of this name; unknown names stand for `ReadWrite`.
    pub fn from_str(s: &str) -> (r: Self)
        ensures
            r == Role::named(s@),
    {
        if str_eq(s, "admin") {
            Role::Admin
        } else if str_eq(s, "readonly") {
            Role::ReadOnly
        } else {
            Role::ReadWrite
        }
    }

    pub fn as_str(self) -> (r: &'static str)
        ensures
            r@ == self.name(),
    {
        match self {
            Role::Admin => "admin",
            Role::ReadWrite => "readwrite",
            Role::ReadOnly => "readonly",
        }
    }
}

/// A role is read back from its name.
pub proof fn law_role_round_trip(r: Role)
    ensures
        Role::named(r.name()) == r,
{
    reveal_strlit("admin");
    reveal_strlit("readwrite");
    reveal_strlit("readonly");
    assert("readwrite"@.len() == 9);
    assert("readonly"@.len() == 8);
    assert("admin"@.len() == 5);
}

/// Commands that look at state and never change it.
pub open spec fn reads(cmd: CmdId) -> bool {
    match cmd {
        CmdId::Get | CmdId::Exists | CmdId::Ttl | CmdId::HGet | CmdId::HGetAll | CmdId::LRange | CmdId::ZScore
        | CmdId::ZRank | CmdId::ZRange | CmdId::ZRangeByScore | CmdId::ZCard | CmdId::JsonGet | CmdId::JsonExists
        | CmdId::JsonType | CmdId::SlowLog | CmdId::Metrics | CmdId::Stats | CmdId::MemoryUsage
        | CmdId::ClusterInfo | CmdId::ClusterSlots | CmdId::KeeperList | CmdId::PoolStats | CmdId::DbSize
        | CmdId::Select | CmdId::Scan | CmdId::Type | CmdId::MGet | CmdId::Auth | CmdId::RevokeToken | CmdId::Wait
        | CmdId::UserInfo => true,
        _ => false,
    }
}

/// Commands that change data.
pub open spec fn writes(cmd: CmdId) -> bool {
    match cmd {
        CmdId::SetKey | CmdId::Del | CmdId::Expire | CmdId::HSet | CmdId::HDel | CmdId::LPush | CmdId::RPush
        | CmdId::LPop | CmdId::RPop | CmdId::ZAdd | CmdId::ZRem | CmdId::Incr | CmdId::Decr | CmdId::IncrBy
        | CmdId::DecrBy | CmdId::IncrByFloat | CmdId::GetSet | CmdId::JsonSet | CmdId::JsonDel
        | CmdId::JsonArrAppend | CmdId::JsonNumIncrBy | CmdId::FlushDb | CmdId::MSet => true,
        _ => false,
    }
}

/// A number that is out of the range of databases that can be selected. It
/// stays in the list of an account that lost its last database, since an empty
/// list stands for all.
pub const NO_DATABASE: u16 = 65535;

/// A list of databases lets its user into a database: it names the database,
/// or it is empty.
pub open spec fn lets_into(allowed_dbs: Seq<u16>, db_id: u16) -> bool {
    allowed_dbs.len() == 0 || allowed_dbs.contains(db_id)
}

/// A connection may run `cmd` on database `db_id`.
pub open spec fn permitted(role: Role, cmd: CmdId, db_id: u16, allowed_dbs: Seq<u16>) -> bool {
    role == Role::Admin || {
        &&& lets_into(allowed_dbs, db_id)
        &&& reads(cmd) || role == Role::ReadWrite && writes(cmd)
    }
}

/// What a lower role may do, a higher one may do too.
pub proof fn law_roles_nest(cmd: CmdId, db_id: u16, allowed_dbs: Seq<u16>)
    ensures
        permitted(Role::ReadOnly, cmd, db_id, allowed_dbs) ==> permitted(Role::ReadWrite, cmd, db_id, allowed_dbs),
        permitted(Role::ReadWrite, cmd, db_id, allowed_dbs) ==> permitted(Role::Admin, cmd, db_id, allowed_dbs),
{
}

/// No command both reads and changes data, and managing users is left to
/// administrators.
pub proof fn law_commands_apart(cmd: CmdId, role: Role, db_id: u16, allowed_dbs: Seq<u16>)
    ensures
        !(reads(cmd) && writes(cmd)),
        role != Role::Admin ==> {
            &&& !permitted(role, CmdId::UserCreate, db_id, allowed_dbs)
            &&& !permitted(role, CmdId::UserDelete, db_id, allowed_dbs)
            &&& !permitted(role, CmdId::UserGrant, db_id, allowed_dbs)
            &&& !permitted(role, CmdId::UserRevoke, db_id, allowed_dbs)
            &&& !permitted(role, CmdId::UserSetRole, db_id, allowed_dbs)
            &&& !permitted(role, CmdId::UserList, db_id, allowed_dbs)
        },
{
}

/// Commands that tell of data: no value changes by them.
pub open spec fn tells(cmd: CmdId) -> bool {
    match cmd {
        CmdId::Get | CmdId::MGet | CmdId::Exists | CmdId::Ttl | CmdId::Type | CmdId::Scan | CmdId::MemoryUsage => true,
        CmdId::HGet | CmdId::HGetAll | CmdId::LRange => true,
        CmdId::ZScore | CmdId::ZRank | CmdId::ZRange | CmdId::ZRangeByScore | CmdId::ZCard => true,
        CmdId::JsonGet | CmdId::JsonExists | CmdId::JsonType => true,
        _ => false,
    }
}

/// Commands that change values.
pub open spec fn alters(cmd: CmdId) -> bool {
    match cmd {
        CmdId::SetKey | CmdId::MSet | CmdId::GetSet | CmdId::Del | CmdId::Expire | CmdId::FlushDb => true,
        CmdId::HSet | CmdId::HDel => true,
        CmdId::LPush | CmdId::RPush | CmdId::LPop | CmdId::RPop => true,
        CmdId::ZAdd | CmdId::ZRem => true,
        CmdId::Incr | CmdId::Decr | CmdId::IncrBy | CmdId::DecrBy | CmdId::IncrByFloat => true,
        CmdId::JsonSet | CmdId::JsonDel | CmdId::JsonArrAppend | CmdId::JsonNumIncrBy => true,
        _ => false,
    }
}

/// On a database that its list lets it into, a connection that may only read
/// runs what tells of data and of the node, and one that may write runs what
/// changes values besides. Names of databases, settings, accounts, monitors and
/// join tokens are for administrators, who may run everything everywhere. On a
/// database that is not in its list only an administrator runs anything.
pub proof fn law_roles_may(cmd: CmdId, db_id: u16, allowed_dbs: Seq<u16>)
    ensures
        permitted(Role::Admin, cmd, db_id, allowed_dbs),
        allowed_dbs.len() > 0 && !allowed_dbs.contains(db_id) ==> !permitted(Role::ReadWrite, cmd, db_id, allowed_dbs)
            && !permitted(Role::ReadOnly, cmd, db_id, allowed_dbs),
        allowed_dbs.len() == 0 || allowed_dbs.contains(db_id) ==> {
            &&& tells(cmd) ==> permitted(Role::ReadOnly, cmd, db_id, allowed_dbs)
            &&& alters(cmd) ==> permitted(Role::ReadWrite, cmd, db_id, allowed_dbs)
            &&& permitted(Role::ReadWrite, cmd, db_id, allowed_dbs) && !permitted(Role::ReadOnly, cmd, db_id, allowed_dbs)
                ==> alters(cmd)
            &&& !tells(cmd) ==> (permitted(Role::ReadOnly, cmd, db_id, allowed_dbs) <==> cmd == CmdId::SlowLog || cmd
                == CmdId::Metrics || cmd == CmdId::Stats || cmd == CmdId::ClusterInfo || cmd == CmdId::ClusterSlots || cmd
                == CmdId::KeeperList || cmd == CmdId::PoolStats || cmd == CmdId::DbSize || cmd == CmdId::Select || cmd
                == CmdId::Auth || cmd == CmdId::RevokeToken || cmd == CmdId::Wait || cmd == CmdId::UserInfo)
        },
{
}

/// The names of the roles: `admin` and `readonly` stand for themselves, and any
/// other for one that may write.
pub proof fn law_role_names(name: Seq<char>)
    ensures
        name == "admin"@ ==> Role::named(name) == Role::Admin,
        name == "readonly"@ ==> Role::named(name) == Role::ReadOnly,
        name != "admin"@ && name != "readonly"@ ==> Role::named(name) == Role::ReadWrite,
{
    reveal_strlit("admin");
    reveal_strlit("readonly");
    assert("readonly"@.len() == 8);
    assert("admin"@.len() == 5);
}

/// Whether a connection with this role and these databases may run `cmd` on
/// database `db_id`.
pub fn can_execute(role: Role, cmd: CmdId, db_id: u16, allowed_dbs: &[u16]) -> (r: bool)
    ensures
        r == permitted(role, cmd, db_id, allowed_dbs@),
{
    if role == Role::Admin {
        return true;
    }
    if allowed_dbs.len() > 0 && !holds_db(allowed_dbs, db_id) {
        return false;
    }
    is_read_cmd(cmd) || (role == Role::ReadWrite && is_write_cmd(cmd))
}

/// Whether a list holds a database.
fn holds_db(dbs: &[u16], db_id: u16) -> (r: bool)
    ensures
        r == dbs@.contains(db_id),
{
    let mut i: usize = 0;
    while i < dbs.len()
        invariant
            i <= dbs.len(),
            forall|j: int| 0 <= j < i ==> dbs@[j] != db_id,
        decreases dbs.len() - i,
    {
        if dbs[i] == db_id {
            return true;
        }
        i = i + 1;
    }
    false
}

/// Whether a command looks at state and never changes it.
pub fn is_read_cmd(cmd: CmdId) -> (r: bool)
    ensures
        r == reads(cmd),
{
    match cmd {
        CmdId::Get | CmdId::Exists | CmdId::Ttl | CmdId::HGet | CmdId::HGetAll | CmdId::LRange | CmdId::ZScore
        | CmdId::ZRank | CmdId::ZRange | CmdId::ZRangeByScore | CmdId::ZCard | CmdId::JsonGet | CmdId::JsonExists
        | CmdId::JsonType | CmdId::SlowLog | CmdId::Metrics | CmdId::Stats | CmdId::MemoryUsage
        | CmdId::ClusterInfo | CmdId::ClusterSlots | CmdId::KeeperList | CmdId::PoolStats | CmdId::DbSize
        | CmdId::Select | CmdId::Scan | CmdId::Type | CmdId::MGet | CmdId::Auth | CmdId::RevokeToken | CmdId::Wait
        | CmdId::UserInfo => true,
        _ => false,
    }
}

/// Whether a command changes data.
pub fn is_write_cmd(cmd: CmdId) -> (r: bool)
    ensures
        r == writes(cmd),
{
    match cmd {
        CmdId::SetKey | CmdId::Del | CmdId::Expire | CmdId::HSet | CmdId::HDel | CmdId::LPush | CmdId::RPush
        | CmdId::LPop | CmdId::RPop | CmdId::ZAdd | CmdId::ZRem | CmdId::Incr | CmdId::Decr | CmdId::IncrBy
        | CmdId::DecrBy | CmdId::IncrByFloat | CmdId::GetSet | CmdId::JsonSet | CmdId::JsonDel
        | CmdId::JsonArrAppend | CmdId::JsonNumIncrBy | CmdId::FlushDb | CmdId::MSet => true,
        _ => false,
    }
}

} // verus!
