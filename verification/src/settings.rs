//! The settings of a node, and those that can be changed while it runs.

use vstd::prelude::*;

use crate::num::{all_digits, decimal_u64, digits_value, is_digit, parse_u64, unsigned_part};
use crate::text::str_eq;
use crate::value::{ErrorView, MnemeError};

verus! {

/// What a node is for.
#[derive(Debug, Clone, Copy, PartialEq, Eq, Structural)]
pub enum NodeRole {
    Core,
    Keeper,
    Solo,
    ReadReplica,
}

impl NodeRole {
    pub open spec fn text(self) -> Seq<char> {
        match self {
            NodeRole::Core => "core"@,
            NodeRole::Keeper => "keeper"@,
            NodeRole::Solo => "solo"@,
            NodeRole::ReadReplica => "read-replica"@,
        }
    }

    /// The role in words.
    pub fn name(self) -> (r: &'static str)
        ensures
            r@ == self.text(),
    {
        match self {
            NodeRole::Core => "core",
            NodeRole::Keeper => "keeper",
            NodeRole::Solo => "solo",
            NodeRole::ReadReplica => "read-replica",
        }
    }

    /// The role that a word stands for.
    pub fn named(word: &str) -> (r: Option<NodeRole>)
        ensures
            match r {
                Some(x) => x.text() == word@,
                None => word@ != "core"@ && word@ != "keeper"@ && word@ != "solo"@ && word@ != "read-replica"@,
            },
    {
        if str_eq(word, "core") {
            Some(NodeRole::Core)
        } else if str_eq(word, "keeper") {
            Some(NodeRole::Keeper)
        } else if str_eq(word, "solo") {
            Some(NodeRole::Solo)
        } else if str_eq(word, "read-replica") {
            Some(NodeRole::ReadReplica)
        } else {
            None
        }
    }
}

/// The factor that a letter before `b` stands for, in upper or lower case.
pub open spec fn unit_of(c: u8) -> Option<int> {
    if c == 0x6b || c == 0x4b {
        Some(1024)
    } else if c == 0x6d || c == 0x4d {
        Some(1048576)
    } else if c == 0x67 || c == 0x47 {
        Some(1073741824)
    } else {
        None
    }
}

/// The number of bytes that a text means: a plain number, or a number of
/// kilobytes, megabytes or gigabytes.
pub open spec fn size_value(b: Seq<u8>) -> Option<int> {
    match decimal_u64(b) {
        Some(n) => Some(n),
        None => if b.len() > 2 && (b.last() == 0x62 || b.last() == 0x42) {
            match (unit_of(b[b.len() - 2]), decimal_u64(b.take(b.len() - 2))) {
                (Some(u), Some(n)) => if n * u <= u64::MAX {
                    Some(n * u)
                } else {
                    None
                },
                _ => None,
            }
        } else {
            None
        },
    }
}

/// The number of bytes that a text means.
pub fn parse_size(text: &str) -> (r: Option<u64>)
    ensures
        r == (match size_value(vstd::utf8::encode_utf8(text@)) {
            Some(n) => Some(n as u64),
            None => None,
        }),
{
    let b = text.as_bytes();
    match parse_u64(b) {
        Some(n) => {
            return Some(n);
        },
        None => {},
    }
    let n: usize = b.len();
    if n <= 2 || (b[n - 1] != 0x62 && b[n - 1] != 0x42) {
        return None;
    }
    let c: u8 = b[n - 2];
    let unit: u64 = if c == 0x6b || c == 0x4b {
        1024
    } else if c == 0x6d || c == 0x4d {
        1048576
    } else if c == 0x67 || c == 0x47 {
        1073741824
    } else {
        return None;
    };
    let digits = vstd::slice::slice_subrange(b, 0, n - 2);
    assert(digits@ =~= b@.take(n - 2));
    match parse_u64(digits) {
        None => None,
        Some(v) => {
            proof {
                assert(v * unit <= 0xffff_ffff_ffff_ffff * 1073741824) by (nonlinear_arith)
                    requires
                        v <= 0xffff_ffff_ffff_ffff,
                        unit <= 1073741824,
                ;
            }
            let total: u128 = v as u128 * unit as u128;
            if total <= u64::MAX as u128 {
                Some(total as u64)
            } else {
                None
            }
        },
    }
}

/// The settings of a node.
#[derive(Debug)]
pub struct Settings {
    pub node_id: String,
    pub role: NodeRole,
    /// The limit of the pool as it was written.
    pub pool_bytes: String,
    /// The threshold of eviction as it is shown.
    pub eviction_threshold: String,
    pub port: u16,
    pub rep_port: u16,
    pub max_databases: u16,
    pub default_database: u16,
    pub cluster_secret: String,
    pub join_token: String,
}

/// What the settings say.
pub struct SettingsView {
    pub node_id: Seq<char>,
    pub role: NodeRole,
    pub pool_bytes: Seq<char>,
    pub eviction_threshold: Seq<char>,
    pub port: u16,
    pub rep_port: u16,
    pub max_databases: u16,
    pub default_database: u16,
    pub cluster_secret: Seq<char>,
    pub join_token: Seq<char>,
}

impl View for Settings {
    type V = SettingsView;

    open spec fn view(&self) -> SettingsView {
        SettingsView {
            node_id: self.node_id@,
            role: self.role,
            pool_bytes: self.pool_bytes@,
            eviction_threshold: self.eviction_threshold@,
            port: self.port,
            rep_port: self.rep_port,
            max_databases: self.max_databases,
            default_database: self.default_database,
            cluster_secret: self.cluster_secret@,
            join_token: self.join_token@,
        }
    }
}

/// A setting that can be read or changed while a node runs.
#[derive(Debug, Clone, Copy, PartialEq, Eq, Structural)]
pub enum Param {
    PoolBytes,
    EvictionThreshold,
    NodeId,
    Unknown,
}

/// The setting that a name stands for.
pub open spec fn param_of(name: Seq<char>) -> Param {
    if name == "memory.pool_bytes"@ {
        Param::PoolBytes
    } else if name == "memory.eviction_threshold"@ {
        Param::EvictionThreshold
    } else if name == "node.id"@ {
        Param::NodeId
    } else {
        Param::Unknown
    }
}

/// The setting that a name stands for.
pub fn find_param(name: &str) -> (r: Param)
    ensures
        r == param_of(name@),
{
    if str_eq(name, "memory.pool_bytes") {
        Param::PoolBytes
    } else if str_eq(name, "memory.eviction_threshold") {
        Param::EvictionThreshold
    } else if str_eq(name, "node.id") {
        Param::NodeId
    } else {
        Param::Unknown
    }
}

/// The error for a setting that is not known.
pub open spec fn unknown_param(name: Seq<char>) -> ErrorView {
    ErrorView::Message("unknown config param: "@ + name)
}

pub fn no_such_param(name: &str) -> (r: MnemeError)
    ensures
        r@ == unknown_param(name@),
{
    let mut s = "unknown config param: ".to_string();
    s.append(name);
    MnemeError::Message(s)
}

impl SettingsView {
    /// The value of a setting.
    pub open spec fn value_of(self, name: Seq<char>) -> Result<Seq<char>, ErrorView> {
        match param_of(name) {
            Param::PoolBytes => Ok(self.pool_bytes),
            Param::EvictionThreshold => Ok(self.eviction_threshold),
            Param::NodeId => Ok(self.node_id),
            Param::Unknown => Err(unknown_param(name)),
        }
    }
}

impl Settings {
    /// The value of a setting.
    pub fn get(&self, name: &str) -> (r: Result<String, MnemeError>)
        ensures
            match self@.value_of(name@) {
                Ok(v) => r matches Ok(x) && x@ == v,
                Err(e) => r matches Err(x) && x@ == e,
            },
    {
        match find_param(name) {
            Param::PoolBytes => Ok(self.pool_bytes.clone()),
            Param::EvictionThreshold => Ok(self.eviction_threshold.clone()),
            Param::NodeId => Ok(self.node_id.clone()),
            Param::Unknown => Err(no_such_param(name)),
        }
    }
}

/// Digits stand for their number of bytes. With `kb`, `mb` or `gb` behind them,
/// in either case, they stand for 1024 times as many, and 1024 times that for
/// each step up; a number of bytes that 64 bits cannot hold is no size.
pub proof fn law_sizes(d: Seq<u8>, letter: u8, b: u8)
    requires
        all_digits(d),
        b == 0x62 || b == 0x42,
    ensures
        ({
            let v = digits_value(d) as int;
            let t = d + seq![letter, b];
            let unit: int = if letter == 0x6b || letter == 0x4b {
                1024
            } else if letter == 0x6d || letter == 0x4d {
                1024int * 1024
            } else {
                1024int * 1024 * 1024
            };
            &&& v <= u64::MAX ==> size_value(d) == Some(v)
            &&& v > u64::MAX ==> size_value(d) is None
            &&& seq![0x6bu8, 0x4b, 0x6d, 0x4d, 0x67, 0x47].contains(letter) ==> size_value(t) == if v * unit <= u64::MAX {
                Some(v * unit)
            } else {
                None
            }
            &&& !seq![0x6bu8, 0x4b, 0x6d, 0x4d, 0x67, 0x47].contains(letter) ==> size_value(t) is None
        }),
{
    let v = digits_value(d) as int;
    let t = d + seq![letter, b];
    let letters = seq![0x6bu8, 0x4b, 0x6d, 0x4d, 0x67, 0x47];
    assert(is_digit(d[0]));
    assert(unsigned_part(d, false) == d);
    assert(t[0] == d[0]);
    assert(unsigned_part(t, false) == t);
    assert(t.last() == b);
    assert(!is_digit(t[t.len() - 1]));
    assert(!all_digits(t));
    assert(t.take(t.len() - 2) =~= d);
    assert(t[t.len() - 2] == letter);
    assert(letters[0] == 0x6b && letters[1] == 0x4b && letters[2] == 0x6d && letters[3] == 0x4d && letters[4] == 0x67
        && letters[5] == 0x47);
    if v > u64::MAX {
        assert(v * 1024 > u64::MAX && v * 1048576 > u64::MAX && v * 1073741824 > u64::MAX);
    }
}

/// The settings that can be read: the limit of the pool, the threshold of
/// eviction and the name of the node.
pub proof fn law_settings_are_read(s: SettingsView, name: Seq<char>)
    ensures
        s.value_of("memory.pool_bytes"@) == Ok::<Seq<char>, ErrorView>(s.pool_bytes),
        s.value_of("memory.eviction_threshold"@) == Ok::<Seq<char>, ErrorView>(s.eviction_threshold),
        s.value_of("node.id"@) == Ok::<Seq<char>, ErrorView>(s.node_id),
        name != "memory.pool_bytes"@ && name != "memory.eviction_threshold"@ && name != "node.id"@ ==> s.value_of(name)
            == Err::<Seq<char>, ErrorView>(ErrorView::Message("unknown config param: "@ + name)),
{
    lemma_setting_names();
}

/// The names of the settings differ.
pub proof fn lemma_setting_names()
    ensures
        "memory.pool_bytes"@ != "memory.eviction_threshold"@,
        "memory.pool_bytes"@ != "node.id"@,
        "memory.eviction_threshold"@ != "node.id"@,
{
    reveal_strlit("memory.pool_bytes");
    reveal_strlit("memory.eviction_threshold");
    reveal_strlit("node.id");
    assert("memory.pool_bytes"@.len() == 17);
    assert("memory.eviction_threshold"@.len() == 25);
    assert("node.id"@.len() == 7);
}

} // verus!
