//! Mneme: a replicated in-memory key-value store whose decision logic is
//! verified. Every module states what it computes in contracts; sockets,
//! files, clocks and serialisation of whole messages live in the program
//! around this library.

pub mod account_laws;
pub mod aegis;
pub mod aletheia;
pub mod aoide;
pub mod argus;
pub mod assoc;
pub mod byte_laws;
pub mod bytes;
pub mod charon;
pub mod cluster_info;
pub mod codec;
pub mod command_laws;
pub mod commands;
pub mod crypto;
pub mod data;
pub mod dbs;
pub mod delphi;
pub mod digits;
pub mod frame;
pub mod herold;
pub mod hermes;
pub mod hypnos;
pub mod iris;
pub mod json;
pub mod json_laws;
pub mod keeper_link;
pub mod keeper_session;
pub mod key_laws;
pub mod lethe;
pub mod list_laws;
pub mod listing;
pub mod melete;
pub mod mnemosyne;
pub mod moirai;
pub mod named_claims;
pub mod node_laws;
pub mod num;
pub mod oneiros;
pub mod order;
pub mod pattern;
pub mod pool;
pub mod pool_mmap;
pub mod proto;
pub mod rbac;
pub mod recovery_laws;
pub mod replica;
pub mod replication_laws;
pub mod reply;
pub mod scan_laws;
pub mod session;
pub mod settings;
pub mod store;
pub mod store_laws;
pub mod text;
pub mod themis;
pub mod users;
pub mod value;
pub mod warmup;
pub mod wheel_laws;
pub mod zset_laws;
