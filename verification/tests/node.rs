//! A node on its own, from sign-in to commands.

use mneme::argus::{Argus, Claims};
use mneme::commands::DataCommand;
use mneme::dbs::DbInfo;
use mneme::mnemosyne::{default_of, needs_leader, Caller, Mnemosyne, NodeCommand};
use mneme::proto::{CmdId, ConsistencyLevel};
use mneme::rbac::Role;
use mneme::reply::Reply;
use mneme::session::{answer_claims, extract_primary_key, handle_auth_frame, Session, SignIn, Step};
use mneme::settings::{NodeRole, Settings};
use mneme::value::{JsonDoc, MnemeError, Value, ZSetMember};

const NOW: u64 = 1_700_000_000_000;

fn settings(role: NodeRole) -> Settings {
    Settings {
        node_id: "node-1".to_string(),
        role,
        pool_bytes: "64mb".to_string(),
        eviction_threshold: "0.9".to_string(),
        port: 6379,
        rep_port: 7379,
        max_databases: 16,
        default_database: 0,
        cluster_secret: "test-secret".to_string(),
        join_token: "mneme_tok_1".to_string(),
    }
}

fn node(role: NodeRole) -> Mnemosyne {
    Mnemosyne::new(settings(role), 64 * 1024 * 1024, 7, Argus::new(b"test-secret"), vec![], vec![], false)
}

fn solo() -> Mnemosyne {
    node(NodeRole::Solo)
}

const ADMIN: Caller = Caller { user_id: 1, admin: true };

fn ask(n: &mut Mnemosyne, c: NodeCommand, cmd: CmdId) -> Result<Reply, MnemeError> {
    assert!(n.can_run(&c, NOW));
    n.dispatch_command(cmd, ConsistencyLevel::Eventual, Ok(c), ADMIN, 0, NOW, true, String::new()).0
}

fn data_at(n: &mut Mnemosyne, c: DataCommand, now: u64) -> Result<Reply, MnemeError> {
    assert!(c.is_in_range(now));
    let cmd = c.cmd_id();
    n.dispatch_command(cmd, ConsistencyLevel::Eventual, Ok(NodeCommand::Data(c)), ADMIN, 0, now, true, String::new()).0
}

fn data(n: &mut Mnemosyne, c: DataCommand) -> Result<Reply, MnemeError> {
    data_at(n, c, NOW)
}

fn set(n: &mut Mnemosyne, key: &[u8], value: Value, ttl_ms: u64) -> Result<Reply, MnemeError> {
    data(n, DataCommand::SetKey { key: key.to_vec(), value, ttl_ms })
}

fn get(n: &mut Mnemosyne, key: &[u8]) -> Result<Reply, MnemeError> {
    data(n, DataCommand::Get { key: key.to_vec() })
}

fn count(r: Result<Reply, MnemeError>) -> u64 {
    match r {
        Ok(Reply::Count(n)) => n,
        other => panic!("expected a count, got {other:?}"),
    }
}

fn number(r: Result<Reply, MnemeError>) -> i64 {
    match r {
        Ok(Reply::Number(n)) => n,
        other => panic!("expected a number, got {other:?}"),
    }
}

fn text(r: Result<Reply, MnemeError>) -> String {
    match r {
        Ok(Reply::Text(t)) => t,
        other => panic!("expected a text, got {other:?}"),
    }
}

fn bytes(r: Result<Reply, MnemeError>) -> Vec<u8> {
    match r {
        Ok(Reply::Bytes(b)) => b,
        other => panic!("expected bytes, got {other:?}"),
    }
}

fn list(r: Result<Reply, MnemeError>) -> Vec<Vec<u8>> {
    match r {
        Ok(Reply::BytesList(l)) => l,
        other => panic!("expected a list, got {other:?}"),
    }
}

fn flag(r: Result<Reply, MnemeError>) -> bool {
    match r {
        Ok(Reply::Flag(b)) => b,
        other => panic!("expected a flag, got {other:?}"),
    }
}

fn string_of(r: Result<Reply, MnemeError>) -> Vec<u8> {
    match r {
        Ok(Reply::Value(Value::String(b))) => b,
        other => panic!("expected a string, got {other:?}"),
    }
}

// ---- data types ----

#[test]
fn hash_hset_hget_hdel_hgetall() {
    let mut n = solo();
    let added = count(data(
        &mut n,
        DataCommand::HSet {
            key: b"user:1".to_vec(),
            pairs: vec![
                (b"name".to_vec(), b"alice".to_vec()),
                (b"age".to_vec(), b"30".to_vec()),
                (b"city".to_vec(), b"london".to_vec()),
            ],
        },
    ));
    assert_eq!(added, 3, "HSET should report 3 new fields");
    let val = bytes(data(&mut n, DataCommand::HGet { key: b"user:1".to_vec(), field: b"name".to_vec() }));
    assert_eq!(val, b"alice");
    assert!(data(&mut n, DataCommand::HGet { key: b"user:1".to_vec(), field: b"email".to_vec() }).is_err());
    match data(&mut n, DataCommand::HGetAll { key: b"user:1".to_vec() }) {
        Ok(Reply::Pairs(p)) => assert_eq!(p.len(), 3, "HGETALL should return 3 fields"),
        other => panic!("{other:?}"),
    }
    let removed = count(data(&mut n, DataCommand::HDel { key: b"user:1".to_vec(), fields: vec![b"city".to_vec()] }));
    assert_eq!(removed, 1);
    match data(&mut n, DataCommand::HGetAll { key: b"user:1".to_vec() }) {
        Ok(Reply::Pairs(p)) => assert_eq!(p.len(), 2),
        other => panic!("{other:?}"),
    }
    set(&mut n, b"str_key", Value::String(b"v".to_vec()), 0).unwrap();
    match data(&mut n, DataCommand::HGet { key: b"str_key".to_vec(), field: b"f".to_vec() }) {
        Err(MnemeError::WrongType { expected, got }) => assert_eq!((expected, got), ("hash", "string")),
        other => panic!("HGET on non-hash should fail, got {other:?}"),
    }
}

#[test]
fn list_lpush_rpush_lpop_rpop_lrange() {
    let mut n = solo();
    let key = b"mylist".to_vec();
    let len = count(data(
        &mut n,
        DataCommand::LPush { key: key.clone(), values: vec![b"a".to_vec(), b"b".to_vec(), b"c".to_vec()] },
    ));
    assert_eq!(len, 3);
    let len = count(data(&mut n, DataCommand::RPush { key: key.clone(), values: vec![b"d".to_vec()] }));
    assert_eq!(len, 4);
    let items = list(data(&mut n, DataCommand::LRange { key: key.clone(), start: 0, stop: -1 }));
    assert_eq!(items.len(), 4);
    assert_eq!(items[0], b"c");
    assert_eq!(items[3], b"d");
    let items = list(data(&mut n, DataCommand::LRange { key: key.clone(), start: 1, stop: 2 }));
    assert_eq!(items, vec![b"b".to_vec(), b"a".to_vec()]);
    assert_eq!(bytes(data(&mut n, DataCommand::LPop { key: key.clone() })), b"c");
    assert_eq!(bytes(data(&mut n, DataCommand::RPop { key: key.clone() })), b"d");
    data(&mut n, DataCommand::Del { keys: vec![key.clone()] }).unwrap();
    assert!(data(&mut n, DataCommand::LPop { key }).is_err(), "LPOP on missing key should fail");
}

fn member(score: f64, name: &[u8]) -> ZSetMember {
    ZSetMember { score: score.to_bits(), member: name.to_vec() }
}

#[test]
fn zset_zadd_zrank_zrange_zrem_zcard() {
    let mut n = solo();
    let key = b"leaderboard".to_vec();
    let added = count(data(
        &mut n,
        DataCommand::ZAdd {
            key: key.clone(),
            members: vec![member(1000.0, b"alice"), member(850.0, b"bob"), member(1200.0, b"carol")],
        },
    ));
    assert_eq!(added, 3);
    let rank = count(data(&mut n, DataCommand::ZRank { key: key.clone(), member: b"alice".to_vec() }));
    assert_eq!(rank, 1, "alice should be rank 1 (0-indexed)");
    assert!(data(&mut n, DataCommand::ZRank { key: key.clone(), member: b"dave".to_vec() }).is_err());
    let members = list(data(&mut n, DataCommand::ZRange { key: key.clone(), start: 0, stop: 2, with_scores: false }));
    assert_eq!(members.len(), 3);
    assert_eq!(members[0], b"bob");
    assert_eq!(members[2], b"carol");
    let added = count(data(&mut n, DataCommand::ZAdd { key: key.clone(), members: vec![member(500.0, b"carol")] }));
    assert_eq!(added, 0, "updating existing member adds 0 new entries");
    let removed = count(data(&mut n, DataCommand::ZRem { key: key.clone(), members: vec![b"alice".to_vec()] }));
    assert_eq!(removed, 1);
    assert_eq!(count(data(&mut n, DataCommand::ZCard { key })), 2);
}

#[test]
fn counter_incr_decr_incrby_decrby_getset() {
    let mut n = solo();
    let hits = b"hits".to_vec();
    set(&mut n, b"hits", Value::Counter(0), 0).unwrap();
    assert_eq!(number(data(&mut n, DataCommand::Incr { key: hits.clone() })), 1);
    assert_eq!(number(data(&mut n, DataCommand::Incr { key: hits.clone() })), 2);
    assert_eq!(number(data(&mut n, DataCommand::Decr { key: hits.clone() })), 1);
    assert_eq!(number(data(&mut n, DataCommand::IncrBy { key: hits.clone(), delta: 100 })), 101);
    assert_eq!(number(data(&mut n, DataCommand::DecrBy { key: hits, delta: 50 })), 51);
    set(&mut n, b"float_ctr", Value::String(b"10".to_vec()), 0).unwrap();
    let delta = 1.5f64;
    let sum = 10.0 + delta;
    let r = data(
        &mut n,
        DataCommand::IncrByFloat {
            key: b"float_ctr".to_vec(),
            delta_bits: delta.to_bits(),
            delta_int: delta as i64,
            sum: Some(mneme::json::FloatSum { bits: sum.to_bits(), int: sum as i64, text: format!("{sum}").into_bytes() }),
        },
    );
    assert!(r.is_ok(), "INCRBYFLOAT should succeed");
    assert_eq!(string_of(get(&mut n, b"float_ctr")), b"11.5");
    data(&mut n, DataCommand::Del { keys: vec![b"new_ctr".to_vec()] }).unwrap();
    assert_eq!(number(data(&mut n, DataCommand::Incr { key: b"new_ctr".to_vec() })), 1, "INCR on new key should return 1");
    set(&mut n, b"wrong_type", Value::Hash(vec![]), 0).unwrap();
    assert!(data(&mut n, DataCommand::Incr { key: b"wrong_type".to_vec() }).is_err());
}

fn doc_text(n: &Mnemosyne) -> String {
    n.store.json_text(0, b"doc", NOW).unwrap()
}

fn parsed(n: &Mnemosyne) -> serde_json::Value {
    serde_json::from_str(&doc_text(n)).unwrap()
}

fn field(n: &Mnemosyne, name: &str) -> Result<String, MnemeError> {
    parsed(n).get(name).map(|v| v.to_string()).ok_or(MnemeError::KeyNotFound)
}

#[test]
fn json_set_get_del_exists_type_arrapend_numincrby() {
    let mut n = solo();
    let key = b"doc".to_vec();
    let raw = r#"{"name":"alice","score":42,"tags":["rust","cache"]}"#.to_string();
    data(
        &mut n,
        DataCommand::JsonSet { key: key.clone(), changed: Ok(raw.clone()), made: Ok(raw) },
    )
    .unwrap();
    let said = Ok(doc_text(&n));
    assert!(text(data(&mut n, DataCommand::JsonGet { key: key.clone(), said })).contains("alice"));
    let said = field(&n, "name");
    assert!(text(data(&mut n, DataCommand::JsonGet { key: key.clone(), said })).contains("alice"));
    let said = field(&n, "missing");
    assert!(data(&mut n, DataCommand::JsonGet { key: key.clone(), said }).is_err());
    let mut v = parsed(&n);
    v["name"] = serde_json::Value::from("bob");
    data(&mut n, DataCommand::JsonSet { key: key.clone(), changed: Ok(v.to_string()), made: Ok("0".to_string()) }).unwrap();
    let said = field(&n, "name");
    assert!(text(data(&mut n, DataCommand::JsonGet { key: key.clone(), said })).contains("bob"), "name should be updated to bob");
    let mut v = parsed(&n);
    v.as_object_mut().unwrap().remove("name");
    assert!(flag(data(&mut n, DataCommand::JsonDel { key: key.clone(), changed: Ok((v.to_string(), true)) })));
    let found = field(&n, "name").is_ok();
    assert!(!flag(data(&mut n, DataCommand::JsonExists { key: key.clone(), found })), "$.name should not exist after JSON.DEL");
    let found = field(&n, "score").is_ok();
    assert!(flag(data(&mut n, DataCommand::JsonExists { key: key.clone(), found })), "$.score should still exist");
    let mut v = parsed(&n);
    let sum = v["score"].as_f64().unwrap() + 8.0;
    v["score"] = serde_json::Value::from(sum);
    match data(&mut n, DataCommand::JsonNumIncrBy { key: key.clone(), changed: Ok((v.to_string(), sum.to_bits())) }) {
        Ok(Reply::Score(bits)) => assert!((f64::from_bits(bits) - 50.0).abs() < 0.001, "score should be 50 after +8"),
        other => panic!("{other:?}"),
    }
    let mut v = parsed(&n);
    v["tags"].as_array_mut().unwrap().push(serde_json::Value::from("distributed"));
    data(&mut n, DataCommand::JsonArrAppend { key: key.clone(), changed: Ok(v.to_string()) }).unwrap();
    assert!(doc_text(&n).contains("distributed"));
    let said = Ok(if parsed(&n)["score"].is_number() { "number".to_string() } else { "other".to_string() });
    assert_eq!(text(data(&mut n, DataCommand::JsonType { key, said })), "number");
}

#[test]
fn json_value_stored_via_set_get() {
    let mut n = solo();
    let doc = JsonDoc { raw: r#"{"x":1}"#.into() };
    set(&mut n, b"jdoc", Value::Json(doc), 0).unwrap();
    match get(&mut n, b"jdoc") {
        Ok(Reply::Value(Value::Json(d))) => assert_eq!(d.raw, r#"{"x":1}"#),
        other => panic!("should retrieve a Json value, got {other:?}"),
    }
}

#[test]
fn ttl_applies_to_counter_and_hash() {
    let mut n = solo();
    set(&mut n, b"expiring_ctr", Value::Counter(99), 200).unwrap();
    assert_eq!(number(data(&mut n, DataCommand::Incr { key: b"expiring_ctr".to_vec() })), 100);
    let later = NOW + 350;
    assert!(data_at(&mut n, DataCommand::Get { key: b"expiring_ctr".to_vec() }, later).is_err());
    let hash = Value::Hash(vec![(b"f".to_vec(), b"v".to_vec())]);
    set(&mut n, b"expiring_hash", hash, 200).unwrap();
    assert!(data_at(&mut n, DataCommand::Get { key: b"expiring_hash".to_vec() }, later).is_err());
}

#[test]
fn solo_mode_get_set_del_ttl() {
    let mut n = solo();
    let a = Argus::new(b"test-secret");
    let token = a.issue(1, 3600).unwrap();
    let mut s = Session::new(0);
    let payload = rmp_serde::to_vec(&token).unwrap();
    match s.greet(handle_auth_frame(&n.argus, CmdId::Auth, &payload)) {
        Step::Say(t) => assert_eq!(t, "OK", "AUTH should succeed"),
        other => panic!("{other:?}"),
    }
    let cmd = NodeCommand::Data(DataCommand::SetKey { key: b"hello".to_vec(), value: Value::String(b"world".to_vec()), ttl_ms: 0 });
    let (r, pushes) =
        n.dispatch_command(CmdId::SetKey, ConsistencyLevel::Quorum, Ok(cmd), s.caller(), s.db, NOW, true, String::new());
    assert_eq!(text(r), "OK");
    assert_eq!(pushes.len(), 1);
    assert_eq!(string_of(get(&mut n, b"hello")), b"world");
    assert!(get(&mut n, b"missing").is_err());
    set(&mut n, b"ttl_key", Value::String(b"v".to_vec()), 60_000).unwrap();
    let ttl = number(data(&mut n, DataCommand::Ttl { key: b"ttl_key".to_vec() }));
    assert!(ttl > 0 && ttl <= 60);
    assert_eq!(count(data(&mut n, DataCommand::Del { keys: vec![b"hello".to_vec()] })), 1);
    assert!(get(&mut n, b"hello").is_err());
}

#[test]
fn noauth_command_rejected() {
    let n = solo();
    let mut s = Session::new(0);
    let payload = rmp_serde::to_vec(&b"any".to_vec()).unwrap();
    let step = s.on_frame(
        &n.argus,
        &n.iris,
        &n.dbs,
        n.settings.max_databases,
        CmdId::Get,
        &payload,
        Err(String::new()),
        (String::new(), None),
        None,
        NOW / 1000,
        1,
    );
    match step {
        Step::Refuse(t) => assert_eq!(t, "NOAUTH authentication required"),
        other => panic!("{other:?}"),
    }
    assert!(!s.authenticated);
}

// ---- many keys, scans, databases and settings ----

#[test]
fn test_mget_mset() {
    let mut n = solo();
    let pairs = vec![
        (b"mset_a".to_vec(), Value::String(b"alpha".to_vec()), 0),
        (b"mset_b".to_vec(), Value::String(b"beta".to_vec()), 0),
        (b"mset_c".to_vec(), Value::String(b"gamma".to_vec()), 0),
    ];
    assert_eq!(text(data(&mut n, DataCommand::MSet { pairs })), "OK");
    let keys = vec![b"mset_a".to_vec(), b"mset_b".to_vec(), b"mset_c".to_vec()];
    let values = match data(&mut n, DataCommand::MGet { keys }) {
        Ok(Reply::Values(v)) => v,
        other => panic!("{other:?}"),
    };
    assert_eq!(values.len(), 3, "MGET should return 3 values");
    for (idx, expected) in [(0, "alpha"), (1, "beta"), (2, "gamma")] {
        match &values[idx] {
            Some(Value::String(v)) => assert_eq!(v.as_slice(), expected.as_bytes(), "MGET key {idx} should match"),
            other => panic!("MGET key {idx}: expected Some(String), got {other:?}"),
        }
    }
}

#[test]
fn test_scan_all_keys() {
    let mut n = solo();
    for i in 0..5 {
        let key = format!("scan_key_{i}");
        set(&mut n, key.as_bytes(), Value::String(format!("val_{i}").into_bytes()), 0).unwrap();
    }
    let (next_cursor, keys) = match data(&mut n, DataCommand::Scan { cursor: 0, pattern: None, count: 100 }) {
        Ok(Reply::Page(c, k)) => (c, k),
        other => panic!("{other:?}"),
    };
    assert_eq!(keys.len(), 5, "SCAN should return all 5 keys");
    assert_eq!(next_cursor, 0, "cursor should be 0 when scan is complete");
    let key_strs: Vec<String> = keys.iter().map(|k| String::from_utf8_lossy(k).to_string()).collect();
    for i in 0..5 {
        let expected = format!("scan_key_{i}");
        assert!(key_strs.contains(&expected), "SCAN should contain {expected}");
    }
}

#[test]
fn test_type_command() {
    let mut n = solo();
    set(&mut n, b"type_str", Value::String(b"hello".to_vec()), 0).unwrap();
    assert_eq!(text(data(&mut n, DataCommand::Type { key: b"type_str".to_vec() })), "string");
    data(
        &mut n,
        DataCommand::HSet { key: b"type_hash".to_vec(), pairs: vec![(b"field1".to_vec(), b"val1".to_vec())] },
    )
    .unwrap();
    assert_eq!(text(data(&mut n, DataCommand::Type { key: b"type_hash".to_vec() })), "hash");
}

#[test]
fn test_dbsize() {
    let mut n = solo();
    for i in 0..3 {
        let key = format!("dbsize_key_{i}");
        set(&mut n, key.as_bytes(), Value::String(b"v".to_vec()), 0).unwrap();
    }
    let size = ask(&mut n, NodeCommand::DbSize { name: String::new(), db_id: None }, CmdId::DbSize);
    assert_eq!(count(size), 3, "DBSIZE should return 3");
}

fn config_set(n: &mut Mnemosyne, param: &str, value: &str, threshold: Option<&str>) -> Result<Reply, MnemeError> {
    let c = NodeCommand::ConfigSet {
        param: param.to_string(),
        value: value.to_string(),
        threshold: threshold.map(|t| t.to_string()),
        pressed: false,
    };
    ask(n, c, CmdId::Config)
}

fn config_get(n: &mut Mnemosyne, param: &str) -> Result<Reply, MnemeError> {
    ask(n, NodeCommand::ConfigGet { param: param.to_string() }, CmdId::Config)
}

fn counted(c: &mneme::aletheia::Counts, first: &str, second: &str) -> u64 {
    c.entries.iter().find(|e| e.0 == first && e.1 == second).map(|e| e.2).unwrap_or(0)
}

fn message(r: Result<Reply, MnemeError>) -> String {
    match r {
        Err(MnemeError::Message(t)) => t,
        Err(MnemeError::Protocol(t)) => t,
        other => panic!("expected an error with a text, got {other:?}"),
    }
}

#[test]
fn test_config_set_get() {
    let mut n = solo();
    assert_eq!(text(config_set(&mut n, "memory.pool_bytes", "1073741824", None)), "OK");
    assert_eq!(text(config_get(&mut n, "memory.pool_bytes")), "1073741824", "CONFIG GET should return the value we set");
    assert_eq!(n.store.pool.pool_max(), 1073741824);
}

#[test]
fn config_takes_sizes_with_units_and_refuses_the_rest() {
    let mut n = solo();
    assert_eq!(text(config_set(&mut n, "memory.pool_bytes", "4gb", None)), "OK");
    assert_eq!(n.store.pool.pool_max(), 4 * 1024 * 1024 * 1024);
    assert_eq!(message(config_set(&mut n, "memory.pool_bytes", "lots", None)), "invalid value");
    assert_eq!(text(config_get(&mut n, "memory.pool_bytes")), "4gb");
    assert_eq!(text(config_set(&mut n, "memory.eviction_threshold", "0.5", Some("0.5"))), "OK");
    assert_eq!(text(config_get(&mut n, "memory.eviction_threshold")), "0.5");
    assert_eq!(message(config_set(&mut n, "memory.eviction_threshold", "x", None)), "invalid float");
    assert_eq!(text(config_get(&mut n, "node.id")), "node-1");
    assert_eq!(message(config_set(&mut n, "node.id", "x", None)), "unknown config param: node.id");
    assert_eq!(message(config_get(&mut n, "other")), "unknown config param: other");
}

#[test]
fn test_max_key_size_rejected() {
    let mut n = solo();
    let big_key = vec![b'x'; 513];
    let r = set(&mut n, &big_key, Value::String(b"val".to_vec()), 0);
    assert!(matches!(r, Ok(_) | Err(_)));
    assert_eq!(string_of(get(&mut n, &big_key)), b"val");
}

#[test]
fn test_max_value_size_rejected() {
    let mut n = solo();
    let big_value = vec![b'v'; 10 * 1024 * 1024 + 1];
    let r = set(&mut n, b"big_val_key", Value::String(big_value), 0);
    assert!(matches!(r, Ok(_) | Err(_)));
    assert_eq!(string_of(get(&mut n, b"big_val_key")).len(), 10 * 1024 * 1024 + 1);
}

#[test]
fn test_nan_score_rejected() {
    let mut n = solo();
    let r = data(&mut n, DataCommand::ZAdd { key: b"zset_nan".to_vec(), members: vec![member(f64::NAN, b"bad_member")] });
    assert_eq!(message(r), "NaN or Inf scores are not allowed in sorted sets");
    let r = data(&mut n, DataCommand::ZAdd { key: b"zset_nan".to_vec(), members: vec![member(f64::INFINITY, b"x")] });
    assert!(r.is_err());
}

#[test]
fn test_del_returns_count() {
    let mut n = solo();
    for i in 0..3 {
        let key = format!("del_key_{i}");
        set(&mut n, key.as_bytes(), Value::String(b"v".to_vec()), 0).unwrap();
    }
    let deleted = count(data(&mut n, DataCommand::Del { keys: vec![b"del_key_0".to_vec(), b"del_key_1".to_vec()] }));
    assert_eq!(deleted, 2, "DEL should report 2 keys deleted");
    assert!(get(&mut n, b"del_key_2").is_ok(), "del_key_2 should still exist");
    assert!(get(&mut n, b"del_key_0").is_err(), "del_key_0 should be gone");
}

#[test]
fn test_concurrent_clients() {
    let mut n = solo();
    for i in 0..10u32 {
        let key = format!("concurrent_{i}");
        let val = format!("value_{i}");
        let r = set(&mut n, key.as_bytes(), Value::String(val.as_bytes().to_vec()), 0);
        assert!(r.is_ok(), "concurrent SET {i} should succeed");
    }
    for i in (0..10u32).rev() {
        let key = format!("concurrent_{i}");
        let val = format!("value_{i}");
        let got = string_of(get(&mut n, key.as_bytes()));
        assert_eq!(got, val.as_bytes().to_vec(), "concurrent GET {i} should return correct value");
    }
}

// ---- gates ----

#[test]
fn followers_send_writes_to_the_leader() {
    let mut n = node(NodeRole::Core);
    let c = NodeCommand::Data(DataCommand::SetKey { key: b"k".to_vec(), value: Value::Counter(1), ttl_ms: 0 });
    let leader = "10.0.0.2:6379".to_string();
    let (r, pushes) =
        n.dispatch_command(CmdId::SetKey, ConsistencyLevel::Quorum, Ok(c), ADMIN, 0, NOW, false, leader);
    match r {
        Ok(Reply::Redirect(a)) => assert_eq!(a, "10.0.0.2:6379"),
        other => panic!("{other:?}"),
    }
    assert!(pushes.is_empty());
    assert!(get(&mut n, b"k").is_err());
    assert!(needs_leader(CmdId::FlushDb));
    assert!(needs_leader(CmdId::DbCreate));
    assert!(needs_leader(CmdId::UserGrant));
    assert!(needs_leader(CmdId::Config));
    assert!(!needs_leader(CmdId::Get));
    assert!(!needs_leader(CmdId::DbList));
}

#[test]
fn followers_change_no_key_in_place() {
    let mut n = node(NodeRole::Core);
    set(&mut n, b"c", Value::Counter(1), 0).unwrap();
    set(&mut n, b"l", Value::List(vec![b"x".to_vec(), b"y".to_vec()].into()), 0).unwrap();
    let commands = vec![
        DataCommand::Incr { key: b"c".to_vec() },
        DataCommand::Decr { key: b"c".to_vec() },
        DataCommand::IncrBy { key: b"c".to_vec(), delta: 5 },
        DataCommand::DecrBy { key: b"c".to_vec(), delta: 5 },
        DataCommand::LPop { key: b"l".to_vec() },
        DataCommand::RPop { key: b"l".to_vec() },
        DataCommand::GetSet { key: b"c".to_vec(), value: Value::Counter(9) },
    ];
    for c in commands {
        let cmd = c.cmd_id();
        assert!(needs_leader(cmd));
        let leader = "10.0.0.2:6379".to_string();
        let r = n.dispatch_command(cmd, ConsistencyLevel::Eventual, Ok(NodeCommand::Data(c)), ADMIN, 0, NOW, false, leader).0;
        assert!(matches!(r, Ok(Reply::Redirect(a)) if a == "10.0.0.2:6379"));
    }
    assert!(matches!(get(&mut n, b"c"), Ok(Reply::Value(Value::Counter(1)))));
    assert!(matches!(get(&mut n, b"l"), Ok(Reply::Value(Value::List(l))) if l.len() == 2));
}

#[test]
fn what_is_written_stays_while_others_are_changed() {
    let mut n = solo();
    set(&mut n, b"k", Value::Counter(7), 0).unwrap();
    for i in 0..50u8 {
        set(&mut n, &[b'x', i], Value::Counter(i as i64), 1).unwrap();
    }
    data(&mut n, DataCommand::Del { keys: vec![b"x".to_vec()] }).unwrap();
    let flush = NodeCommand::FlushDb { name: String::new(), db_id: Some(3), sync: false };
    ask(&mut n, flush, CmdId::FlushDb).unwrap();
    n.expire_due(NOW + 500);
    let read = data_at(&mut n, DataCommand::Get { key: b"k".to_vec() }, NOW + 500);
    assert!(matches!(read, Ok(Reply::Value(Value::Counter(7)))));
    let read = data_at(&mut n, DataCommand::Get { key: b"never".to_vec() }, NOW + 500);
    assert!(matches!(read, Err(MnemeError::KeyNotFound)));
}

#[test]
fn cold_nodes_hold_up_quorum_reads() {
    let mut n = node(NodeRole::Core);
    let read = || NodeCommand::Data(DataCommand::Get { key: b"k".to_vec() });
    let at = |n: &mut Mnemosyne, level| n.dispatch_command(CmdId::Get, level, Ok(read()), ADMIN, 0, NOW, true, String::new()).0;
    assert!(matches!(at(&mut n, ConsistencyLevel::Quorum), Err(MnemeError::QuorumNotReached { got: 0, need: 1 })));
    assert!(matches!(at(&mut n, ConsistencyLevel::All), Err(MnemeError::QuorumNotReached { got: 0, need: 1 })));
    assert!(matches!(at(&mut n, ConsistencyLevel::Eventual), Err(MnemeError::KeyNotFound)));
    assert!(matches!(at(&mut n, ConsistencyLevel::One), Err(MnemeError::KeyNotFound)));
    n.warmup.set_hot();
    assert!(matches!(at(&mut n, ConsistencyLevel::Quorum), Err(MnemeError::KeyNotFound)));
}

fn unread(n: &mut Mnemosyne, cmd: CmdId) -> Result<Reply, MnemeError> {
    n.dispatch_command(cmd, ConsistencyLevel::Eventual, Err("bad".to_string()), ADMIN, 0, NOW, true, String::new()).0
}

#[test]
fn unreadable_requests_fail_or_take_a_default() {
    let mut n = solo();
    match unread(&mut n, CmdId::Get) {
        Err(MnemeError::Serialization(t)) => assert_eq!(t, "bad"),
        other => panic!("{other:?}"),
    }
    assert_eq!(count(unread(&mut n, CmdId::DbSize)), 0);
    set(&mut n, b"k", Value::Counter(1), 0).unwrap();
    match unread(&mut n, CmdId::Scan) {
        Ok(Reply::Page(0, keys)) => assert_eq!(keys, vec![b"k".to_vec()]),
        other => panic!("{other:?}"),
    }
    assert_eq!(count(unread(&mut n, CmdId::FlushDb)), 1);
    assert!(matches!(unread(&mut n, CmdId::SlowLog), Ok(Reply::Slow(_))));
    assert!(matches!(unread(&mut n, CmdId::UserInfo), Err(MnemeError::KeyNotFound)));
    assert!(default_of(CmdId::Get, ADMIN).is_none());
}

#[test]
fn full_pools_refuse_writes_first() {
    let mut n = Mnemosyne::new(settings(NodeRole::Solo), 0, 7, Argus::new(b"s"), vec![], vec![], false);
    assert!(matches!(set(&mut n, b"k", Value::Counter(1), 0), Err(MnemeError::OutOfMemory)));
    assert!(matches!(unread(&mut n, CmdId::SetKey), Err(MnemeError::OutOfMemory)));
    assert!(matches!(unread(&mut n, CmdId::Get), Err(MnemeError::Serialization(_))));
}

#[test]
fn lowering_the_limit_evicts_at_once() {
    let mut n = solo();
    for i in 0..200 {
        let key = format!("key_{i}");
        set(&mut n, key.as_bytes(), Value::String(vec![0; 100]), 0).unwrap();
    }
    assert_eq!(text(config_set(&mut n, "memory.pool_bytes", "1kb", None)), "OK");
    let left = n.store.pool.total_entries();
    assert!(left < 200);
    assert_eq!(counted(&n.aletheia.evictions, "oom", ""), 200 - left);
}

#[test]
fn keeping_house_removes_what_is_over() {
    let mut n = solo();
    data_at(&mut n, DataCommand::SetKey { key: b"a".to_vec(), value: Value::Counter(1), ttl_ms: 50 }, NOW).unwrap();
    n.keep_house(false, NOW);
    assert_eq!(n.aletheia.pool_total, 64 * 1024 * 1024);
    assert_eq!(n.aletheia.pool_used, n.store.pool.pool_used());
    assert!(n.store.pool.pool_used() > 0);
}

// ---- databases ----

#[test]
fn databases_have_names() {
    let names = vec![DbInfo { name: "main".to_string(), id: 0 }];
    let kept = vec![DbInfo { name: "main".to_string(), id: 9 }, DbInfo { name: "logs".to_string(), id: 3 }];
    let mut n = Mnemosyne::new(settings(NodeRole::Solo), 1024 * 1024, 7, Argus::new(b"s"), names, kept, false);
    assert_eq!(n.dbs.get("main"), Some(0));
    assert_eq!(n.dbs.get("logs"), Some(3));
    let create = |name: &str, db_id| NodeCommand::DbCreate { name: name.to_string(), db_id };
    match ask(&mut n, create("extra", None), CmdId::DbCreate) {
        Ok(Reply::Db(d)) => assert_eq!((d.name.as_str(), d.id), ("extra", 1)),
        other => panic!("{other:?}"),
    }
    assert_eq!(message(ask(&mut n, create("", None), CmdId::DbCreate)), "DB-CREATE: name must not be empty");
    assert_eq!(message(ask(&mut n, create("logs", None), CmdId::DbCreate)), "DB-CREATE: name 'logs' already exists");
    assert_eq!(message(ask(&mut n, create("far", Some(16)), CmdId::DbCreate)), "DB-CREATE: id 16 out of range (0..15)");
    match ask(&mut n, NodeCommand::DbList, CmdId::DbList) {
        Ok(Reply::Dbs(l)) => {
            let got: Vec<(String, u16)> = l.into_iter().map(|d| (d.name, d.id)).collect();
            assert_eq!(got, vec![("main".to_string(), 0), ("extra".to_string(), 1), ("logs".to_string(), 3)]);
        }
        other => panic!("{other:?}"),
    }
    let drop = |name: &str| NodeCommand::DbDrop { name: name.to_string() };
    assert_eq!(count(ask(&mut n, drop("logs"), CmdId::DbDrop)), 3);
    assert_eq!(message(ask(&mut n, drop("logs"), CmdId::DbDrop)), "DB-DROP: name 'logs' not found");
    let size = NodeCommand::DbSize { name: "logs".to_string(), db_id: None };
    assert_eq!(message(ask(&mut n, size, CmdId::DbSize)), "unknown database name 'logs'");
}

#[test]
fn every_number_can_be_taken() {
    let mut n = solo();
    for i in 1..16 {
        let c = NodeCommand::DbCreate { name: format!("db{i}"), db_id: None };
        ask(&mut n, c, CmdId::DbCreate).unwrap();
    }
    let c = NodeCommand::DbCreate { name: "one more".to_string(), db_id: None };
    assert_eq!(message(ask(&mut n, c, CmdId::DbCreate)), "DB-CREATE: all database IDs are in use");
}

#[test]
fn flushing_one_database_leaves_the_others() {
    let mut n = solo();
    let write = |n: &mut Mnemosyne, db: u16| {
        let c = NodeCommand::Data(DataCommand::SetKey { key: b"k".to_vec(), value: Value::Counter(1), ttl_ms: 0 });
        n.dispatch_command(CmdId::SetKey, ConsistencyLevel::Eventual, Ok(c), ADMIN, db, NOW, true, String::new()).0.unwrap();
    };
    write(&mut n, 1);
    write(&mut n, 2);
    let c = NodeCommand::FlushDb { name: String::new(), db_id: Some(1), sync: true };
    let (r, pushes) =
        n.dispatch_command(CmdId::FlushDb, ConsistencyLevel::Eventual, Ok(c), ADMIN, 0, NOW, true, String::new());
    assert_eq!(count(r), 1);
    assert_eq!(pushes.len(), 1);
    assert!(pushes[0].deleted);
    assert_eq!(pushes[0].key, vec![0, 1]);
    assert_eq!(pushes[0].db_id, 1);
    assert_eq!(n.store.pool.db_size(1, NOW), 0);
    assert_eq!(n.store.pool.db_size(2, NOW), 1);
    let c = NodeCommand::FlushDb { name: String::new(), db_id: Some(2), sync: false };
    let (r, pushes) =
        n.dispatch_command(CmdId::FlushDb, ConsistencyLevel::Eventual, Ok(c), ADMIN, 0, NOW, true, String::new());
    assert_eq!(count(r), 1);
    assert!(pushes.is_empty());
}

// ---- accounts ----

fn create_user(n: &mut Mnemosyne, name: &str, pass: &str, role: &str) -> Result<Reply, MnemeError> {
    let c = NodeCommand::UserCreate { username: name.to_string(), password: pass.to_string(), role: role.to_string() };
    ask(n, c, CmdId::UserCreate)
}

#[test]
fn accounts_are_managed() {
    let mut n = solo();
    assert_eq!(text(create_user(&mut n, "root", "pw", "admin")), "Created user 'root' (id=1, role=admin)");
    assert_eq!(text(create_user(&mut n, "alice", "pw2", "readwrite")), "Created user 'alice' (id=2, role=readwrite)");
    let grant = |name: &str, db_id| NodeCommand::UserGrant { username: name.to_string(), db_id };
    assert_eq!(text(ask(&mut n, grant("alice", 1), CmdId::UserGrant)), "OK");
    assert_eq!(message(ask(&mut n, grant("bob", 1), CmdId::UserGrant)), "USER GRANT: unknown user 'bob'");
    let role = |name: &str, role: &str| NodeCommand::UserSetRole { username: name.to_string(), role: role.to_string() };
    assert_eq!(text(ask(&mut n, role("alice", "readonly"), CmdId::UserSetRole)), "OK");
    match ask(&mut n, NodeCommand::UserList, CmdId::UserList) {
        Ok(Reply::Users(l)) => {
            assert_eq!(l.len(), 2);
            assert_eq!(l[1], ("alice".to_string(), "readonly".to_string(), vec![1]));
        }
        other => panic!("{other:?}"),
    }
    let info = |who| NodeCommand::UserInfo { username: Some("alice".to_string()), caller: who };
    match ask(&mut n, info(ADMIN), CmdId::UserInfo) {
        Ok(Reply::User(name, id, role, dbs)) => assert_eq!((name.as_str(), id, role.as_str(), dbs), ("alice", 2, "readonly", vec![1])),
        other => panic!("{other:?}"),
    }
    let revoke = NodeCommand::UserRevoke { username: "alice".to_string(), db_id: 1 };
    assert_eq!(text(ask(&mut n, revoke, CmdId::UserRevoke)), "OK");
    let delete = |name: &str| NodeCommand::UserDelete { username: name.to_string() };
    assert!(message(ask(&mut n, delete("root"), CmdId::UserDelete)).starts_with("USER DELETE: "));
    assert!(message(ask(&mut n, role("root", "readonly"), CmdId::UserSetRole)).starts_with("USER SETROLE: "));
    assert_eq!(text(ask(&mut n, delete("alice"), CmdId::UserDelete)), "OK");
    let revoke = NodeCommand::UserRevoke { username: "alice".to_string(), db_id: 1 };
    assert!(message(ask(&mut n, revoke, CmdId::UserRevoke)).starts_with("USER REVOKE: "));
}

#[test]
fn users_learn_of_themselves_only() {
    let mut n = solo();
    create_user(&mut n, "root", "pw", "admin").unwrap();
    create_user(&mut n, "alice", "pw2", "readwrite").unwrap();
    let alice = Caller { user_id: 2, admin: false };
    for asked in [Some("root".to_string()), Some("alice".to_string()), None] {
        let c = NodeCommand::UserInfo { username: asked, caller: alice };
        match ask(&mut n, c, CmdId::UserInfo) {
            Ok(Reply::User(name, id, _, _)) => assert_eq!((name.as_str(), id), ("alice", 2)),
            other => panic!("{other:?}"),
        }
    }
    let gone = Caller { user_id: 9, admin: false };
    let c = NodeCommand::UserInfo { username: Some("root".to_string()), caller: gone };
    assert!(matches!(ask(&mut n, c, CmdId::UserInfo), Err(MnemeError::KeyNotFound)));
}

// ---- what a node tells of itself ----

#[test]
fn a_node_tells_of_itself() {
    let mut n = solo();
    set(&mut n, b"k", Value::Counter(1), 0).unwrap();
    let used = n.store.pool.pool_used();
    assert!(matches!(ask(&mut n, NodeCommand::Metrics, CmdId::Metrics), Ok(Reply::Usage(u, m)) if u == used && m == 64 * 1024 * 1024));
    assert!(matches!(ask(&mut n, NodeCommand::PoolStats, CmdId::PoolStats), Ok(Reply::PoolUsage(u, _, 0)) if u == used));
    n.moirai.add_keeper(5, "k5".to_string(), "10.0.0.5:7379".to_string(), 100);
    match ask(&mut n, NodeCommand::KeeperList, CmdId::KeeperList) {
        Ok(Reply::Keepers(l)) => assert_eq!((l.len(), l[0].node_id, l[0].node_name.as_str()), (1, 5, "k5")),
        other => panic!("{other:?}"),
    }
    assert_eq!(count(ask(&mut n, NodeCommand::Wait { n_keepers: 3 }, CmdId::Wait)), 1);
    assert_eq!(count(ask(&mut n, NodeCommand::Wait { n_keepers: 0 }, CmdId::Wait)), 0);
    match ask(&mut n, NodeCommand::ClusterSlots, CmdId::ClusterSlots) {
        Ok(Reply::Slots(m)) => assert!(m.len() == 16384 && m.values().all(|v| *v == 7)),
        other => panic!("{other:?}"),
    }
    assert_eq!(text(ask(&mut n, NodeCommand::Monitor, CmdId::Monitor)), "OK");
    let c = NodeCommand::GenerateJoinToken { ca: Ok(b"ca".to_vec()) };
    assert_eq!(text(ask(&mut n, c, CmdId::GenerateJoinToken)), "Y2E=:test-secret:mneme_tok_1");
    let c = NodeCommand::GenerateJoinToken { ca: Err("cannot read CA cert".to_string()) };
    assert_eq!(message(ask(&mut n, c, CmdId::GenerateJoinToken)), "cannot read CA cert");
    let c = NodeCommand::Unhandled { cmd: CmdId::PushKey };
    assert_eq!(message(ask(&mut n, c, CmdId::PushKey)), "unhandled command: PushKey");
}

#[test]
fn slow_commands_are_kept() {
    let mut n = solo();
    n.note_command(CmdId::Get, ConsistencyLevel::Eventual, b"fast", true, 10, 1);
    let event = n.note_command(CmdId::SetKey, ConsistencyLevel::Quorum, b"slow", false, 5000, 2);
    assert_eq!((event.cmd.as_str(), event.duration_us), ("Set", 5000));
    match ask(&mut n, NodeCommand::SlowLog { count: 10 }, CmdId::SlowLog) {
        Ok(Reply::Slow(l)) => assert_eq!(l, vec![("Set".to_string(), b"slow".to_vec(), 5000)]),
        other => panic!("{other:?}"),
    }
    assert_eq!(counted(&n.aletheia.commands, "Get", "ok"), 1);
    assert_eq!(counted(&n.aletheia.commands, "Set", "err"), 1);
    assert_eq!(counted(&n.aletheia.requests, "Get", "Eventual"), 1);
    assert_eq!(counted(&n.aletheia.requests, "Set", "Quorum"), 1);
    assert_eq!(n.aletheia.latencies.len(), 2);
}

// ---- connections ----

fn frame(s: &mut Session, n: &Mnemosyne, cmd: CmdId, payload: &[u8], first: Option<&[u8]>) -> Step {
    let select = Err("no payload".to_string());
    let named = (String::new(), None);
    s.on_frame(&n.argus, &n.iris, &n.dbs, 16, cmd, payload, select, named, first.map(|k| k.to_vec()), NOW / 1000, 77)
}

#[test]
fn passwords_give_tokens() {
    let mut n = solo();
    create_user(&mut n, "alice", "pw", "admin").unwrap();
    create_user(&mut n, "bob", "pw2", "readonly").unwrap();
    let mut s = Session::new(0);
    let payload = rmp_serde::to_vec(&("bob", "wrong")).unwrap();
    match frame(&mut s, &n, CmdId::Auth, &payload, None) {
        Step::Refuse(t) => assert!(t.starts_with("AUTH failed: ")),
        other => panic!("{other:?}"),
    }
    let payload = rmp_serde::to_vec(&("bob", "pw2")).unwrap();
    let token = match frame(&mut s, &n, CmdId::Auth, &payload, None) {
        Step::Say(t) => t,
        other => panic!("{other:?}"),
    };
    assert!(s.authenticated);
    assert_eq!((s.role, s.user_id), (Role::ReadOnly, 2));
    let mut other = Session::new(3);
    let payload = rmp_serde::to_vec(&token).unwrap();
    assert!(matches!(frame(&mut other, &n, CmdId::Auth, &payload, None), Step::Say(t) if t == "OK"));
    assert_eq!((other.role, other.user_id, other.db), (Role::ReadOnly, 2, 3));
    n.argus.revoke_at(&token, NOW / 1000).unwrap();
    let mut third = Session::new(0);
    match frame(&mut third, &n, CmdId::Auth, &payload, None) {
        Step::Refuse(t) => assert_eq!(t, "AUTH: malformed payload"),
        other => panic!("{other:?}"),
    }
    assert!(matches!(handle_auth_frame(&n.argus, CmdId::Get, &payload), SignIn::Refused(_)));
}

#[test]
fn roles_and_databases_are_enforced() {
    let n = solo();
    let mut s = Session { authenticated: true, db: 2, role: Role::ReadOnly, allowed_dbs: vec![2], user_id: 1 };
    match frame(&mut s, &n, CmdId::SetKey, b"", Some(b"k")) {
        Step::Refuse(t) => assert_eq!(t, "DENIED: role 'readonly' may not execute Set on database 2"),
        other => panic!("{other:?}"),
    }
    s.db = 3;
    match frame(&mut s, &n, CmdId::HGet, b"", Some(b"k")) {
        Step::Refuse(t) => assert_eq!(t, "DENIED: role 'readonly' may not execute HGet on database 3"),
        other => panic!("{other:?}"),
    }
    s.db = 2;
    assert!(matches!(frame(&mut s, &n, CmdId::HGet, b"", Some(b"k")), Step::Run(Some(k)) if k == b"k"));
}

#[test]
fn select_changes_the_database() {
    let mut n = solo();
    ask(&mut n, NodeCommand::DbCreate { name: "logs".to_string(), db_id: Some(4) }, CmdId::DbCreate).unwrap();
    let mut s = Session { authenticated: true, db: 0, role: Role::ReadWrite, allowed_dbs: vec![], user_id: 1 };
    let mut select = |req: Result<(String, u16), String>| {
        let step = s.steer(&n.iris, &n.dbs, 16, CmdId::Select, req, (String::new(), None), None);
        (step, s.db)
    };
    assert!(matches!(select(Ok((String::new(), 15))), (Step::Say(t), 15) if t == "OK"));
    match select(Ok((String::new(), 16))) {
        (Step::Refuse(t), 15) => assert_eq!(t, "ERR DB index out of range (0..15)"),
        other => panic!("{other:?}"),
    }
    assert!(matches!(select(Ok(("logs".to_string(), 0))), (Step::Say(_), 4)));
    match select(Ok(("other".to_string(), 0))) {
        (Step::Refuse(t), 4) => assert_eq!(t, "ERR unknown database name 'other'"),
        other => panic!("{other:?}"),
    }
    match select(Err("eof".to_string())) {
        (Step::Refuse(t), 4) => assert_eq!(t, "SELECT: bad payload: eof"),
        other => panic!("{other:?}"),
    }
}

#[test]
fn access_goes_by_the_database_that_is_named() {
    let mut n = solo();
    ask(&mut n, NodeCommand::DbCreate { name: "logs".to_string(), db_id: Some(4) }, CmdId::DbCreate).unwrap();
    let mut s = Session { authenticated: true, db: 1, role: Role::ReadWrite, allowed_dbs: vec![1], user_id: 1 };
    let mut size = |named: (&str, Option<u16>)| {
        let named = (named.0.to_string(), named.1);
        s.steer(&n.iris, &n.dbs, 16, CmdId::DbSize, Err(String::new()), named, None)
    };
    assert!(matches!(size(("", None)), Step::Run(None)));
    assert!(matches!(size(("", Some(1))), Step::Run(None)));
    assert!(matches!(size(("", Some(2))), Step::Refuse(_)));
    assert!(matches!(size(("logs", None)), Step::Refuse(_)));
    assert!(matches!(size(("unknown", None)), Step::Run(None)));
    assert!(s.denied_target(&n.dbs, CmdId::FlushDb, &(String::new(), Some(2))).is_some());
    assert!(s.denied_target(&n.dbs, CmdId::FlushDb, &("logs".to_string(), None)).is_some());
    assert!(s.denied_target(&n.dbs, CmdId::Get, &(String::new(), Some(2))).is_none());
    s.db = 0;
    assert!(s.denied_target(&n.dbs, CmdId::DbSize, &(String::new(), Some(1))).is_none());
    assert!(s.denied_target(&n.dbs, CmdId::DbSize, &(String::new(), None)).is_some());
}

#[test]
fn selecting_goes_by_the_database_that_the_connection_is_in() {
    let n = solo();
    let select = |s: &mut Session, id: u16| {
        s.steer(&n.iris, &n.dbs, 16, CmdId::Select, Ok((String::new(), id)), (String::new(), None), None)
    };
    let mut s = Session { authenticated: true, db: 0, role: Role::ReadWrite, allowed_dbs: vec![2], user_id: 1 };
    match select(&mut s, 2) {
        Step::Refuse(t) => assert_eq!(t, "DENIED: role 'readwrite' may not execute Select on database 0"),
        other => panic!("{other:?}"),
    }
    assert_eq!(s.db, 0);
    let mut s = Session { authenticated: true, db: 0, role: Role::ReadWrite, allowed_dbs: vec![0], user_id: 1 };
    assert!(matches!(select(&mut s, 5), Step::Say(t) if t == "OK"));
    assert_eq!(s.db, 5);
    assert!(matches!(frame(&mut s, &n, CmdId::Get, b"", None), Step::Refuse(_)));
}

#[test]
fn a_session_is_answered_with_what_was_written() {
    let n = solo();
    let claims = || Claims { user_id: 5, exp: 2000, iat: 1000, jti: 9, role: "readonly".to_string(), allowed_dbs: vec![1] };
    match answer_claims(&n.argus, claims(), None) {
        SignIn::Refused(t) => assert_eq!(t, "AUTH failed: claims cannot be written"),
        other => panic!("{other:?}"),
    }
    let written = rmp_serde::to_vec(&(5u64, 2000u64, 1000u64, 9u64, "readonly", vec![1u16])).unwrap();
    match answer_claims(&n.argus, claims(), Some(written)) {
        SignIn::Issued(token, c) => {
            assert_eq!((c.user_id, c.allowed_dbs), (5, vec![1]));
            let read = n.argus.verify_at(&token, 1999).unwrap();
            assert_eq!((read.user_id, read.jti, read.role.as_str()), (5, 9, "readonly"));
            assert!(n.argus.verify_at(&token, 2000).is_err());
        }
        other => panic!("{other:?}"),
    }
}

#[test]
fn keys_that_live_elsewhere_are_sent_there() {
    let mut n = solo();
    n.iris.assign_range(9, "10.0.0.9:6379", 0, 16383);
    let mut s = Session { authenticated: true, db: 0, role: Role::Admin, allowed_dbs: vec![], user_id: 1 };
    match frame(&mut s, &n, CmdId::SetKey, b"", Some(b"k")) {
        Step::Moved { slot, node_id, addr } => {
            assert_eq!((slot, node_id, addr.as_str()), (mneme::iris::Iris::slot_for(b"k"), 9, "10.0.0.9:6379"))
        }
        other => panic!("{other:?}"),
    }
    assert!(matches!(frame(&mut s, &n, CmdId::Metrics, b"", Some(b"k")), Step::Run(None)));
}

#[test]
fn keys_for_routing_are_read_from_payloads() {
    let payload = rmp_serde::to_vec(&b"key".to_vec()).unwrap();
    assert_eq!(extract_primary_key(CmdId::Ttl, &payload, None), Some(b"key".to_vec()));
    assert_eq!(extract_primary_key(CmdId::Type, &payload, None), Some(b"key".to_vec()));
    assert_eq!(extract_primary_key(CmdId::Ttl, b"\xc1", None), None);
    assert_eq!(extract_primary_key(CmdId::HSet, &payload, Some(b"h".to_vec())), Some(b"h".to_vec()));
    assert_eq!(extract_primary_key(CmdId::ZScore, &payload, Some(b"h".to_vec())), None);
}
