//! The pool, the store and what is laid out in bytes.

use mneme::aletheia::Aletheia;
use mneme::cluster_info::{cluster_info, stats_line, Figures, RaftFacts};
use mneme::codec::{get_le, put_le};
use mneme::data::{normalize_idx, score_is_finite, score_leq_exec};
use mneme::delphi::{Delphi, RingBuf};
use mneme::frame::{decode_frame, encode_frame, FrameError, FrameHead, MAGIC};
use mneme::json::{append_to_array, can_append, FloatOperand};
use mneme::lethe::{FastRand, Lethe};
use mneme::num::{parse_i64, parse_u64};
use mneme::pattern::matches_pattern;
use mneme::pool::{make_db_key, EvictionReason, Pool};
use mneme::proto::{complete_frame, consistency, too_large, CmdId, ConsistencyLevel};
use mneme::reply::Reply;
use mneme::settings::{parse_size, NodeRole, Settings};
use mneme::store::Store;
use mneme::text::{hex_of_bytes, hex_text, strip_prefix, trim, u64_text};
use mneme::value::{Entry, MnemeError, Value, ZSetMember};

const NOW: u64 = 1_700_000_000_000;

fn store() -> Store {
    Store::new(1024 * 1024)
}

fn text(b: &[u8]) -> Value {
    Value::String(b.to_vec())
}

// ---- pool ----

#[test]
fn databases_do_not_meet() {
    let mut s = store();
    s.set(1, b"k", text(b"one"), 0, NOW).0.unwrap();
    s.set(256, b"k", text(b"two"), 0, NOW).0.unwrap();
    assert!(matches!(s.get(1, b"k", NOW), Ok(Reply::Value(Value::String(v))) if v == b"one"));
    assert!(matches!(s.get(256, b"k", NOW), Ok(Reply::Value(Value::String(v))) if v == b"two"));
    assert!(s.get(2, b"k", NOW).is_err());
    assert_eq!(make_db_key(258, b"k"), vec![1, 2, b'k']);
}

#[test]
fn bytes_are_accounted() {
    let mut s = store();
    assert_eq!(s.pool.pool_used(), 0);
    s.set(0, b"k", text(b"0123456789"), 0, NOW).0.unwrap();
    let one = s.pool.pool_used();
    assert!(one > 0);
    assert_eq!(s.pool.memory_usage_of(&make_db_key(0, b"k"), NOW), Some(one));
    s.set(0, b"k", text(b"0123456789"), 0, NOW).0.unwrap();
    assert_eq!(s.pool.pool_used(), one);
    assert!(matches!(s.del(0, &vec![b"k".to_vec(), b"k".to_vec()]).0, Ok(Reply::Count(1))));
    assert_eq!(s.pool.pool_used(), 0);
}

#[test]
fn bytes_follow_changes_in_place() {
    let mut s = store();
    s.set(0, b"k", text(b"0123456789"), 0, NOW).0.unwrap();
    let one = s.pool.pool_used();
    s.push_list(0, b"l", &vec![vec![7; 100]], true, NOW).unwrap();
    let two = s.pool.pool_used();
    s.push_list(0, b"l", &vec![vec![7; 100], vec![8; 100]], true, NOW).unwrap();
    assert!(s.pool.pool_used() >= two + 200);
    let both = |s: &Store| {
        let of = |k: &[u8]| s.pool.memory_usage_of(&make_db_key(0, k), NOW).unwrap_or(0);
        of(b"k") + of(b"l")
    };
    assert_eq!(s.pool.pool_used(), both(&s));
    s.pop_list(0, b"l", false, NOW).unwrap();
    assert_eq!(s.pool.pool_used(), both(&s));
    s.hset(0, b"h", vec![(b"f".to_vec(), vec![1; 50])], NOW).unwrap();
    s.del(0, &vec![b"h".to_vec(), b"l".to_vec()]).0.unwrap();
    assert_eq!(s.pool.pool_used(), one);
}

#[test]
fn wheels_tell_databases_apart() {
    let mut s = store();
    let inner = [0u8, 0, b'k'];
    s.set(0, b"k", text(b"stays"), 0, NOW).0.unwrap();
    s.set(5, &inner, text(b"goes"), 30, NOW).0.unwrap();
    assert_eq!(s.expire_due(NOW + 1000), 1);
    assert!(s.get(0, b"k", NOW + 1000).is_ok());
    assert!(s.get(5, &inner, NOW + 1000).is_err());
    assert_eq!(s.pool.total_entries(), 1);
}

#[test]
fn a_key_that_was_set_anew_outlives_its_first_time() {
    let mut s = store();
    s.set(0, b"k", text(b"old"), 30, NOW).0.unwrap();
    s.set(0, b"k", text(b"new"), 0, NOW + 1).0.unwrap();
    assert_eq!(s.expire_due(NOW + 1000), 0);
    assert!(matches!(s.get(0, b"k", NOW + 1000), Ok(Reply::Value(Value::String(v))) if v == b"new"));
}

#[test]
fn every_shard_is_looked_at_for_candidates() {
    let mut p = Pool::new(1);
    for i in 0..3u8 {
        p.set(vec![0, 0, i], Entry::new(text(b"v"), 0));
    }
    assert_eq!(p.lfu_candidates(64, NOW).len(), 3);
    let mut over = Entry::new(text(b"v"), 0);
    over.expires_at_ms = NOW;
    p.set(vec![0, 0, 9], over);
    assert_eq!(p.lfu_candidates(64, NOW).len(), 3);
}

#[test]
fn the_least_used_go_first() {
    let mut p = Pool::new(1);
    for i in 0..100u8 {
        let mut e = Entry::new(text(b"v"), 0);
        e.lfu_counter = i;
        p.set(vec![0, 0, i], e);
    }
    assert!(p.is_full());
    let (reason, gone) = p.relieve(false, NOW).unwrap();
    assert!(matches!(reason, EvictionReason::Oom));
    assert_eq!(gone.len(), 64);
    assert!(p.relieve(false, NOW).is_some());
    let mut roomy = Pool::new(1 << 40);
    roomy.set(vec![0, 0, 1], Entry::new(text(b"v"), 0));
    assert!(roomy.relieve(false, NOW).is_none());
    let (reason, gone) = roomy.relieve(true, NOW).unwrap();
    assert!(matches!(reason, EvictionReason::Lfu));
    assert_eq!(gone, vec![vec![0, 0, 1]]);
}

#[test]
fn expired_entries_are_not_seen() {
    let mut s = store();
    s.set(0, b"k", text(b"v"), 100, NOW).0.unwrap();
    assert!(s.get(0, b"k", NOW + 99).is_ok());
    assert!(s.get(0, b"k", NOW + 100).is_err());
    assert_eq!(s.pool.db_size(0, NOW + 100), 0);
}

#[test]
fn due_keys_are_removed_by_the_wheels() {
    let mut s = Store::new(1 << 20);
    s.apply(mneme::proto::PushKeyPayload::write(make_db_key(0, b"k"), text(b"v"), 30, 0, 0), NOW);
    assert_eq!(s.pool.total_entries(), 1);
    assert!(s.lethe.can_tick(NOW + 1000));
    assert_eq!(s.expire_due(NOW + 1000), 1);
    assert_eq!(s.pool.total_entries(), 0);
    assert_eq!(s.pool.pool_used(), 0);
}

#[test]
fn what_was_kept_is_restored() {
    let mut s = store();
    let rows = vec![
        (make_db_key(0, b"a"), text(b"1"), 0, 1),
        (make_db_key(0, b"b"), text(b"2"), NOW + 1, 2),
        (make_db_key(0, b"c"), text(b"3"), NOW, 3),
    ];
    assert_eq!(s.restore(rows, NOW), (2, 1));
    assert!(s.get(0, b"a", NOW).is_ok());
    assert!(s.get(0, b"c", NOW).is_err());
}

// ---- commands on keys ----

#[test]
fn expiry_can_be_set_later() {
    let mut s = store();
    s.set(0, b"k", text(b"v"), 0, NOW).0.unwrap();
    assert!(matches!(s.ttl(0, b"k", NOW), Reply::Number(-1)));
    assert!(matches!(s.ttl(0, b"other", NOW), Reply::Number(-2)));
    let (r, pushes) = s.expire(0, b"k", 10, NOW);
    assert!(r.is_ok());
    assert_eq!((pushes.len(), pushes[0].ttl_ms), (1, 10_000));
    assert!(matches!(s.ttl(0, b"k", NOW + 500), Reply::Number(9)));
    assert!(s.get(0, b"k", NOW + 10_000).is_err());
}

#[test]
fn getset_gives_the_old_value() {
    let mut s = store();
    assert!(matches!(s.getset(0, b"k", text(b"a"), NOW), Ok(Reply::NoValue)));
    assert!(matches!(s.getset(0, b"k", text(b"b"), NOW), Ok(Reply::Value(Value::String(v))) if v == b"a"));
}

#[test]
fn counters_go_up_and_down() {
    let mut s = store();
    assert!(matches!(s.counter_op(0, b"n", 5, NOW), Ok(Reply::Number(5))));
    assert!(matches!(s.counter_op(0, b"n", -5, NOW), Ok(Reply::Number(0))));
    s.set(0, b"t", text(b"41"), 0, NOW).0.unwrap();
    assert!(matches!(s.counter_op(0, b"t", 1, NOW), Ok(Reply::Number(42))));
    s.set(0, b"x", text(b"word"), 0, NOW).0.unwrap();
    assert!(s.counter_op(0, b"x", 1, NOW).is_err());
}

#[test]
fn lists_give_back_what_was_pushed() {
    let mut s = store();
    s.push_list(0, b"l", &vec![b"a".to_vec()], false, NOW).unwrap();
    s.push_list(0, b"l", &vec![b"z".to_vec()], true, NOW).unwrap();
    assert!(matches!(s.pop_list(0, b"l", true, NOW), Ok(Reply::Bytes(b)) if b == b"z"));
    assert!(matches!(s.lrange(0, b"l", -5, 5, NOW), Ok(Reply::BytesList(l)) if l == vec![b"a".to_vec()]));
    assert!(matches!(s.lrange(0, b"l", 1, 0, NOW), Ok(Reply::BytesList(l)) if l.is_empty()));
    assert_eq!(normalize_idx(-1, 3), 2);
}

#[test]
fn sorted_sets_order_by_score() {
    let mut s = store();
    let m = |score: f64, name: &[u8]| ZSetMember { score: score.to_bits(), member: name.to_vec() };
    s.zadd(0, b"z", vec![m(2.0, b"b"), m(-1.0, b"a"), m(0.5, b"c")], NOW).unwrap();
    match s.zrange(0, b"z", 0, -1, true, NOW) {
        Ok(Reply::Scored(l)) => {
            let got: Vec<(Vec<u8>, f64)> = l.into_iter().map(|(n, b)| (n, f64::from_bits(b))).collect();
            assert_eq!(got, vec![(b"a".to_vec(), -1.0), (b"c".to_vec(), 0.5), (b"b".to_vec(), 2.0)]);
        }
        other => panic!("{other:?}"),
    }
    match s.zrangebyscore(0, b"z", 0.0f64.to_bits(), 2.0f64.to_bits(), NOW) {
        Ok(Reply::BytesList(l)) => assert_eq!(l, vec![b"c".to_vec(), b"b".to_vec()]),
        other => panic!("{other:?}"),
    }
    assert!(matches!(s.zscore(0, b"z", b"c", NOW), Ok(Reply::Score(b)) if f64::from_bits(b) == 0.5));
    assert!(score_is_finite(1.0f64.to_bits()) && !score_is_finite(f64::NAN.to_bits()));
    assert!(score_leq_exec((-0.0f64).to_bits(), 0.0f64.to_bits()) && score_leq_exec(0.0f64.to_bits(), (-0.0f64).to_bits()));
    assert!(!score_leq_exec(f64::NAN.to_bits(), 0.0f64.to_bits()));
}

#[test]
fn scans_go_page_by_page() {
    let mut s = store();
    for i in 0..5 {
        s.set(0, format!("user:{i}").as_bytes(), text(b"v"), 0, NOW).0.unwrap();
        s.set(0, format!("item:{i}").as_bytes(), text(b"v"), 0, NOW).0.unwrap();
    }
    let mut seen = Vec::new();
    let mut cursor = 0;
    loop {
        match s.scan(0, cursor, Some("user:*".to_string()), 2, NOW) {
            Reply::Page(next, keys) => {
                seen.extend(keys);
                cursor = next;
            }
            other => panic!("{other:?}"),
        }
        if cursor == 0 {
            break;
        }
    }
    let expected: Vec<Vec<u8>> = (0..5).map(|i| format!("user:{i}").into_bytes()).collect();
    assert_eq!(seen, expected);
}

#[test]
fn patterns_match() {
    assert!(matches_pattern(b"anything", None));
    assert!(matches_pattern(b"anything", Some("*")));
    assert!(matches_pattern(b"user:1", Some("user:*")));
    assert!(matches_pattern(b"a.log", Some("*.log")));
    assert!(matches_pattern(b"xabcx", Some("*abc*")));
    assert!(matches_pattern(b"exact", Some("exact")));
    assert!(!matches_pattern(b"exact!", Some("exact")));
    assert!(!matches_pattern(b"\xff\xfe", Some("exact")));
}

#[test]
fn values_are_appended_to_arrays() {
    assert_eq!(append_to_array("[1]", "2").unwrap(), "[1,2]");
    assert_eq!(append_to_array("[]", "2").unwrap(), "[2]");
    assert!(append_to_array("{}", "2").is_err());
}

#[test]
fn wrong_types_are_named() {
    let mut s = store();
    s.set(0, b"k", Value::Counter(1), 0, NOW).0.unwrap();
    match s.lrange(0, b"k", 0, -1, NOW) {
        Err(MnemeError::WrongType { expected, got }) => assert_eq!((expected, got), ("list", "counter")),
        other => panic!("{other:?}"),
    }
}

// ---- bytes and text ----

#[test]
fn frames_are_complete_when_all_bytes_are_there() {
    let mut b = vec![0u8; 16];
    b[8..12].copy_from_slice(&3u32.to_be_bytes());
    assert_eq!(complete_frame(&b), None);
    b.extend([1, 2, 3, 4]);
    assert_eq!(complete_frame(&b), Some(19));
    assert_eq!(complete_frame(&b[..10]), None);
    assert!(!too_large(64 * 1024 * 1024 + 16));
    assert!(too_large(64 * 1024 * 1024 + 17));
}

#[test]
fn flags_hold_the_level() {
    assert_eq!(consistency(0b0000), ConsistencyLevel::Eventual);
    assert_eq!(consistency(0b0100), ConsistencyLevel::Quorum);
    assert_eq!(consistency(0b1000), ConsistencyLevel::All);
    assert_eq!(consistency(0b1100), ConsistencyLevel::One);
    assert_eq!((CmdId::SetKey.name(), CmdId::Get.name()), ("Set", "Get"));
}

#[test]
fn numbers_are_laid_out_little_end_first() {
    let mut b = Vec::new();
    put_le(&mut b, 0x0102_0304, 4);
    assert_eq!(b, vec![4, 3, 2, 1]);
    assert_eq!(get_le(&b, 0, 4), 0x0102_0304);
}

#[test]
fn words_are_taken_apart() {
    assert_eq!(parse_u64(b"+18446744073709551615"), Some(u64::MAX));
    assert_eq!(parse_u64(b"18446744073709551616"), None);
    assert_eq!(parse_i64(b"-9223372036854775808"), Some(i64::MIN));
    assert_eq!(parse_i64(b""), None);
    assert_eq!(trim("\u{a0} a b\t"), "a b");
    assert_eq!(u64_text(0), "0");
    assert_eq!(hex_text(255, 4), "00ff");
    assert_eq!(hex_of_bytes(&[1, 0xab]), "01ab");
    assert_eq!(strip_prefix("abc", "ab"), Some("c"));
    assert_eq!(strip_prefix("abc", "b"), None);
}

#[test]
fn sizes_have_units() {
    assert_eq!(parse_size("1024"), Some(1024));
    assert_eq!(parse_size("64kb"), Some(65536));
    assert_eq!(parse_size("512MB"), Some(512 * 1024 * 1024));
    assert_eq!(parse_size("4gb"), Some(4 * 1024 * 1024 * 1024));
    assert_eq!(parse_size("99999999999gb"), None);
    assert_eq!(parse_size("x"), None);
    assert_eq!(NodeRole::named("solo"), Some(NodeRole::Solo));
    assert_eq!(NodeRole::named("king"), None);
}

// ---- what is told ----

#[test]
fn clusters_describe_themselves() {
    let s = Settings {
        node_id: "n1".to_string(),
        role: NodeRole::Core,
        pool_bytes: "1gb".to_string(),
        eviction_threshold: "0.9".to_string(),
        port: 6379,
        rep_port: 7379,
        max_databases: 16,
        default_database: 0,
        cluster_secret: String::new(),
        join_token: String::new(),
    };
    let mut f = Figures { keepers: 2, used: 5, limit: 10, keys: 1, hot: false, pending: 2 };
    let raft = RaftFacts { term: 3, is_leader: true, leader: Some(255) };
    let find = |f: &Figures, name: &str| {
        cluster_info(&s, f, &raft, "50.0%").into_iter().find(|p| p.0 == name).map(|p| p.1).unwrap()
    };
    assert_eq!(find(&f, "warmup_state"), "warming (2 keepers pending)");
    assert!(find(&f, "supported_modes").starts_with("EVENTUAL, ONE  (QUORUM/ALL blocked"));
    assert_eq!(find(&f, "leader_id"), "00000000000000ff");
    assert_eq!(find(&f, "is_leader"), "true");
    f.hot = true;
    assert_eq!(find(&f, "supported_modes"), "EVENTUAL, ONE, QUORUM, ALL");
    f.keepers = 1;
    assert_eq!(find(&f, "supported_modes"), "EVENTUAL, ONE, QUORUM");
    f.keepers = 0;
    assert_eq!(find(&f, "supported_modes"), "EVENTUAL");
    assert_eq!(find(&f, "warmup_state"), "hot");
    assert_eq!(stats_line(&f, "0.5"), "keys=1 pool_used=5 pool_max=10 keepers=0 pool_ratio=0.5");
}

#[test]
fn slow_commands_come_newest_first() {
    let mut d = Delphi::new(100, 2);
    d.record("a", b"", 99, 1);
    for (i, cmd) in ["b", "c", "d"].iter().enumerate() {
        d.record(cmd, b"k", 100, i as u64);
    }
    let cmds: Vec<String> = d.get_slowlog(10).into_iter().map(|e| e.cmd).collect();
    assert_eq!(cmds, vec!["d", "c"]);
    assert_eq!(d.get_slowlog(1).len(), 1);
    d.reset_slowlog();
    assert!(d.get_slowlog(10).is_empty());
}

#[test]
fn metrics_add_up() {
    let mut a = Aletheia::new(true);
    a.record_cmd("get", "ok", 51);
    a.record_cmd("get", "ok", 50_000);
    assert_eq!(a.commands.entries, vec![("get".to_string(), "ok".to_string(), 2)]);
    assert_eq!((a.latencies[0].buckets[1], a.latencies[0].buckets[7], a.latencies[0].sum_us), (1, 1, 50_051));
    a.set_pool_usage(5, 0);
    assert_eq!((a.pool_used, a.pool_pressure), (5, (0, 1)));
    a.set_pool_usage(5, 10);
    assert_eq!(a.pool_pressure, (5, 10));
    a.sample_hw_counters(Some((1, 2, 3)));
    a.sample_hw_counters(None);
    assert_eq!(a.hw_counters, (1, 2, 3));
    a.record_wal_write(10);
    a.record_wal_write(5);
    assert_eq!(a.wal_bytes, 15);
}

#[test]
fn chance_is_reproducible() {
    let mut a = FastRand::new();
    let mut b = FastRand::new();
    assert_eq!(a.fast_rand_u64(), b.fast_rand_u64());
    assert_eq!(Lethe::decay_lfu(5), 4);
}

// ---- frames ----

#[test]
fn frame_is_read_back_as_it_was_written() {
    let head = FrameHead { version: 1, cmd: 2, flags: 0x0304, req_id: 0x0506_0708 };
    let bytes = encode_frame(head, b"hi");
    assert_eq!(
        bytes,
        vec![0x4d, 0x4e, 0x45, 0x4d, 1, 2, 3, 4, 0, 0, 0, 2, 5, 6, 7, 8, b'h', b'i']
    );
    assert_eq!(&bytes[..4], &MAGIC.to_be_bytes());
    let mut more = bytes.clone();
    more.extend_from_slice(b"next frame");
    let (h, payload, n) = decode_frame(&more).unwrap();
    assert_eq!(h, head);
    assert_eq!(payload, b"hi");
    assert_eq!(n, bytes.len());
}

#[test]
fn frame_that_is_cut_short_is_incomplete() {
    let bytes = encode_frame(FrameHead { version: 1, cmd: 9, flags: 0, req_id: 0 }, b"payload");
    for n in 0..bytes.len() {
        assert_eq!(decode_frame(&bytes[..n]).unwrap_err(), FrameError::Incomplete);
    }
    assert!(decode_frame(&bytes).is_ok());
}

#[test]
fn frame_with_another_magic_is_refused() {
    let mut bytes = encode_frame(FrameHead { version: 1, cmd: 9, flags: 0, req_id: 0 }, b"");
    bytes[0] = 0;
    assert_eq!(decode_frame(&bytes).unwrap_err(), FrameError::BadMagic);
}

// ---- figures ----

#[test]
fn figures_are_kept_as_they_are_set() {
    let mut a = Aletheia::new(false);
    a.set_conn_idle(3);
    a.set_in_flight(4);
    a.set_keeper_connections(2);
    a.set_cluster_term(9);
    a.set_is_leader(true);
    a.set_live_nodes(5);
    assert_eq!((a.conn_idle, a.in_flight, a.keeper_connections), (3, 4, 2));
    assert_eq!((a.cluster_term, a.is_leader, a.live_nodes), (9, true, 5));
    a.set_is_leader(false);
    assert!(!a.is_leader);
}

#[test]
fn events_are_counted_one_by_one() {
    let mut a = Aletheia::new(false);
    a.record_cold_fetch();
    a.record_cold_fetch();
    a.record_wal_rotation();
    a.record_election();
    a.record_slot_migration();
    a.record_replication_frame("k1");
    a.record_replication_frame("k1");
    a.record_replication_frame("k2");
    a.record_replication_error("k2");
    assert_eq!((a.cold_fetches, a.wal_rotations, a.elections, a.slot_migrations), (2, 1, 1, 1));
    let frames: Vec<(&str, u64)> = a.replication_frames.entries.iter().map(|e| (e.0.as_str(), e.2)).collect();
    assert_eq!(frames, vec![("k1", 2), ("k2", 1)]);
    assert_eq!(a.replication_errors.entries.len(), 1);
}

// ---- numbers and arrays from outside ----

#[test]
fn operands_of_float_sums_are_found() {
    let mut s = store();
    assert!(matches!(s.float_operand(0, b"k", NOW), FloatOperand::Missing));
    let _ = s.set(0, b"k", Value::Counter(4), 0, NOW);
    assert!(matches!(s.float_operand(0, b"k", NOW), FloatOperand::Counter(4)));
    let _ = s.set(0, b"k", text(b"1.5"), 0, NOW);
    assert!(matches!(s.float_operand(0, b"k", NOW), FloatOperand::Text(t) if t == b"1.5"));
    let _ = s.push_list(0, b"l", &vec![b"x".to_vec()], true, NOW);
    assert!(matches!(s.float_operand(0, b"l", NOW), FloatOperand::Other));
}

#[test]
fn only_a_lone_bracket_cannot_be_appended_to() {
    assert!(can_append("[]") && can_append("[1]") && can_append("{}") && can_append(""));
    assert!(!can_append("["));
}

#[test]
fn the_slow_log_keeps_the_newest() {
    let mut d = Delphi::new(100, 3);
    for i in 0..10u64 {
        d.record("GET", b"k", 100 + i, i);
    }
    let seen = |d: &Delphi, n: usize| d.get_slowlog(n).iter().map(|e| e.duration_us).collect::<Vec<u64>>();
    assert_eq!(seen(&d, 10), vec![109, 108, 107]);
    assert_eq!(seen(&d, 2), vec![109, 108]);
    d.reset_slowlog();
    assert!(seen(&d, 10).is_empty());
    d.record("GET", b"k", 500, 1);
    assert_eq!(seen(&d, 10), vec![500]);
}

#[test]
fn a_ring_gives_the_newest_first() {
    let mut r: RingBuf<u64> = RingBuf::new(3);
    assert!(r.recent(5).is_empty());
    for x in 1..=7 {
        r.push(x);
    }
    assert_eq!(r.recent(5), vec![7, 6, 5]);
    assert_eq!(r.recent(2), vec![7, 6]);
    r.clear();
    r.push(9);
    assert_eq!(r.recent(5), vec![9]);
    let mut one: RingBuf<u64> = RingBuf::new(0);
    one.push(1);
    one.push(2);
    assert_eq!(one.recent(5), vec![2]);
}
