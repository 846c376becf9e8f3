//! Warm-up, keepers, replicas and the log that cores agree on.

use mneme::aegis::{has_client_cert, needs_generation, san_list, San, SanKind};
use mneme::hermes::{read_ack, AckPayload};
use mneme::hypnos::{
    advance_seq, hand_over, keeper_action, keeper_frame, recovered_rows, snapshot_entries, unexpected_frame, KeeperAction,
    KeeperFrame,
};
use mneme::keeper_link::{
    keeper_addr, keeper_name, link_frame, opening, replay_all, replica_frame, Completion, HeartbeatPayload, KeeperLink,
    LinkFrame, Opening, SyncStartPayload, REGISTER_FLAGS,
};
use mneme::keeper_session::{Attempts, KeeperIdentity, KeeperSession, Say};
use mneme::melete::SnapEntry;
use mneme::moirai::Moirai;
use mneme::proto::{CmdId, PushKeyPayload};
use mneme::replica::{replica_start, Registration};
use mneme::reply::Reply;
use mneme::store::Store;
use mneme::themis::{
    bootstraps, is_leader, leader_client_addr, peer_ids, raft_answer, rep_addr_to_client_addr, MemLog, MnemeNodeId,
    RaftOutcome,
};
use mneme::value::Value;
use mneme::warmup::{blocked, WarmupState};

const NOW: u64 = 1_700_000_000_000;

fn sync(node_id: u64, key_count: u64) -> SyncStartPayload {
    SyncStartPayload {
        node_id,
        highest_seq: 0,
        cluster_secret: "s".to_string(),
        key_count,
        version: 1,
        replication_addr: "0.0.0.0:7380".to_string(),
        node_name: String::new(),
        pool_bytes: 100,
    }
}

// ---- warm-up ----

#[test]
fn a_node_is_hot_once_all_keepers_are_done() {
    let mut w = WarmupState::new();
    assert!(!w.is_hot());
    assert!(w.sync_started(10));
    assert!(w.sync_started(5));
    assert_eq!((w.pending, w.total_expected), (2, 15));
    w.key_received();
    assert!(!w.sync_completed());
    assert!(w.sync_completed());
    assert!(w.is_hot());
    assert!(!w.sync_started(3));
    assert!(w.is_hot());
}

#[test]
fn a_keeper_that_goes_away_does_not_make_a_node_hot() {
    let mut w = WarmupState::new();
    w.sync_started(10);
    w.keeper_dropped();
    assert_eq!(w.pending, 0);
    assert!(!w.is_hot());
    assert!(!blocked(true, CmdId::Get, mneme::proto::ConsistencyLevel::All));
    assert!(blocked(false, CmdId::MGet, mneme::proto::ConsistencyLevel::All));
}

// ---- sessions of keepers and replicas ----

#[test]
fn keepers_hand_their_keys_over() {
    let mut store = Store::new(1000);
    let mut moirai = Moirai::new(false);
    let mut warmup = WarmupState::new();
    let mut link = KeeperLink::accept(&sync(5, 1), "s", "10.0.0.5", &mut moirai, &mut warmup).unwrap();
    assert_eq!(moirai.keeper_infos()[0].addr, "10.0.0.5:7380");
    let push = PushKeyPayload::write(mneme::pool::make_db_key(0, b"k"), Value::Counter(3), 0, 1, 0);
    link.push(push, &mut store, &mut warmup, NOW);
    assert_eq!(warmup.total_received, 1);
    assert!(store.pool.get(&mneme::pool::make_db_key(0, b"k"), NOW).is_some());
    assert!(matches!(link.complete(&mut warmup), Completion::BecameHot));
    link.heartbeat(&HeartbeatPayload { node_id: 5, pool_bytes: 400, used_bytes: 7, key_count: 1 }, &mut moirai);
    assert_eq!(moirai.keeper_infos()[0].used_bytes, 7);
    link.closed(&mut store, &mut moirai, &mut warmup);
    assert_eq!(store.pool.pool_max(), 600);
    assert!(moirai.keeper_infos().is_empty());
    assert!(warmup.is_hot());
}

#[test]
fn a_keeper_finishes_once() {
    let mut moirai = Moirai::new(false);
    let mut warmup = WarmupState::new();
    let mut a = KeeperLink::accept(&sync(1, 1), "s", "10.0.0.1", &mut moirai, &mut warmup).unwrap();
    let _b = KeeperLink::accept(&sync(2, 1), "s", "10.0.0.2", &mut moirai, &mut warmup).unwrap();
    assert!(matches!(a.complete(&mut warmup), Completion::Waiting));
    assert!(matches!(a.complete(&mut warmup), Completion::Waiting));
    assert_eq!(warmup.pending, 1);
    assert!(!warmup.is_hot());
}

#[test]
fn wrong_and_empty_secrets_are_refused() {
    let mut moirai = Moirai::new(false);
    let mut warmup = WarmupState::new();
    let e = KeeperLink::accept(&sync(1, 1), "other", "10.0.0.1", &mut moirai, &mut warmup).unwrap_err();
    assert_eq!(e.message(), "wrong cluster_secret");
    let mut empty = sync(1, 1);
    empty.cluster_secret = String::new();
    assert!(KeeperLink::accept(&empty, "", "10.0.0.1", &mut moirai, &mut warmup).is_err());
    assert_eq!(moirai.keeper_count(), 0);
}

#[test]
fn replicas_that_come_back_are_handed_everything() {
    let mut store = Store::new(1000);
    let mut moirai = Moirai::new(false);
    let mut warmup = WarmupState::new();
    warmup.set_hot();
    let mut link = KeeperLink::accept(&sync(9, 0), "s", "10.0.0.9", &mut moirai, &mut warmup).unwrap();
    assert!(matches!(link.complete(&mut warmup), Completion::ReplayAll));
    let mut keeper = KeeperLink::accept(&sync(8, 3), "s", "10.0.0.8", &mut moirai, &mut warmup).unwrap();
    assert!(matches!(keeper.complete(&mut warmup), Completion::Resynced));
    store.set(2, b"k", Value::Counter(3), 500, NOW).0.unwrap();
    store.set(2, b"gone", Value::Counter(3), 5, NOW).0.unwrap();
    let all = replay_all(&store, NOW + 100).unwrap();
    assert_eq!(all.len(), 1);
    assert_eq!((all[0].db_id, all[0].ttl_ms, all[0].deleted), (2, 400, false));
    store.pool.set(b"x".to_vec(), mneme::value::Entry::new(Value::Counter(1), 0));
    assert!(replay_all(&store, NOW).is_none());
}

#[test]
fn frames_on_the_replication_port_are_told_apart() {
    assert!(matches!(opening(CmdId::RaftVote, 0), Opening::RaftPeer));
    assert!(matches!(opening(CmdId::SyncStart, 0), Opening::Sync));
    assert!(matches!(opening(CmdId::SyncStart, REGISTER_FLAGS), Opening::Register));
    assert!(matches!(opening(CmdId::Get, 0), Opening::Unexpected));
    assert!(matches!(link_frame(CmdId::PushKey), LinkFrame::Push));
    assert!(matches!(link_frame(CmdId::SyncComplete), LinkFrame::Complete));
    assert!(matches!(link_frame(CmdId::Heartbeat), LinkFrame::Heartbeat));
    assert!(matches!(link_frame(CmdId::Get), LinkFrame::Ignored));
    assert!(replica_frame(CmdId::PushKey));
    assert!(!replica_frame(CmdId::Get));
    assert!(matches!(keeper_frame(CmdId::PushKey, false), KeeperFrame::Persist));
    assert!(matches!(keeper_frame(CmdId::Heartbeat, false), KeeperFrame::Confirm));
    assert!(matches!(keeper_frame(CmdId::OkReply, true), KeeperFrame::Ignore));
    assert!(matches!(keeper_frame(CmdId::OkReply, false), KeeperFrame::Unexpected));
}

#[test]
fn addresses_and_names_are_filled_in() {
    assert_eq!(keeper_addr("", "10.0.0.5"), "10.0.0.5:7379");
    assert_eq!(keeper_addr("0.0.0.0:9000", "10.0.0.5"), "10.0.0.5:9000");
    assert_eq!(keeper_addr("10.1.1.1:9000", "10.0.0.5"), "10.1.1.1:9000");
    assert_eq!(keeper_name("hypnos-1", 5), "hypnos-1");
    assert_ne!(keeper_name("", 5), "");
}

// ---- replicas ----

#[test]
fn replicas_try_every_address() {
    let mut w = WarmupState::new();
    let mut r = Registration::new("a:1", &vec!["b:2".to_string()]).unwrap();
    assert_eq!(r.addr(), "a:1");
    assert_eq!(r.failed(&mut w), 1);
    assert_eq!(r.addr(), "b:2");
    assert_eq!(r.failed(&mut w), 2);
    assert_eq!(r.addr(), "a:1");
    assert!(!w.stale);
    r.connected();
    assert_eq!(r.lost(&mut w), 1);
    assert!(w.stale);
    for wait in [2, 4, 8, 16, 32, 60, 60] {
        assert_eq!(r.failed(&mut w), wait);
    }
    assert!(Registration::new("", &vec![]).is_none());
}

#[test]
fn replicas_announce_no_keys() {
    let s = replica_start(4, "s", "10.0.0.4:7379", "r", 9);
    assert_eq!((s.key_count, s.node_id), (0, 4));
    let mut warmup = WarmupState::new();
    warmup.went_stale();
    let registration = Registration::new("core:7379", &vec![]).unwrap();
    let c = registration.registered(4, &mut warmup);
    assert_eq!((c.node_id, c.pushed_keys, c.highest_seq), (4, 0, 0));
    assert!(warmup.hot && !warmup.stale);
}

// ---- keepers ----

#[test]
fn keepers_persist_writes_and_remove_tombstones() {
    let mut push = PushKeyPayload::write(b"k".to_vec(), Value::Counter(3), 50, 7, 0);
    push.seq = 12;
    match keeper_action(&push, NOW) {
        KeeperAction::Store { seq, expires_at_ms, slot, .. } => assert_eq!((seq, expires_at_ms, slot), (12, NOW + 50, mneme::iris::Iris::slot_for(b"k"))),
        other => panic!("{other:?}"),
    }
    let gone = PushKeyPayload::tombstone(b"k".to_vec(), 7, 0);
    assert!(matches!(keeper_action(&gone, NOW), KeeperAction::Remove { key } if key == b"k"));
    assert_eq!((advance_seq(5, 3), advance_seq(5, 9)), (5, 9));
}

#[test]
fn keepers_refuse_what_they_do_not_expect() {
    assert_eq!(unexpected_frame(CmdId::SetKey), "unexpected replication cmd: Set");
}

#[test]
fn keepers_recover_from_their_log() {
    let records = vec![(3, 0, b"a".to_vec(), Value::Counter(1)), (2, 9, b"b".to_vec(), Value::Counter(2))];
    let (rows, highest) = recovered_rows(&vec![], &records);
    assert_eq!(highest, 3);
    assert_eq!(rows.len(), 2);
    assert_eq!(rows[1].2, 9);
    assert_eq!(rows[0].3, mneme::iris::Iris::slot_for(b"a"));
}

#[test]
fn keepers_store_the_log_over_the_snapshot() {
    let snapshot = vec![
        SnapEntry { key: b"a".to_vec(), value: Value::Counter(1), expires_at_ms: 0, lfu_counter: 0, slot: 77 },
        SnapEntry { key: b"b".to_vec(), value: Value::Counter(2), expires_at_ms: 5, lfu_counter: 0, slot: 78 },
    ];
    let records = vec![(8, 0, b"a".to_vec(), Value::Counter(9))];
    let (rows, highest) = recovered_rows(&snapshot, &records);
    assert_eq!(highest, 8);
    let keys: Vec<&[u8]> = rows.iter().map(|r| r.0.as_slice()).collect();
    assert_eq!(keys, vec![b"a".as_slice(), b"b".as_slice(), b"a".as_slice()]);
    assert_eq!((rows[1].2, rows[1].3), (5, 78));
    assert!(matches!(rows[2].1, Value::Counter(9)));
}

#[test]
fn snapshots_leave_out_what_went_away() {
    let found = vec![(b"a".to_vec(), Some((Value::Counter(1), 7, 3))), (b"b".to_vec(), None)];
    let entries = snapshot_entries(found);
    assert_eq!(entries.len(), 1);
    assert_eq!(entries[0].0, b"a");
    assert_eq!((entries[0].1.expires_at_ms, entries[0].1.slot, entries[0].1.lfu_counter), (7, 3, 0));
}

fn rows() -> Vec<(Vec<u8>, Value, u64, u16)> {
    vec![
        (mneme::pool::make_db_key(1, b"a"), Value::Counter(1), 0, 3),
        (mneme::pool::make_db_key(1, b"b"), Value::Counter(2), NOW + 70, 4),
        (mneme::pool::make_db_key(1, b"c"), Value::Counter(3), NOW - 1, 5),
    ]
}

#[test]
fn keepers_hand_over_what_is_live() {
    let (pushes, stale) = hand_over(&rows(), NOW);
    assert_eq!(pushes.len(), 2);
    assert_eq!((pushes[1].ttl_ms, pushes[1].slot), (70, 4));
    assert_eq!(stale, vec![mneme::pool::make_db_key(1, b"c")]);
}

fn identity() -> KeeperIdentity {
    KeeperIdentity {
        node_id: 5,
        cluster_secret: "s".to_string(),
        replication_addr: "a:1".to_string(),
        node_name: "k".to_string(),
        pool_bytes: 9,
    }
}

#[test]
fn keepers_hand_over_one_key_at_a_time() {
    let (mut session, start) = KeeperSession::begin(&identity(), 8, &rows(), NOW);
    assert_eq!((start.highest_seq, start.key_count, start.version), (8, 2, 1));
    assert_eq!((start.cluster_secret.as_str(), start.replication_addr.as_str()), ("s", "a:1"));
    assert_eq!((start.node_name.as_str(), start.pool_bytes, start.node_id), ("k", 9, 5));

    let (first, stale) = session.greeted(&rows(), 8, NOW);
    assert!(matches!(first, Say::Push(p) if p.key == mneme::pool::make_db_key(1, b"a") && p.ttl_ms == 0));
    assert_eq!(stale, vec![mneme::pool::make_db_key(1, b"c")]);
    assert!(matches!(session.confirmed(8, 0), Say::Push(p) if p.key == mneme::pool::make_db_key(1, b"b")));
    assert!(matches!(session.confirmed(9, 0), Say::Complete(c) if (c.node_id, c.pushed_keys, c.highest_seq) == (5, 2, 9)));
    assert!(matches!(session.confirmed(9, 100), Say::Nothing));

    assert_eq!((session.beat_wait(100), session.beat_wait(4100), session.beat_wait(99_999)), (10_000, 6_000, 0));
    let hb = session.beat(4096, 10, 11_000);
    assert_eq!((hb.node_id, hb.pool_bytes, hb.used_bytes, hb.key_count), (5, 4096, 1280, 10));
    assert_eq!(session.beat_wait(11_000), 10_000);
}

#[test]
fn what_a_keeper_kept_is_read_from_the_next_core() {
    let mut core = Store::new(1024 * 1024);
    let (_, pushes) = core.set(3, b"k", Value::Counter(42), 500, NOW);
    let kept: Vec<_> = pushes
        .iter()
        .map(|p| match keeper_action(p, NOW + 1) {
            KeeperAction::Store { key, value, expires_at_ms, slot, .. } => (key, value, expires_at_ms, slot),
            other => panic!("{other:?}"),
        })
        .collect();

    let mut next = Store::new(1024 * 1024);
    for push in hand_over(&kept, NOW + 100).0 {
        next.apply(push, NOW + 100);
    }
    assert!(matches!(next.get(3, b"k", NOW + 400), Ok(Reply::Value(Value::Counter(42)))));
    assert!(next.get(3, b"k", NOW + 501).is_err());

    let mut solo = Store::new(1024 * 1024);
    assert_eq!(solo.restore(kept, NOW + 100), (1, 0));
    assert!(matches!(solo.get(3, b"k", NOW + 400), Ok(Reply::Value(Value::Counter(42)))));
}

#[test]
fn what_is_replayed_is_read_from_the_replica() {
    let mut primary = Store::new(1024 * 1024);
    let _ = primary.set(0, b"a", Value::Counter(1), 0, NOW);
    let _ = primary.set(2, b"b", Value::Counter(2), 50, NOW);
    let mut replica = Store::new(1024 * 1024);
    for push in replay_all(&primary, NOW + 10).unwrap() {
        replica.apply(push, NOW + 10);
    }
    assert!(matches!(replica.get(0, b"a", NOW + 10), Ok(Reply::Value(Value::Counter(1)))));
    assert!(matches!(replica.get(2, b"b", NOW + 49), Ok(Reply::Value(Value::Counter(2)))));
    assert!(replica.get(2, b"b", NOW + 50).is_err());
}

#[test]
fn keepers_without_keys_are_done_at_once() {
    let (mut session, start) = KeeperSession::begin(&identity(), 0, &vec![], NOW);
    assert_eq!(start.key_count, 0);
    let (first, stale) = session.greeted(&vec![], 0, NOW);
    assert!(matches!(first, Say::Complete(c) if c.pushed_keys == 0));
    assert!(stale.is_empty());
    assert!(matches!(session.confirmed(0, 0), Say::Nothing));
}

#[test]
fn keepers_try_again_after_longer_waits() {
    let mut attempts = Attempts::new();
    let waits: Vec<u64> = (0..9).map(|_| attempts.not_reached()).map(|r| {
        assert!(!r.persistent);
        r.wait_s
    }).collect();
    assert_eq!(waits, vec![1, 2, 4, 8, 16, 32, 60, 60, 60]);
    assert!(attempts.not_reached().persistent);
    assert_eq!(attempts.session_ended(), 1);
    let next = attempts.not_reached();
    assert_eq!((next.wait_s, next.persistent), (2, false));
}

#[test]
fn answers_of_keepers_have_a_meaning() {
    let ack = |ok| Some(AckPayload { seq: 4, node_id: 1, ok });
    assert!(read_ack(CmdId::OkReply, false, None, "").is_ok());
    assert!(read_ack(CmdId::AckWrite, true, None, "").is_ok());
    assert!(read_ack(CmdId::AckWrite, false, ack(true), "").is_ok());
    assert_eq!(read_ack(CmdId::AckWrite, false, ack(false), "").unwrap_err().message(), "keeper NAK seq=4");
    assert_eq!(read_ack(CmdId::AckWrite, false, None, "").unwrap_err().message(), "decode AckPayload");
    assert_eq!(read_ack(CmdId::ErrorReply, false, None, "disk full").unwrap_err().message(), "keeper error: disk full");
    assert!(read_ack(CmdId::Get, false, None, "").is_ok());
}

// ---- cores ----

#[test]
fn followers_know_where_the_leader_is() {
    assert!(is_leader(Some(3), 3));
    assert!(!is_leader(Some(3), 2));
    assert!(!is_leader(None, 2));
    assert_eq!(rep_addr_to_client_addr("core-2:7379"), Some("core-2:6379".to_string()));
    assert_eq!(rep_addr_to_client_addr("core-2"), None);
    assert_eq!(rep_addr_to_client_addr("core-2:999"), None);
    assert_eq!(leader_client_addr(Some(3), 2, Some("core-3:7379")), Some("core-3:6379".to_string()));
    assert_eq!(leader_client_addr(Some(2), 2, Some("core-2:7379")), None);
    assert_eq!(leader_client_addr(None, 2, None), None);
}

#[test]
fn peers_are_numbered() {
    assert_eq!(peer_ids(1, 2), vec![2, 3]);
    assert_eq!(peer_ids(2, 2), vec![1, 3]);
    assert_eq!(peer_ids(9, 2), vec![1, 2]);
    assert!(bootstraps(1, &[2, 3]));
    assert!(!bootstraps(2, &[1, 3]));
    assert!(bootstraps(5, &[]));
    assert_eq!(MnemeNodeId(7).text(), "node-7");
}

#[test]
fn logs_are_cut_at_both_ends() {
    let mut log: MemLog<&str> = MemLog::new();
    for (i, e) in [(1, "a"), (2, "b"), (3, "c"), (4, "d")] {
        log.append(i, e);
    }
    log.append(3, "C");
    assert_eq!(log.get(3), Some(&"C"));
    assert_eq!(log.range(2, 4), vec![2, 3]);
    log.delete_conflict_since(4);
    assert_eq!(log.last_index(), Some(3));
    log.purge_upto(1);
    assert_eq!(log.get(1), None);
    assert_eq!(log.range(0, 10), vec![2, 3]);
    log.purge_upto(9);
    assert_eq!(log.last_index(), None);
}

#[test]
fn calls_between_cores_are_answered() {
    assert_eq!(raft_answer(CmdId::RaftVote, RaftOutcome::Answered(vec![1])), Ok(vec![1]));
    assert_eq!(raft_answer(CmdId::RaftVote, RaftOutcome::Failed("no".into())), Err("vote: no".to_string()));
    assert_eq!(raft_answer(CmdId::RaftAppendEntries, RaftOutcome::Failed("no".into())), Err("append_entries: no".to_string()));
    assert_eq!(raft_answer(CmdId::RaftInstallSnapshot, RaftOutcome::Unread("eof".into())), Err("decode: eof".to_string()));
    let other = raft_answer(CmdId::Get, RaftOutcome::Answered(vec![]));
    assert_eq!(other, Err("unexpected cmd_id in Raft peer conn".to_string()));
}

// ---- certificates ----

#[test]
fn certificates_are_made_when_one_is_missing() {
    assert!(needs_generation(true, true, false));
    assert!(needs_generation(true, false, true));
    assert!(!needs_generation(true, true, true));
    assert!(!needs_generation(false, false, false));
    assert!(has_client_cert("a", "b"));
    assert!(!has_client_cert("a", ""));
}

#[test]
fn certificates_list_names_in_order() {
    let extra = vec![
        ("1.2.3.4".to_string(), SanKind::Address),
        ("bad name".to_string(), SanKind::Unusable),
        ("db.example".to_string(), SanKind::Name),
    ];
    let names: Vec<String> = san_list(Some("10.0.0.1".to_string()), &extra)
        .into_iter()
        .map(|s| match s {
            San::Dns(n) => format!("dns:{n}"),
            San::Ip(a) => format!("ip:{a}"),
        })
        .collect();
    assert_eq!(names, vec!["dns:mneme.local", "dns:localhost", "ip:127.0.0.1", "ip:10.0.0.1", "ip:1.2.3.4", "dns:db.example"]);
    assert_eq!(san_list(None, &vec![]).len(), 3);
}
