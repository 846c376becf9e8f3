//! Rows of the cold store.

use mneme::oneiros::{expired_keys, is_stale, pack, scan, unpack, visible, ColdError};
use mneme::value::{Value, ZSetMember};

const NOW: u64 = 1_700_000_000_000;

fn row(key: &[u8], text: &[u8], expires_at_ms: u64) -> (Vec<u8>, Value, u64, u16) {
    (key.to_vec(), Value::String(text.to_vec()), expires_at_ms, 0)
}

#[test]
fn expired_key_not_returned() {
    assert!(visible(Some((Value::String(b"v".to_vec()), 1, 0)), NOW).is_none());
    assert!(visible(None, NOW).is_none());
    assert!(visible(Some((Value::String(b"v".to_vec()), 0, 0)), NOW).is_some());
}

#[test]
fn scan_returns_non_expired() {
    let rows = scan(vec![row(b"live", b"a", 0), row(b"dead", b"b", 1)], NOW);
    let found: Vec<Vec<u8>> = rows.into_iter().map(|r| r.0).collect();
    assert!(found.contains(&b"live".to_vec()));
    assert!(!found.contains(&b"dead".to_vec()));
}

#[test]
fn purge_expired_removes_stale_keys() {
    let rows = vec![row(b"stale1", b"a", 1), row(b"stale2", b"b", 1), row(b"fresh", b"c", u64::MAX)];
    let purged = expired_keys(&rows, NOW);
    assert_eq!(purged.len(), 2);
    assert!(!purged.contains(&b"fresh".to_vec()));
}

#[test]
fn all_value_types_round_trip() {
    let hash = Value::Hash(vec![(b"f".to_vec(), b"v".to_vec())]);
    let list = Value::List(std::collections::VecDeque::from(vec![b"i".to_vec()]));
    let zset = Value::ZSet(vec![ZSetMember { score: 1.0f64.to_bits(), member: b"m".to_vec() }]);
    assert!(matches!(visible(Some((hash, 0, 1)), NOW), Some(Value::Hash(_))));
    assert!(matches!(visible(Some((list, 0, 2)), NOW), Some(Value::List(_))));
    assert!(matches!(visible(Some((zset, 0, 3)), NOW), Some(Value::ZSet(_))));
}

#[test]
fn rows_are_packed_and_unpacked() {
    let record = vec![7u8; 10_000];
    let packed = pack(&record).unwrap();
    assert!(packed.len() < record.len());
    assert_ne!(packed, record);
    assert_eq!(unpack(&packed).unwrap(), record);
    assert_eq!(unpack(b"no frame").unwrap_err(), ColdError::Decompress);
}

#[test]
fn rows_end_at_their_time() {
    assert!(!is_stale(0, NOW));
    assert!(!is_stale(NOW + 1, NOW));
    assert!(is_stale(NOW, NOW));
}
