//! Snapshots.

use mneme::melete::{Melete, SnapEntry, SnapHeader};
use mneme::value::{Entry, Value, ZSetMember};

fn make_entries() -> Vec<(Vec<u8>, Entry)> {
    vec![
        (b"key:string".to_vec(), Entry::new(Value::String(b"hello".to_vec()), 0)),
        (b"key:hash".to_vec(), Entry::new(Value::Hash(vec![(b"field".to_vec(), b"val".to_vec())]), 1)),
        (
            b"key:list".to_vec(),
            Entry::new(Value::List(std::collections::VecDeque::from(vec![b"item1".to_vec()])), 2),
        ),
    ]
}

/// Saves entries and loads them again.
fn round_trip(entries: &Vec<(Vec<u8>, Entry)>) -> (u64, Vec<SnapEntry>) {
    let (header, snaps) = Melete::save(entries, 5);
    let read: Vec<Option<SnapEntry>> = snaps.into_iter().map(Some).collect();
    let (loaded, at) = Melete::load(&header, &read).unwrap();
    assert_eq!(at, 5);
    (header.entry_count, loaded)
}

#[test]
fn save_and_load_round_trip() {
    let (count, loaded) = round_trip(&make_entries());
    assert_eq!(count, 3);
    assert_eq!(loaded.len(), 3);
    let keys: Vec<Vec<u8>> = loaded.iter().map(|e| e.key.clone()).collect();
    assert!(keys.contains(&b"key:string".to_vec()));
    assert!(keys.contains(&b"key:hash".to_vec()));
    assert!(keys.contains(&b"key:list".to_vec()));
}

#[test]
fn into_map_preserves_fields() {
    let (_, loaded) = round_trip(&make_entries());
    let map = Melete::into_map(&loaded);
    assert!(map.iter().any(|(k, _)| k == b"key:string"));
}

#[test]
fn load_wrong_version_fails() {
    let bad_header = SnapHeader { version: 99, created_at_ms: 0, entry_count: 0 };
    let result = Melete::load(&bad_header, &vec![]);
    assert!(result.is_err());
    let err_msg = result.unwrap_err().message();
    assert!(
        err_msg.contains("unsupported snapshot version"),
        "expected 'unsupported snapshot version' in error, got: {err_msg}"
    );
}

#[test]
fn save_empty_entries() {
    let (count, loaded) = round_trip(&vec![]);
    assert_eq!(count, 0);
    assert!(loaded.is_empty());
}

#[test]
fn save_load_round_trip_extended() {
    let mut entries = make_entries();
    let m = ZSetMember { score: 1.5f64.to_bits(), member: b"member1".to_vec() };
    entries.push((b"key:zset".to_vec(), Entry::new(Value::ZSet(vec![m]), 3)));
    let (count, loaded) = round_trip(&entries);
    assert_eq!(count, 4);
    assert_eq!(loaded.len(), 4);
    for (orig_key, orig_entry) in &entries {
        let snap = loaded.iter().find(|se| se.key == *orig_key).unwrap_or_else(|| panic!("missing key {:?}", orig_key));
        assert_eq!(snap.slot, orig_entry.slot);
        assert_eq!(snap.expires_at_ms, orig_entry.expires_at_ms);
        assert_eq!(format!("{:?}", orig_entry.value), format!("{:?}", snap.value), "value mismatch for key {:?}", orig_key);
    }
}

#[test]
fn snap_preserves_ttl() {
    let expires = 1_700_000_000_000_u64;
    let mut entry = Entry::new(Value::String(b"val".to_vec()), 5);
    entry.expires_at_ms = expires;
    let (_, loaded) = round_trip(&vec![(b"ttl_key".to_vec(), entry)]);
    assert_eq!(loaded.len(), 1);
    assert_eq!(loaded[0].expires_at_ms, expires);
}

#[test]
fn snap_preserves_lfu_counter() {
    let mut entry = Entry::new(Value::String(b"val".to_vec()), 7);
    entry.lfu_counter = 42;
    let (_, loaded) = round_trip(&vec![(b"lfu_key".to_vec(), entry)]);
    assert_eq!(loaded.len(), 1);
    assert_eq!(loaded[0].lfu_counter, 42);
}

#[test]
fn load_corrupted_entry_fails() {
    let header = SnapHeader { version: 1, created_at_ms: 0, entry_count: 2 };
    let result = Melete::load(&header, &vec![None, None]);
    assert!(result.is_err(), "loading corrupted snapshot should fail");
    assert_eq!(result.unwrap_err().message(), "snap read entry 0");
    assert!(Melete::load(&header, &vec![]).is_err());
}

#[test]
fn the_last_of_equal_keys_wins() {
    let snap = |v: &[u8]| SnapEntry {
        key: b"k".to_vec(),
        value: Value::String(v.to_vec()),
        expires_at_ms: 0,
        lfu_counter: 0,
        slot: 0,
    };
    let map = Melete::into_map(&vec![snap(b"old"), snap(b"new")]);
    assert_eq!(map.len(), 1);
    assert!(matches!(&map[0].1.value, Value::String(s) if s == b"new"));
}
