//! Slots, hash tags and routing.

use std::collections::hash_map::DefaultHasher;
use std::hash::{Hash, Hasher};

use mneme::iris::{crc16_ccitt, extract_hash_tag, Iris, RouteResult, NUM_SLOTS};


#[test]
fn crc16_known_values() {
    // Verify CRC16-CCITT (poly 0x1021, init 0x0000) is deterministic.
    // Actual values from our implementation:
    assert_eq!(crc16_ccitt(b"foo") % NUM_SLOTS, 12182);
    assert_eq!(crc16_ccitt(b"bar") % NUM_SLOTS, 5061);
}

#[test]
fn hash_tag_extraction() {
    assert_eq!(extract_hash_tag(b"a{foo}b"), b"foo");
    assert_eq!(extract_hash_tag(b"nobraces"), b"nobraces");
    assert_eq!(extract_hash_tag(b"a{}b"), b"a{}b");
}

#[test]
fn route_local() {
    let iris = Iris::new(1);
    assert!(matches!(iris.route(b"somekey"), RouteResult::Local(_)));
}

#[test]
fn route_moved_after_assign() {
    let mut iris = Iris::new(1);
    let slot = Iris::slot_for(b"foo");
    iris.assign_range(2, "10.0.0.2:7379", slot, slot);
    assert!(matches!(iris.route(b"foo"), RouteResult::Moved { .. }));
}

#[test]
fn reclaim_restores_local() {
    let mut iris = Iris::new(1);
    let slot = Iris::slot_for(b"bar");
    iris.assign_range(3, "10.0.0.3:7379", slot, slot);
    assert!(matches!(iris.route(b"bar"), RouteResult::Moved { .. }));
    iris.reclaim_range(slot, slot);
    assert!(matches!(iris.route(b"bar"), RouteResult::Local(_)));
}

#[test]
fn slot_for_same_hash_tag() {
    // Keys with same hash tag must map to same slot
    let s1 = Iris::slot_for(b"user:{alice}:profile");
    let s2 = Iris::slot_for(b"user:{alice}:settings");
    assert_eq!(s1, s2);
}

#[test]
fn slot_in_range() {
    for key in [b"hello".as_ref(), b"world", b"mneme", b"cache"] {
        assert!(Iris::slot_for(key) < NUM_SLOTS);
    }
}

#[test]
fn slot_table_all_local_initially() {
    let iris = Iris::new(42);
    let table = iris.slot_table();
    assert!(table.values().all(|&nid| nid == 42));
    assert_eq!(table.len(), NUM_SLOTS as usize);
}

#[test]
fn assign_range_updates_table() {
    let mut iris = Iris::new(1);
    iris.assign_range(2, "10.0.0.2:7379", 0, 100);
    let table = iris.slot_table();
    for slot in 0u16..=100 {
        assert_eq!(table[&slot], 2);
    }
    assert_eq!(table[&101], 1); // still local
}

#[test]
fn moved_response_contains_correct_addr() {
    let mut iris = Iris::new(1);
    let slot = Iris::slot_for(b"testkey");
    iris.assign_range(5, "192.168.1.5:7379", slot, slot);
    match iris.route(b"testkey") {
        RouteResult::Moved { addr, node_id, .. } => {
            assert_eq!(addr, "192.168.1.5:7379");
            assert_eq!(node_id, 5);
        }
        _ => panic!("expected Moved"),
    }
}

#[test]
fn slot_for_empty_key() {
    let slot = Iris::slot_for(b"");
    assert!(slot < NUM_SLOTS);
}

#[test]
fn slot_for_deterministic() {
    let a = Iris::slot_for(b"foo");
    let b = Iris::slot_for(b"foo");
    assert_eq!(a, b);
}

#[test]
fn slot_for_hash_tag() {
    let s1 = Iris::slot_for(b"{user}.name");
    let s2 = Iris::slot_for(b"{user}.email");
    assert_eq!(s1, s2);
}

#[test]
fn slot_for_empty_hash_tag() {
    // Empty tag `{}` has no effect — full key is used.
    let slot = Iris::slot_for(b"{}.name");
    let expected = crc16_ccitt(b"{}.name") % NUM_SLOTS;
    assert_eq!(slot, expected);
}

#[test]
fn slot_for_nested_braces() {
    // First `{` at index 0, first `}` at index 6 → tag is `{user` (bytes 1..6).
    let slot = Iris::slot_for(b"{{user}}.name");
    let expected = crc16_ccitt(b"{user") % NUM_SLOTS;
    assert_eq!(slot, expected);
}

#[test]
fn slot_for_no_closing_brace() {
    // No closing brace means full key is used.
    let slot = Iris::slot_for(b"{user.name");
    let expected = crc16_ccitt(b"{user.name") % NUM_SLOTS;
    assert_eq!(slot, expected);
}

#[test]
fn slot_for_max_key_size() {
    let key = vec![0xABu8; 512];
    let slot = Iris::slot_for(&key);
    assert!(slot < NUM_SLOTS);
}

#[test]
fn slot_range_always_valid() {
    // Generate 1000 pseudo-random keys and verify all slots are in range.
    for i in 0u64..1000 {
        let mut hasher = DefaultHasher::new();
        i.hash(&mut hasher);
        let h = hasher.finish();
        let key = h.to_le_bytes();
        let slot = Iris::slot_for(&key);
        assert!(slot < NUM_SLOTS, "slot {} out of range for key index {}", slot, i);
    }
}

#[test]
fn local_slots_are_those_that_no_other_node_has() {
    let mut iris = Iris::new(1);
    assert_eq!(iris.local_slots().len(), 16384);
    iris.assign_range(2, "10.0.0.2:6379", 10, 16383);
    assert_eq!(iris.local_slots(), (0..10).collect::<Vec<u16>>());
}

#[test]
fn the_checksum_is_a_remainder() {
    assert_eq!(crc16_ccitt(&[]), 0);
    assert_eq!(crc16_ccitt(&[1]), 0x1021);
    assert_eq!(crc16_ccitt(b"123456789"), 0x31c3);
    let (a, b) = (b"some bytes", b"other text");
    let both: Vec<u8> = a.iter().zip(b).map(|(x, y)| x ^ y).collect();
    assert_eq!(crc16_ccitt(&both), crc16_ccitt(a) ^ crc16_ccitt(b));
    let mut d = b"some bytes".to_vec();
    d.extend_from_slice(&crc16_ccitt(a).to_be_bytes());
    assert_eq!(crc16_ccitt(&d), 0);
}
