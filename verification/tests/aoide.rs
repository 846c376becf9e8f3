//! The write-ahead log.

use mneme::aoide::{align_up, find_end_offset, record_bytes, replay, Aoide, Found, WalRecord, BLOCK_SIZE, ENTRY_HEADER_SIZE};

/// A log in memory: the bytes of a file and where the next record goes.
struct Wal {
    log: Vec<u8>,
    state: Aoide,
}

impl Wal {
    fn open(log: Vec<u8>, max: u64) -> Wal {
        let state = Aoide::open(&log, max);
        Wal { log, state }
    }

    fn append(&mut self, seq: u64, expires_at_ms: u64, key: &[u8], value: &[u8]) {
        let (at, bytes) = self.state.append(seq, expires_at_ms, key, value).unwrap();
        let at = at as usize;
        if self.log.len() < at + bytes.len() {
            self.log.resize(at + bytes.len(), 0);
        }
        self.log[at..at + bytes.len()].copy_from_slice(&bytes);
        self.state.written(bytes.len() as u64);
    }
}

fn string_value(s: &str) -> Vec<u8> {
    rmp_serde::to_vec(s).unwrap()
}

fn parts(r: &WalRecord) -> (u64, u64, Vec<u8>) {
    (r.seq, r.expires_at_ms, r.key.clone())
}

#[test]
fn append_and_replay() {
    let mut wal = Wal::open(vec![], 16 * 1024 * 1024);
    wal.append(1, 0, b"k1", &string_value("hello"));
    wal.append(2, 9_999_999_999_999, b"k2", &string_value("world"));
    let (records, _) = replay(&wal.log);
    let replayed: Vec<_> = records.iter().map(parts).collect();
    assert_eq!(replayed.len(), 2);
    assert_eq!(replayed[0], (1, 0, b"k1".to_vec()));
    assert_eq!(replayed[1], (2, 9_999_999_999_999, b"k2".to_vec()));
}

#[test]
fn replay_preserves_expires_at_ms() {
    let mut wal = Wal::open(vec![], 8 * 1024 * 1024);
    let ttl: u64 = 1_700_000_000_000;
    wal.append(1, ttl, b"ttl_key", &string_value("v"));
    assert_eq!(replay(&wal.log).0[0].expires_at_ms, ttl);
}

#[test]
fn replay_empty_file_succeeds() {
    let (records, end) = replay(&[0u8; 4 * 4096]);
    assert_eq!(records.len(), 0);
    assert_eq!(end, Found::End);
    assert_eq!(replay(&[]).0.len(), 0);
}

#[test]
fn offset_advances_after_append() {
    let mut wal = Wal::open(vec![], 8 * 1024 * 1024);
    assert_eq!(wal.state.offset(), 0);
    wal.append(1, 0, b"key", &string_value("val"));
    assert!(wal.state.offset() > 0);
}

#[test]
fn replay_corrupted_crc_stops() {
    let mut wal = Wal::open(vec![], 8 * 1024 * 1024);
    wal.append(1, 0, b"k1", &string_value("hello"));
    wal.log[24..28].copy_from_slice(&[0xFF, 0xFF, 0xFF, 0xFF]);
    let (records, end) = replay(&wal.log);
    assert_eq!(records.len(), 0, "corrupted CRC should stop replay before yielding any record");
    assert_eq!(end, Found::End);
}

#[test]
fn replay_corrupted_key_len_no_oom() {
    let mut buf = record_bytes(1, 0, b"k", &string_value("v"));
    buf[16..20].copy_from_slice(&u32::MAX.to_le_bytes());
    let (records, end) = replay(&buf);
    assert_eq!(records.len(), 0, "corrupted key_len should stop replay");
    assert_eq!(end, Found::End);
}

#[test]
fn replay_corrupted_val_len_no_oom() {
    let mut buf = vec![0u8; BLOCK_SIZE];
    buf[0..8].copy_from_slice(&1u64.to_le_bytes());
    buf[8..16].copy_from_slice(&0u64.to_le_bytes());
    buf[16..20].copy_from_slice(&3u32.to_le_bytes());
    buf[20..24].copy_from_slice(&u32::MAX.to_le_bytes());
    buf[24..28].copy_from_slice(&0u32.to_le_bytes());
    buf[ENTRY_HEADER_SIZE..ENTRY_HEADER_SIZE + 3].copy_from_slice(b"key");
    let (records, end) = replay(&buf);
    assert_eq!(records.len(), 0, "corrupted val_len should stop replay");
    assert_eq!(end, Found::End);
}

#[test]
fn replay_truncated_record() {
    let mut buf = vec![0u8; BLOCK_SIZE];
    buf[0..8].copy_from_slice(&1u64.to_le_bytes());
    buf[8..16].copy_from_slice(&0u64.to_le_bytes());
    buf[16..20].copy_from_slice(&10u32.to_le_bytes());
    buf[20..24].copy_from_slice(&10u32.to_le_bytes());
    buf[24..28].copy_from_slice(&0u32.to_le_bytes());
    let (records, end) = replay(&buf);
    assert_eq!(records.len(), 0, "truncated record should stop replay");
    assert_eq!(end, Found::End);
}

#[test]
fn append_replay_round_trip() {
    let mut wal = Wal::open(vec![], 16 * 1024 * 1024);
    let entries = vec![
        (1u64, 0u64, b"alpha".to_vec(), string_value("one")),
        (2u64, 1_700_000_000_000u64, b"beta".to_vec(), string_value("two")),
        (3u64, 0u64, b"gamma".to_vec(), string_value("three")),
    ];
    for (seq, exp, key, val) in &entries {
        wal.append(*seq, *exp, key, val);
    }
    let (recovered, end) = replay(&wal.log);
    assert_eq!(recovered.len(), 3);
    assert_eq!(end, Found::End);
    for (i, r) in recovered.iter().enumerate() {
        assert_eq!(r.seq, entries[i].0);
        assert_eq!(r.expires_at_ms, entries[i].1);
        assert_eq!(r.key, entries[i].2);
        assert_eq!(r.value, entries[i].3);
    }
    let again = Wal::open(wal.log.clone(), 16 * 1024 * 1024);
    assert_eq!(again.state.offset(), wal.state.offset());
}

#[test]
fn find_end_offset_empty_file() {
    let offset = find_end_offset(&vec![0u8; BLOCK_SIZE * 4]);
    assert_eq!(offset, 0, "empty WAL file should have end offset 0");
}

#[test]
fn all_value_types_persist() {
    let mut wal = Wal::open(vec![], 16 * 1024 * 1024);
    let hash = rmp_serde::to_vec(&vec![(b"f".to_vec(), b"v".to_vec())]).unwrap();
    let list = rmp_serde::to_vec(&vec![b"i".to_vec()]).unwrap();
    wal.append(1, 0, b"string", &string_value("s"));
    wal.append(2, 0, b"hash", &hash);
    wal.append(3, 0, b"list", &list);
    assert_eq!(replay(&wal.log).0.len(), 3);
}

#[test]
fn records_carry_the_castagnoli_checksum() {
    // The check value of this polynomial for the digits 1 to 9.
    let b = record_bytes(7, 0, b"1234", b"56789");
    assert_eq!(b.len(), 4096);
    assert_eq!(&b[0..8], &7u64.to_le_bytes());
    assert_eq!(&b[24..28], &0xE306_9283u32.to_le_bytes());
    assert_eq!(&b[28..37], b"123456789");
    assert!(b[37..].iter().all(|x| *x == 0));
}

#[test]
fn a_full_log_takes_no_more() {
    let mut wal = Wal::open(vec![], 4096);
    wal.append(1, 0, b"k", b"v");
    let e = wal.state.append(2, 0, b"k", b"v").unwrap_err();
    assert_eq!((e.offset, e.max_bytes), (4096, 4096));
    assert_eq!(e.message(), "WAL full: offset=4096 max=4096");
    assert!(wal.state.needs_rotation(100));
    let half = Aoide { offset: 2048, max_bytes: 4096 };
    assert!(half.needs_rotation(50));
    assert!(!half.needs_rotation(51));
    assert!(half.wants_space(4095) && !half.wants_space(4096));
}

#[test]
fn a_log_may_end_within_a_record() {
    let mut b = record_bytes(1, 0, b"key", b"value");
    let (records, end) = replay(&b[..30]);
    assert_eq!(records.len(), 0);
    assert_eq!(end, Found::End);
    let second = record_bytes(2, 0, b"other", b"value");
    b.extend_from_slice(&second[..31]);
    let (records, end) = replay(&b);
    assert_eq!(records.len(), 1, "what stands before the cut is read");
    assert_eq!(records[0].key, b"key");
    assert_eq!(end, Found::End);
}

#[test]
fn lengths_are_rounded_up() {
    assert_eq!(align_up(0, 4096), 0);
    assert_eq!(align_up(1, 4096), 4096);
    assert_eq!(align_up(4096, 4096), 4096);
    assert_eq!(align_up(4097, 4096), 8192);
    assert_eq!(align_up(10, 3), 12);
    assert_eq!(align_up(12, 3), 12);
    assert_eq!(align_up(7, 1), 7);
}
