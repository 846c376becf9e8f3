//! Timing wheels and use counters.

use mneme::lethe::{FastRand, Lethe};

#[test]
fn lfu_increment_low_counter_always_increments() {
    assert_eq!(Lethe::increment_lfu(0, 0), 1);
    assert_eq!(Lethe::increment_lfu(1, 0), 2);
    assert_eq!(Lethe::increment_lfu(4, 0), 5);
}

#[test]
fn lfu_saturates_at_255() {
    assert_eq!(Lethe::increment_lfu(255, 0), 255);
}

#[test]
fn lfu_decay() {
    assert_eq!(Lethe::decay_lfu(10), 9);
    assert_eq!(Lethe::decay_lfu(0), 0);
}

#[test]
fn pick_eviction_candidates_lowest_first() {
    let candidates = vec![
        (b"hot".to_vec(), 200u8),
        (b"cold".to_vec(), 3u8),
        (b"warm".to_vec(), 50u8),
        (b"ice".to_vec(), 1u8),
    ];
    let evicted = Lethe::pick_eviction_candidates(&candidates, 2);
    assert!(evicted.contains(&b"ice".to_vec()));
    assert!(evicted.contains(&b"cold".to_vec()));
    assert_eq!(evicted.len(), 2);
}

#[test]
fn pick_more_than_available_returns_all() {
    let candidates = vec![(b"a".to_vec(), 10u8)];
    let evicted = Lethe::pick_eviction_candidates(&candidates, 5);
    assert_eq!(evicted.len(), 1);
}

#[test]
fn ttl_wheel_ms_bucket_expires() {
    let mut lethe = Lethe::new();
    let now_ms: u64 = 1_000_000;
    // expire in 50ms to level 0 bucket
    lethe.schedule(b"fast".to_vec(), now_ms + 50, now_ms);

    let expired = lethe.tick(now_ms + 10);
    assert!(!expired.contains(&b"fast".to_vec()), "too early");

    let expired = lethe.tick(now_ms + 60);
    assert!(expired.contains(&b"fast".to_vec()), "should have expired");
}

#[test]
fn ttl_wheel_s_bucket_expires() {
    let mut lethe = Lethe::new();
    let now_ms: u64 = 2_000_000;
    // expire in 5s to level 1 bucket
    lethe.schedule(b"medium".to_vec(), now_ms + 5_000, now_ms);

    let expired = lethe.tick(now_ms + 3_000);
    assert!(!expired.contains(&b"medium".to_vec()));

    let expired = lethe.tick(now_ms + 6_000);
    assert!(expired.contains(&b"medium".to_vec()));
}

#[test]
fn ttl_wheel_no_expiry_skipped() {
    let mut lethe = Lethe::new();
    let now_ms: u64 = 1_000_000;
    lethe.schedule(b"persistent".to_vec(), 0, now_ms);
    let expired = lethe.tick(now_ms + 100_000);
    assert!(!expired.contains(&b"persistent".to_vec()));
}

#[test]
fn ttl_wheel_multiple_keys() {
    let mut lethe = Lethe::new();
    let now_ms: u64 = 3_000_000;
    lethe.schedule(b"k1".to_vec(), now_ms + 20, now_ms);   // ms bucket
    lethe.schedule(b"k2".to_vec(), now_ms + 3_000, now_ms); // s bucket
    lethe.schedule(b"k3".to_vec(), now_ms + 120_000, now_ms); // m bucket

    // After 30ms: k1 expires
    let e = lethe.tick(now_ms + 30);
    assert!(e.contains(&b"k1".to_vec()));
    assert!(!e.contains(&b"k2".to_vec()));
    assert!(!e.contains(&b"k3".to_vec()));

    // After 4s: k2 expires
    let e = lethe.tick(now_ms + 4_000);
    assert!(e.contains(&b"k2".to_vec()));
    assert!(!e.contains(&b"k3".to_vec()));
}

#[test]
fn ttl_wheel_cascade_s_to_ms() {
    // Schedule a key in the s-wheel (delta 5s), tick past the s-wheel bucket,
    // verify it cascades to ms-wheel and eventually expires.
    let mut lethe = Lethe::new();
    let now_ms: u64 = 5_000_000;
    let expires_at = now_ms + 5_000; // 5s to lands in s-wheel (bucket 5)

    lethe.schedule(b"cascade_s".to_vec(), expires_at, now_ms);

    // Tick to 4s : s-wheel bucket not yet reached, key should not expire.
    let e = lethe.tick(now_ms + 4_000);
    assert!(!e.contains(&b"cascade_s".to_vec()), "should not expire at 4s");

    // s-bucket 5 drains when s_cursor reaches 6 (elapsed >= 6000ms).
    // At that point the key's expires_at <= now so it expires directly
    // during cascade drain, or cascades into ms-wheel and expires on the
    // next ms-wheel advance.
    let e = lethe.tick(now_ms + 6_000);
    if !e.contains(&b"cascade_s".to_vec()) {
        // Cascaded into ms-wheel; one more tick drains it.
        let e2 = lethe.tick(now_ms + 6_100);
        assert!(
            e2.contains(&b"cascade_s".to_vec()),
            "cascaded key should expire after ms-wheel tick"
        );
    }
}

#[test]
fn ttl_wheel_cascade_m_to_s() {
    // Schedule a key in the m-wheel (delta 120s), tick past the m-wheel bucket,
    // verify it cascades to s-wheel and eventually expires.
    let mut lethe = Lethe::new();
    let now_ms: u64 = 10_000_000;
    let expires_at = now_ms + 120_000; // 120s to lands in m-wheel (bucket 2)

    lethe.schedule(b"cascade_m".to_vec(), expires_at, now_ms);

    // Tick to 60s : first m-bucket fires but key is in bucket 2 (offset ~120s).
    let e = lethe.tick(now_ms + 60_000);
    assert!(
        !e.contains(&b"cascade_m".to_vec()),
        "should not expire at 60s"
    );

    // m-bucket 2 drains when m_cursor reaches 3 (elapsed >= 180000ms = 3min).
    // At that point expires_at <= now, so it expires directly in cascade drain
    // or cascades into s-wheel and then drains on subsequent ticks.
    let e = lethe.tick(now_ms + 180_000);
    if !e.contains(&b"cascade_m".to_vec()) {
        // Cascaded into s-wheel; advance further to drain s to ms.
        let e2 = lethe.tick(now_ms + 181_000);
        if !e2.contains(&b"cascade_m".to_vec()) {
            let e3 = lethe.tick(now_ms + 181_100);
            assert!(
                e3.contains(&b"cascade_m".to_vec()),
                "cascaded key should eventually expire"
            );
        }
    }
}

#[test]
fn ttl_wheel_past_expiry_immediate() {
    // Schedule a key with expiry already in the past. On next tick it should
    // expire immediately.
    let mut lethe = Lethe::new();
    let now_ms: u64 = 8_000_000;
    let expires_at = now_ms - 500; // 500ms in the past

    lethe.schedule(b"past".to_vec(), expires_at, now_ms);

    // delta_ms saturates to 0, max(1) puts it in ms-bucket (0+1)%256 = 1.
    // Bucket 1 drains when ms_cursor reaches 2 (elapsed >= 20ms).
    let e = lethe.tick(now_ms + 20);
    assert!(
        e.contains(&b"past".to_vec()),
        "past-expiry key should expire on first sufficient tick"
    );
}

#[test]
fn ttl_wheel_large_delta_clamped() {
    // Schedule with delta > 64 minutes. Should land in last m-bucket
    // without panicking.
    let mut lethe = Lethe::new();
    let now_ms: u64 = 1_000_000;
    let expires_at = now_ms + 200 * 60_000; // 200 minutes

    // This must not panic : clamped to WHEEL_M_BUCKETS - 1.
    lethe.schedule(b"huge".to_vec(), expires_at, now_ms);

    // Verify it was scheduled (tick should not find it expired yet).
    let e = lethe.tick(now_ms + 10);
    assert!(
        !e.contains(&b"huge".to_vec()),
        "should not expire after 10ms"
    );
}

#[test]
fn ttl_wheel_tick_before_schedule() {
    // Call tick() before any schedule(). Should return empty and not panic.
    let mut lethe = Lethe::new();
    let now_ms: u64 = 7_000_000;

    let e = lethe.tick(now_ms);
    assert!(e.is_empty(), "tick with no scheduled keys should return empty");

    let e = lethe.tick(now_ms + 100);
    assert!(e.is_empty(), "subsequent tick with no keys should return empty");
}

#[test]
fn lfu_increment_probabilistic() {
    // Call increment_lfu(10) 100000 times. At counter 10 (above base 5),
    // increments are probabilistic. Should get at least a few but not all.
    let mut rng = FastRand::new();
    let mut increment_count = 0u64;
    for _ in 0..100_000 {
        let result = Lethe::increment_lfu(10, rng.fast_rand_u64());
        if result == 11 {
            increment_count += 1;
        }
    }
    assert!(
        increment_count >= 1,
        "expected at least 1 increment out of 100000, got {increment_count}"
    );
    assert!(
        increment_count < 99_999,
        "expected fewer than 99999 increments (probabilistic), got {increment_count}"
    );
}

#[test]
fn pick_eviction_empty_candidates() {
    let candidates: Vec<(Vec<u8>, u8)> = vec![];
    let evicted = Lethe::pick_eviction_candidates(&candidates, 5);
    assert!(evicted.is_empty(), "empty candidates should return empty");
}

#[test]
fn pick_eviction_n_zero() {
    let candidates = vec![
        (b"a".to_vec(), 1u8),
        (b"b".to_vec(), 2u8),
    ];
    let evicted = Lethe::pick_eviction_candidates(&candidates, 0);
    assert!(evicted.is_empty(), "n=0 should return empty");
}
