use std::collections::hash_map::DefaultHasher;
use std::hash::Hasher;
use zenoh_explorer::dedup::Deduper;
use zenoh_explorer::utils::{compute_message_hash, compute_payload_hash, RateLimiter};

fn reference_message_hash(key: &str, payload: &str) -> u64 {
    let mut hasher = DefaultHasher::new();
    hasher.write(key.as_bytes());
    hasher.write(&[0xFF]);
    hasher.write(payload.as_bytes());
    hasher.finish()
}

fn reference_payload_hash(payload: &str) -> u64 {
    let mut hasher = DefaultHasher::new();
    let bytes = payload.as_bytes();
    let slice = if bytes.len() > 4096 { &bytes[..4096] } else { bytes };
    hasher.write(&(slice.len() as u64).to_le_bytes());
    hasher.write(slice);
    hasher.finish()
}

#[test]
fn message_hash_matches_std_hashing() {
    for (k, p) in [
        ("a", "".to_string()),
        ("demo/x", "hello".to_string()),
        ("k", "z".repeat(5000)),
        ("k", "q".repeat(9000)),
    ] {
        assert_eq!(compute_message_hash(k, &p), reference_message_hash(k, &p));
    }
}

#[test]
fn message_hash_covers_the_whole_payload() {
    let a = format!("{}{}{}", "s".repeat(4096), "AAAA", "e".repeat(4096));
    let b = format!("{}{}{}", "s".repeat(4096), "BBBB", "e".repeat(4096));
    assert_ne!(compute_message_hash("k", &a), compute_message_hash("k", &b));
    assert_eq!(compute_message_hash("k", &a), compute_message_hash("k", &a.clone()));
    assert_ne!(compute_message_hash("k", "x"), compute_message_hash("k", "y"));
    assert_ne!(compute_message_hash("ab", "c"), compute_message_hash("a", "bc"));
    assert_eq!(compute_message_hash("k", "p"), Deduper::hash_message("k", b"p"));
}

#[test]
fn payload_hash_covers_the_first_4_kib() {
    for p in ["".to_string(), "{\"a\":1}".to_string(), "w".repeat(5000)] {
        assert_eq!(compute_payload_hash(&p), reference_payload_hash(&p));
    }
    let a = format!("{}1", "w".repeat(4096));
    let b = format!("{}2", "w".repeat(4096));
    assert_eq!(compute_payload_hash(&a), compute_payload_hash(&b));
}

#[test]
fn rate_limiter_admits_max_per_window() {
    let mut rl = RateLimiter::new(3);
    let t = std::time::Instant::now();
    assert!(rl.check_and_update_at(t, false));
    assert!(rl.check_and_update_at(t, false));
    assert!(rl.check_and_update_at(t, false));
    assert!(!rl.check_and_update_at(t, false));
    assert_eq!(rl.message_count, 3);
    // a new window starts with this message counted
    assert!(rl.check_and_update_at(t, true));
    assert_eq!(rl.message_count, 1);
}

#[test]
fn rate_limiter_with_zero_limit_only_admits_window_openers() {
    let mut rl = RateLimiter::new(0);
    let t = std::time::Instant::now();
    assert!(!rl.check_and_update_at(t, false));
    assert!(rl.check_and_update_at(t, true));
    assert!(!rl.check_and_update_at(t, false));
}

#[test]
fn rate_limiter_live_clock() {
    let mut rl = RateLimiter::new(2);
    assert!(rl.check_and_update());
    assert!(rl.check_and_update());
    assert!(!rl.check_and_update());
}

#[test]
fn dedup_hash_separates_key_and_payload() {
    assert_ne!(
        Deduper::hash_message("ab", b"c"),
        Deduper::hash_message("a", b"bc")
    );
    let mut h = DefaultHasher::new();
    h.write(b"k");
    h.write(&[0xff]);
    h.write(b"payload");
    assert_eq!(Deduper::hash_message("k", b"payload"), h.finish());
}

#[test]
fn dedup_check_then_record() {
    let mut d = Deduper::new(60_000_000_000);
    let h = Deduper::hash_message("k", b"payload");
    assert!(!d.seen_recently(h));
    assert!(!d.seen_recently(h)); // a check alone records nothing
    d.record(h);
    assert!(d.seen_recently(h));
    let other = Deduper::hash_message("k", b"other");
    assert!(!d.seen_recently(other));
}

#[test]
fn dedup_forgets_after_window() {
    let mut d = Deduper::new(1_000_000);
    let h = Deduper::hash_message("k", b"x");
    d.record(h);
    let start = std::time::Instant::now();
    while start.elapsed() < std::time::Duration::from_millis(5) {}
    assert!(!d.seen_recently(h));
}

#[test]
fn dedup_check_by_given_clock_readings() {
    let mut d = Deduper::new(1000);
    let h1 = Deduper::hash_message("k", b"one");
    let h2 = Deduper::hash_message("k", b"two");
    d.record(h1);
    d.record(h2);
    let sweep_before = d.last_sweep;
    let t = std::time::Instant::now();
    // No sweep due: both entries stay; only a young entry counts as seen.
    assert!(d.seen_recently_at(h1, t, 0, &vec![10, 2000]));
    assert!(!d.seen_recently_at(h2, t, 1000, &vec![10, 2000]));
    assert_eq!(d.hashes.len(), 2);
    assert!(d.last_sweep == sweep_before);
    // A sweep is due: the old entry is forgotten and the sweep happens now.
    assert!(!d.seen_recently_at(h2, t, 5000, &vec![10, 2000]));
    assert_eq!(d.hashes.len(), 1);
    assert_eq!(d.hashes[0].0, h1);
    assert!(d.last_sweep == t);
    assert!(d.seen_recently_at(h1, t, 0, &vec![999]));
    assert!(!d.seen_recently_at(h1, t, 0, &vec![1000]));
}

#[test]
fn one_window_never_admits_more_than_the_limit() {
    let mut rl = RateLimiter::new(4);
    let t = std::time::Instant::now();
    // The window opens with this message, then counts the rest.
    assert!(rl.check_and_update_at(t, true));
    let mut accepted = 1;
    for _ in 0..10 {
        if rl.check_and_update_at(t, false) {
            accepted += 1;
        }
    }
    assert_eq!(accepted, 4);
    assert_eq!(rl.message_count, 4);
}

#[test]
fn record_at_renews_the_time_of_a_known_hash() {
    let mut d = Deduper::new(1000);
    let h1 = Deduper::hash_message("k", b"one");
    let h2 = Deduper::hash_message("k", b"two");
    let t0 = std::time::Instant::now();
    let t1 = t0 + std::time::Duration::from_secs(3);
    d.record_at(h1, t0);
    d.record_at(h2, t0);
    assert_eq!(d.hashes, vec![(h1, t0), (h2, t0)]);
    // A hash recorded again takes the new time in place.
    d.record_at(h1, t1);
    assert_eq!(d.hashes, vec![(h1, t1), (h2, t0)]);
}
