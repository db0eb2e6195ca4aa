use eomi_core::log_util::{hash_msg, RateLimiter, DEFAULT_WINDOW_SECS};
use std::time::{Duration, Instant};

#[test]
fn first_message_always_emits() {
    let mut rl = RateLimiter::new();
    assert!(rl.should_emit("hello"));
}

#[test]
fn duplicate_within_window_is_suppressed() {
    let mut rl = RateLimiter::new();
    assert!(rl.should_emit("hello"));
    assert!(!rl.should_emit("hello"));
    assert!(!rl.should_emit("hello"));
}

#[test]
fn different_messages_are_independent() {
    let mut rl = RateLimiter::new();
    assert!(rl.should_emit("aaa"));
    assert!(rl.should_emit("bbb"));
    assert!(!rl.should_emit("aaa"));
    assert!(!rl.should_emit("bbb"));
}

#[test]
fn hash_is_deterministic() {
    assert_eq!(hash_msg("test"), hash_msg("test"));
    assert_ne!(hash_msg("test"), hash_msg("other"));
}

#[test]
fn default_window_is_10s() {
    let rl = RateLimiter::new();
    assert_eq!(rl.window_secs(), DEFAULT_WINDOW_SECS);
    assert_eq!(DEFAULT_WINDOW_SECS, 10);
}


#[test]
fn hash_matches_fnv1a_reference_values() {
    assert_eq!(hash_msg(""), 0xcbf29ce484222325);
    assert_eq!(hash_msg("a"), 0xaf63dc4c8601ec8c);
}

#[test]
fn zero_window_always_emits() {
    let mut rl = RateLimiter::with_window(0);
    assert!(rl.should_emit("x"));
    assert!(rl.should_emit("x"));
}

#[test]
fn emission_time_is_kept_while_suppressed() {
    let mut rl = RateLimiter::new();
    let t0 = Instant::now();
    assert_eq!(rl.should_emit_at("m", t0), (true, None));
    // Repeats inside the window are suppressed and do not move the window.
    for s in [1u64, 4, 7, 9] {
        assert_eq!(rl.should_emit_at("m", t0 + Duration::from_secs(s)), (false, None));
    }
    // The window counts from the emission at t0, not from the last repeat.
    assert_eq!(rl.should_emit_at("m", t0 + Duration::from_secs(10)), (true, Some((4, 10))));
    assert_eq!(rl.should_emit_at("m", t0 + Duration::from_secs(12)), (false, None));
    assert_eq!(rl.should_emit_at("m", t0 + Duration::from_secs(20)), (true, Some((1, 10))));
    assert_eq!(rl.should_emit_at("m", t0 + Duration::from_secs(31)), (true, None));
}

#[test]
fn other_messages_do_not_interfere() {
    let mut rl = RateLimiter::with_window(5);
    let t0 = Instant::now();
    assert!(rl.should_emit_at("a", t0).0);
    assert!(rl.should_emit_at("b", t0 + Duration::from_secs(1)).0);
    assert!(!rl.should_emit_at("a", t0 + Duration::from_secs(2)).0);
    assert!(rl.should_emit_at("a", t0 + Duration::from_secs(5)).0);
}

#[test]
fn emits_again_after_window_expires() {
    let mut rl = RateLimiter::with_window(1);
    let t0 = Instant::now();
    assert!(rl.should_emit_at("msg", t0).0);
    assert!(!rl.should_emit_at("msg", t0).0);
    let later = t0 + Duration::from_millis(1100);
    assert!(rl.should_emit_at("msg", later).0);
}

#[test]
fn suppressed_count_resets_after_emit() {
    let mut rl = RateLimiter::with_window(1);
    let t0 = Instant::now();
    assert!(rl.should_emit_at("msg", t0).0);
    assert!(!rl.should_emit_at("msg", t0).0);
    assert!(!rl.should_emit_at("msg", t0).0);
    let later = t0 + Duration::from_millis(1100);
    let (emitted, summary) = rl.should_emit_at("msg", later);
    assert!(emitted);
    assert_eq!(summary, Some((2, 1)));
    assert!(!rl.should_emit_at("msg", later).0);
}
