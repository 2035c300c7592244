use security_monitor::clock::{epoch_ms, is_recent, now_ms};
use std::time::{SystemTime, UNIX_EPOCH};

#[test]
fn recent_up_to_the_window() {
    assert!(is_recent(1_000, 31_000, 30_000));
    assert!(!is_recent(1_000, 31_001, 30_000));
    assert!(is_recent(5, 5, 0));
    assert!(!is_recent(4, 5, 0));
}

#[test]
fn the_future_is_recent() {
    assert!(is_recent(u64::MAX, 0, 0));
    assert!(is_recent(10, 9, 0));
}

#[test]
fn milliseconds_are_cut_to_64_bits() {
    assert_eq!(epoch_ms(None), 0);
    assert_eq!(epoch_ms(Some(1_700_000_000_123)), 1_700_000_000_123);
    assert_eq!(epoch_ms(Some((1u128 << 64) + 5)), 5);
    assert_eq!(epoch_ms(Some(u128::MAX)), u64::MAX);
}

#[test]
fn now_lies_between_two_readings_of_the_clock() {
    let before = SystemTime::now().duration_since(UNIX_EPOCH).unwrap().as_millis() as u64;
    let now = now_ms();
    let after = SystemTime::now().duration_since(UNIX_EPOCH).unwrap().as_millis() as u64;
    assert!(before <= now && now <= after);
    assert!(now > 1_600_000_000_000);
}
