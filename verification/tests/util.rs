use bee_runtime::util::{dedup_preserve_order, default_shutdown_timeout};
use std::time::Duration;

#[test]
fn dedup_keeps_first_occurrences_in_order() {
    let v = vec!["b".to_string(), "a".to_string(), "b".to_string(), "c".to_string(), "a".to_string()];
    assert_eq!(dedup_preserve_order(v), vec!["b".to_string(), "a".to_string(), "c".to_string()]);
}

#[test]
fn dedup_of_empty_is_empty() {
    assert!(dedup_preserve_order(Vec::new()).is_empty());
}

#[test]
fn dedup_is_idempotent() {
    let v = vec!["x".to_string(), "x".to_string(), "y".to_string()];
    let once = dedup_preserve_order(v);
    let twice = dedup_preserve_order(once.clone());
    assert_eq!(once, twice);
    assert_eq!(once, vec!["x".to_string(), "y".to_string()]);
}

#[test]
fn default_shutdown_timeout_is_ten_seconds() {
    assert_eq!(default_shutdown_timeout(), Duration::from_secs(10));
}
