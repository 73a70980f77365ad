//! Tests for the dynamic-value processor and its helpers.

use api_simulator::dynamic::{
    apply_capture, generate_value, parse_i64, render_i64, replace_all_bytes,
    DynamicValueProcessor,
};
use api_simulator::errors::SimError;

#[test]
fn parse_and_render_integers() {
    assert_eq!(parse_i64("0"), Some(0));
    assert_eq!(parse_i64("41"), Some(41));
    assert_eq!(parse_i64("-5"), Some(-5));
    assert_eq!(parse_i64("+7"), Some(7));
    assert_eq!(parse_i64("9223372036854775807"), Some(i64::MAX));
    assert_eq!(parse_i64("-9223372036854775808"), Some(i64::MIN));
    assert_eq!(parse_i64("9223372036854775808"), None);
    assert_eq!(parse_i64(""), None);
    assert_eq!(parse_i64("x1"), None);
    assert_eq!(parse_i64("1 "), None);
    assert_eq!(render_i64(42), b"42".to_vec());
    assert_eq!(render_i64(0), b"0".to_vec());
    assert_eq!(render_i64(-17), b"-17".to_vec());
}

#[test]
fn increment_generator() {
    let g41 = "41".to_string();
    assert_eq!(generate_value("increment", Some(&g41)), "42");
    let gneg = "-3".to_string();
    assert_eq!(generate_value("increment", Some(&gneg)), "-2");
    let bad = "abc".to_string();
    assert_eq!(generate_value("increment", Some(&bad)), "1");
    assert_eq!(generate_value("increment", None), "1");
}

#[test]
fn literal_generator_and_random_length() {
    assert_eq!(generate_value("fixed-token", None), "fixed-token");
    let r = generate_value("consistent_random", None);
    assert_eq!(r.chars().count(), 10);
    assert!(r.chars().all(|c| c.is_ascii_alphanumeric()));
}

#[test]
fn processor_leaves_unmatched_bodies_alone() {
    let mut proc = DynamicValueProcessor::new();
    proc.add_pattern("id-[0-9]+", "token").unwrap();
    let out = proc.process_request("nothing to see");
    assert_eq!(out, "nothing to see");
    assert_eq!(proc.values.len(), 0);
}

#[test]
fn replace_all_is_leftmost_and_non_overlapping() {
    assert_eq!(replace_all_bytes(b"aXbXc", b"X", b"YY"), b"aYYbYYc".to_vec());
    assert_eq!(replace_all_bytes(b"aaa", b"aa", b"b"), b"ba".to_vec());
    assert_eq!(replace_all_bytes(b"abc", b"", b"z"), b"abc".to_vec());
    assert_eq!(replace_all_bytes(b"abc", b"zz", b"y"), b"abc".to_vec());
}

#[test]
fn apply_capture_reuses_recorded_values() {
    let mut values: Vec<(String, String)> = Vec::new();
    let first = apply_capture(&mut values, "id-41 id-41", "id-41", "token", None);
    assert_eq!(first, "token token");
    assert_eq!(values.len(), 1);
    assert_eq!(values[0].0, "id-41");
    assert_eq!(values[0].1, "token");
    // A later body with the same match text reuses the mapping.
    let second = apply_capture(&mut values, "x id-41 y", "id-41", "token", None);
    assert_eq!(second, "x token y");
    assert_eq!(values.len(), 1);
}

#[test]
fn processor_rewrites_bodies() {
    let mut proc = DynamicValueProcessor::new();
    proc.add_pattern("id-[0-9]+", "replaced").unwrap();
    let out = proc.process_request("id-41 and id-41");
    assert_eq!(out, "replaced and replaced");
    assert_eq!(proc.values.len(), 1);
}

#[test]
fn processor_increments_counters() {
    let mut proc = DynamicValueProcessor::new();
    proc.add_pattern("count=([0-9]+)", "increment").unwrap();
    let out = proc.process_request("count=41");
    assert_eq!(out, "42");
}

#[test]
fn invalid_pattern_is_rejected() {
    let mut proc = DynamicValueProcessor::new();
    assert_eq!(proc.add_pattern("(", "x").unwrap_err(), SimError::InvalidPattern);
    assert_eq!(proc.patterns.len(), 0);
}

#[test]
fn random_values_stay_consistent_within_a_session() {
    let mut proc = DynamicValueProcessor::new();
    proc.add_pattern("tok-[a-z]+", "consistent_random").unwrap();
    let out = proc.process_request("tok-abc tok-abc");
    let parts: Vec<&str> = out.split(' ').collect();
    assert_eq!(parts.len(), 2);
    assert_eq!(parts[0], parts[1]);
    assert_eq!(parts[0].chars().count(), 10);
}
