//! Tests for header discipline and the request matcher.

use api_simulator::headers::{is_hop_by_hop_header, is_session_header, sanitize_headers};
use api_simulator::json::{json_matches, JsonValue};
use api_simulator::matcher::{MatchResult, RequestMatcher};
use api_simulator::models::{HttpRequest, HttpResponse};

fn get(path: &str) -> HttpRequest {
    HttpRequest {
        method: "GET".to_string(),
        path: path.to_string(),
        query: None,
        scheme: None,
        authority: None,
        headers: vec![],
        body: vec![],
    }
}

fn ok_response(body: &[u8]) -> HttpResponse {
    HttpResponse { status: 200, headers: vec![], body: body.to_vec() }
}

#[test]
fn hop_by_hop_names_are_recognized_case_insensitively() {
    assert!(is_hop_by_hop_header("connection"));
    assert!(is_hop_by_hop_header("Connection"));
    assert!(is_hop_by_hop_header("KEEP-ALIVE"));
    assert!(is_hop_by_hop_header("Proxy-Authenticate"));
    assert!(is_hop_by_hop_header("proxy-authorization"));
    assert!(is_hop_by_hop_header("TE"));
    assert!(is_hop_by_hop_header("Trailer"));
    assert!(is_hop_by_hop_header("Transfer-Encoding"));
    assert!(is_hop_by_hop_header("Upgrade"));
    assert!(!is_hop_by_hop_header("Host"));
    assert!(!is_hop_by_hop_header("Content-Type"));
}

#[test]
fn session_header_prefix_is_recognized() {
    assert!(is_session_header("X-Session-Id"));
    assert!(is_session_header("x-session-token"));
    assert!(is_session_header("X-SESSION"));
    assert!(!is_session_header("X-Sessio"));
    assert!(!is_session_header("Host"));
}

#[test]
fn sanitize_drops_hop_and_session_headers_in_order() {
    let headers = vec![
        ("Connection".to_string(), b"close".to_vec()),
        ("Host".to_string(), b"origin.test".to_vec()),
        ("X-Session-Id".to_string(), b"s".to_vec()),
        ("Accept".to_string(), b"*/*".to_vec()),
        ("X-Proxy-Target".to_string(), b"http://o".to_vec()),
    ];
    let clean = sanitize_headers(&headers);
    let names: Vec<&str> = clean.iter().map(|h| h.0.as_str()).collect();
    assert_eq!(names, vec!["Host", "Accept", "X-Proxy-Target"]);
}

#[test]
fn matcher_returns_first_match_by_method_and_path() {
    let matcher = RequestMatcher::new();
    let interactions = vec![
        (get("/a"), ok_response(b"first-a")),
        (get("/b"), ok_response(b"b")),
        (get("/a"), ok_response(b"second-a")),
    ];
    match matcher.match_request(&get("/a"), &interactions) {
        MatchResult::Match(resp) => assert_eq!(resp.body, b"first-a".to_vec()),
        MatchResult::NoMatch => panic!("expected a match"),
    }
}

#[test]
fn matcher_compares_methods_case_insensitively() {
    let matcher = RequestMatcher::new();
    let mut stored = get("/a");
    stored.method = "get".to_string();
    let interactions = vec![(stored, ok_response(b"x"))];
    match matcher.match_request(&get("/a"), &interactions) {
        MatchResult::Match(resp) => assert_eq!(resp.body, b"x".to_vec()),
        MatchResult::NoMatch => panic!("expected a match"),
    }
}

#[test]
fn matcher_misses_on_different_path_or_method() {
    let matcher = RequestMatcher::new();
    let interactions = vec![(get("/a"), ok_response(b"x"))];
    assert!(matches!(
        matcher.match_request(&get("/other"), &interactions),
        MatchResult::NoMatch
    ));
    let mut post = get("/a");
    post.method = "POST".to_string();
    assert!(matches!(matcher.match_request(&post, &interactions), MatchResult::NoMatch));
}

fn obj(fields: Vec<(&str, JsonValue)>) -> JsonValue {
    JsonValue::Obj(fields.into_iter().map(|(k, v)| (k.to_string(), v)).collect())
}

#[test]
fn json_subset_matching() {
    let actual = obj(vec![
        ("a", JsonValue::Int(1)),
        ("b", JsonValue::Str("x".to_string())),
        ("extra", JsonValue::Bool(true)),
    ]);
    let expected = obj(vec![("a", JsonValue::Int(1))]);
    assert!(json_matches(&actual, &expected));

    let missing = obj(vec![("c", JsonValue::Int(1))]);
    assert!(!json_matches(&actual, &missing));

    let wrong = obj(vec![("a", JsonValue::Int(2))]);
    assert!(!json_matches(&actual, &wrong));
}

#[test]
fn json_wildcard_matches_anything() {
    let actual = obj(vec![("a", JsonValue::Arr(vec![JsonValue::Int(5)]))]);
    let expected = obj(vec![("a", JsonValue::Str("*".to_string()))]);
    assert!(json_matches(&actual, &expected));
    assert!(json_matches(&JsonValue::Null, &JsonValue::Str("*".to_string())));
}

#[test]
fn json_arrays_match_positionally_at_equal_length() {
    let actual = JsonValue::Arr(vec![JsonValue::Int(1), JsonValue::Int(2)]);
    let same = JsonValue::Arr(vec![JsonValue::Int(1), JsonValue::Int(2)]);
    let shorter = JsonValue::Arr(vec![JsonValue::Int(1)]);
    let swapped = JsonValue::Arr(vec![JsonValue::Int(2), JsonValue::Int(1)]);
    assert!(json_matches(&actual, &same));
    assert!(!json_matches(&actual, &shorter));
    assert!(!json_matches(&actual, &swapped));
}
