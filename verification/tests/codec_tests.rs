//! Tests for the canonical codec: conversion between live and stored
//! forms, the URI string form, and the capture error conditions.

use api_simulator::codec::{
    build_full_uri, canon_method, parse_uri, request_to_stored, response_to_stored,
    stored_to_request, stored_to_response,
};
use api_simulator::errors::SimError;
use api_simulator::models::{HttpRequest, HttpResponse, MAX_BODY_SIZE};

fn sample_request() -> HttpRequest {
    HttpRequest {
        method: "get".to_string(),
        path: "/v1/items".to_string(),
        query: Some("a=1&b=2".to_string()),
        scheme: Some("http".to_string()),
        authority: Some("origin.test:8080".to_string()),
        headers: vec![
            ("Accept".to_string(), b"text/plain".to_vec()),
            ("X-Tag".to_string(), b"one".to_vec()),
            ("Accept".to_string(), b"application/json".to_vec()),
        ],
        body: b"hello".to_vec(),
    }
}

#[test]
fn request_round_trip_preserves_content() {
    let req = sample_request();
    let stored = request_to_stored(&req).unwrap();
    assert_eq!(stored.method, "GET");
    assert_eq!(stored.uri, "http://origin.test:8080/v1/items?a=1&b=2");
    assert_eq!(stored.body, b"hello".to_vec());
    // Headers are grouped by name, in order of first appearance.
    assert_eq!(stored.headers.len(), 2);
    assert_eq!(stored.headers[0].0, "Accept");
    assert_eq!(
        stored.headers[0].1,
        vec!["text/plain".to_string(), "application/json".to_string()]
    );
    assert_eq!(stored.headers[1].0, "X-Tag");
    assert_eq!(stored.headers[1].1, vec!["one".to_string()]);

    let back = stored_to_request(&stored);
    assert_eq!(back.method, "GET");
    assert_eq!(back.path, "/v1/items");
    assert_eq!(back.query, Some("a=1&b=2".to_string()));
    assert_eq!(back.scheme, Some("http".to_string()));
    assert_eq!(back.authority, Some("origin.test:8080".to_string()));
    assert_eq!(back.body, b"hello".to_vec());
    // Per-name value lists survive the trip; grouping may reorder
    // across names only.
    let accepts: Vec<&[u8]> = back
        .headers
        .iter()
        .filter(|h| h.0 == "Accept")
        .map(|h| h.1.as_slice())
        .collect();
    assert_eq!(accepts, vec![b"text/plain".as_slice(), b"application/json".as_slice()]);
    let tags: Vec<&[u8]> =
        back.headers.iter().filter(|h| h.0 == "X-Tag").map(|h| h.1.as_slice()).collect();
    assert_eq!(tags, vec![b"one".as_slice()]);
}

#[test]
fn response_round_trip_preserves_content() {
    let resp = HttpResponse {
        status: 201,
        headers: vec![("Content-Type".to_string(), b"application/json".to_vec())],
        body: b"{\"ok\":1}".to_vec(),
    };
    let stored = response_to_stored(&resp).unwrap();
    assert_eq!(stored.status, 201);
    let back = stored_to_response(&stored);
    assert_eq!(back.status, 201);
    assert_eq!(back.body, b"{\"ok\":1}".to_vec());
    assert_eq!(back.headers.len(), 1);
    assert_eq!(back.headers[0].0, "Content-Type");
    assert_eq!(back.headers[0].1, b"application/json".to_vec());
}

#[test]
fn non_utf8_header_value_is_an_encoding_error() {
    let mut req = sample_request();
    req.headers.push(("X-Binary".to_string(), vec![0xff, 0xfe]));
    assert_eq!(request_to_stored(&req).unwrap_err(), SimError::EncodingError);
}

#[test]
fn oversized_body_is_rejected() {
    let mut req = sample_request();
    req.body = vec![0u8; MAX_BODY_SIZE + 1];
    assert_eq!(request_to_stored(&req).unwrap_err(), SimError::BodyTooLarge);
    let resp = HttpResponse { status: 200, headers: vec![], body: vec![0u8; MAX_BODY_SIZE + 1] };
    assert_eq!(response_to_stored(&resp).unwrap_err(), SimError::BodyTooLarge);
}

#[test]
fn body_at_the_ceiling_is_accepted() {
    let mut req = sample_request();
    req.body = vec![7u8; MAX_BODY_SIZE];
    assert!(request_to_stored(&req).is_ok());
}

#[test]
fn parse_uri_absolute_form() {
    let parts = parse_uri("https://origin.test/v1/items?a=1");
    assert_eq!(parts.scheme, Some("https".to_string()));
    assert_eq!(parts.authority, Some("origin.test".to_string()));
    assert_eq!(parts.path, "/v1/items");
    assert_eq!(parts.query, Some("a=1".to_string()));
}

#[test]
fn parse_uri_origin_form() {
    let parts = parse_uri("/v1/items?a=1&b=2");
    assert_eq!(parts.scheme, None);
    assert_eq!(parts.authority, None);
    assert_eq!(parts.path, "/v1/items");
    assert_eq!(parts.query, Some("a=1&b=2".to_string()));
}

#[test]
fn parse_uri_no_query() {
    let parts = parse_uri("/plain");
    assert_eq!(parts.path, "/plain");
    assert_eq!(parts.query, None);
}

#[test]
fn build_full_uri_without_authority() {
    let mut req = sample_request();
    req.scheme = None;
    req.authority = None;
    req.query = None;
    assert_eq!(build_full_uri(&req), "/v1/items");
}

#[test]
fn canon_method_uppercases_ascii() {
    assert_eq!(canon_method("get"), "GET");
    assert_eq!(canon_method("Post"), "POST");
    assert_eq!(canon_method("DELETE"), "DELETE");
}
