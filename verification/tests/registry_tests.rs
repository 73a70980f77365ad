//! Tests for the session registry and the record/replay/passthrough
//! pipeline.

use api_simulator::control::{
    create_session_op, delete_session_op, extract_session_id, handle_api_request, route_request,
    session_from_query, RouteDecision,
};
use api_simulator::errors::SimError;
use api_simulator::models::{
    AppConfig, CreateSessionPayload, DynamicPattern, HttpRequest, HttpResponse, SessionConfig,
    SessionMode, SessionQuery,
};
use api_simulator::registry::{ForwardOutcome, ProcessOutcome, SessionManager};
use api_simulator::storage::{MemoryStorage, StorageBackend};

fn memory_manager() -> SessionManager {
    SessionManager::new(StorageBackend::Memory(MemoryStorage::new()), None)
}

fn get(path: &str) -> HttpRequest {
    HttpRequest {
        method: "GET".to_string(),
        path: path.to_string(),
        query: None,
        scheme: None,
        authority: None,
        headers: vec![],
        body: vec![],
    }
}

fn upstream_ok(body: &[u8]) -> HttpResponse {
    HttpResponse {
        status: 200,
        headers: vec![
            ("Content-Type".to_string(), b"application/json".to_vec()),
            ("Connection".to_string(), b"keep-alive".to_vec()),
        ],
        body: body.to_vec(),
    }
}

#[test]
fn create_is_unique_per_id() {
    let mut mgr = memory_manager();
    assert!(mgr.create_session("s1".to_string()).is_ok());
    assert_eq!(
        mgr.create_session("s1".to_string()).unwrap_err(),
        SimError::AlreadyExists
    );
    assert!(mgr.session_exists("s1"));
    assert_eq!(mgr.get_session_count(), 1);
}

#[test]
fn delete_removes_session_and_memory_recordings() {
    let mut mgr = memory_manager();
    mgr.create_session("s1".to_string()).unwrap();
    // Record one interaction, then delete the session.
    let mut req = get("/a");
    req.headers.push(("X-Proxy-Target".to_string(), b"http://origin.test".to_vec()));
    let outcome = mgr.process_request("s1", &req).unwrap();
    let (outbound, fwd, save) = match outcome {
        ProcessOutcome::Forward(o, f, s) => (o, f, s),
        _ => panic!("record mode should forward"),
    };
    assert!(save);
    assert_eq!(outbound.url, "http://origin.test/a");
    mgr.complete_forward("s1", &fwd, upstream_ok(b"{\"ok\":1}"), save).unwrap();
    match &mgr.storage {
        StorageBackend::Memory(m) => {
            assert_eq!(m.get_interactions("s1").unwrap().len(), 1);
        },
        _ => panic!("expected the memory backend"),
    }
    mgr.delete_session("s1").unwrap();
    assert!(!mgr.session_exists("s1"));
    // Deletion is terminal for the in-memory store.
    match &mgr.storage {
        StorageBackend::Memory(m) => {
            assert_eq!(m.get_interactions("s1").unwrap().len(), 0);
        },
        _ => panic!("expected the memory backend"),
    }
    assert_eq!(mgr.delete_session("s1").unwrap_err(), SimError::NotFound);
}

#[test]
fn record_then_replay_returns_stored_response() {
    let mut mgr = memory_manager();
    mgr.create_session("s1".to_string()).unwrap();
    let mut cfg = SessionConfig::default();
    cfg.target_url = Some("http://origin.test".to_string());
    mgr.update_session_config("s1", cfg).unwrap();

    // Record-mode request for GET /a.
    let req = get("/a");
    let (outbound, fwd, save) = match mgr.process_request("s1", &req).unwrap() {
        ProcessOutcome::Forward(o, f, s) => (o, f, s),
        _ => panic!("record mode should forward"),
    };
    assert!(save);
    assert_eq!(outbound.url, "http://origin.test/a");
    assert_eq!(outbound.method, "GET");
    let ForwardOutcome { client_response, to_persist } =
        mgr.complete_forward("s1", &fwd, upstream_ok(b"{\"ok\":1}"), save).unwrap();
    assert!(to_persist.is_none());
    assert_eq!(client_response.status, 200);
    assert_eq!(client_response.body, b"{\"ok\":1}".to_vec());
    // Hop-by-hop headers are stripped from the client response.
    assert!(client_response.headers.iter().all(|h| h.0 != "Connection"));
    assert!(client_response.headers.iter().any(|h| h.0 == "Content-Type"));

    // Switch to replay and ask again: same status and body.
    let mut cfg2 = SessionConfig::default();
    cfg2.mode = SessionMode::Replay;
    mgr.update_session_config("s1", cfg2).unwrap();
    match mgr.process_request("s1", &get("/a")).unwrap() {
        ProcessOutcome::Respond(resp) => {
            assert_eq!(resp.status, 200);
            assert_eq!(resp.body, b"{\"ok\":1}".to_vec());
        },
        _ => panic!("replay mode should respond directly"),
    }
}

#[test]
fn replay_miss_is_404_with_fixed_body() {
    let mut mgr = memory_manager();
    mgr.create_session("s2".to_string()).unwrap();
    let mut cfg = SessionConfig::default();
    cfg.mode = SessionMode::Replay;
    mgr.update_session_config("s2", cfg).unwrap();
    match mgr.process_request("s2", &get("/missing")).unwrap() {
        ProcessOutcome::Respond(resp) => {
            assert_eq!(resp.status, 404);
            assert_eq!(resp.body, b"No matching interaction found".to_vec());
        },
        _ => panic!("replay mode should respond directly"),
    }
}

#[test]
fn passthrough_forwards_without_storing() {
    let mut mgr = memory_manager();
    mgr.create_session("p1".to_string()).unwrap();
    let mut cfg = SessionConfig::default();
    cfg.mode = SessionMode::Passthrough;
    cfg.target_url = Some("http://origin.test".to_string());
    mgr.update_session_config("p1", cfg).unwrap();
    let req = get("/x");
    let (_outbound, fwd, save) = match mgr.process_request("p1", &req).unwrap() {
        ProcessOutcome::Forward(o, f, s) => (o, f, s),
        _ => panic!("passthrough mode should forward"),
    };
    assert!(!save);
    mgr.complete_forward("p1", &fwd, upstream_ok(b"z"), save).unwrap();
    match &mgr.storage {
        StorageBackend::Memory(m) => assert_eq!(m.get_interactions("p1").unwrap().len(), 0),
        _ => panic!("expected the memory backend"),
    }
}

#[test]
fn forwarding_without_any_target_fails() {
    let mut mgr = memory_manager();
    mgr.create_session("s1".to_string()).unwrap();
    assert_eq!(
        mgr.process_request("s1", &get("/a")).unwrap_err(),
        SimError::NoTarget
    );
    assert_eq!(
        mgr.process_request("unknown", &get("/a")).unwrap_err(),
        SimError::NotFound
    );
}

#[test]
fn forwarded_request_keeps_no_hop_or_session_headers() {
    let mut mgr = memory_manager();
    mgr.create_session("s".to_string()).unwrap();
    let mut req = get("/a");
    req.headers = vec![
        ("Connection".to_string(), b"close".to_vec()),
        ("X-Session-Id".to_string(), b"s".to_vec()),
        ("X-Proxy-Target".to_string(), b"http://o".to_vec()),
        ("Accept".to_string(), b"*/*".to_vec()),
    ];
    let (outbound, _fwd, _save) = match mgr.process_request("s", &req).unwrap() {
        ProcessOutcome::Forward(o, f, s) => (o, f, s),
        _ => panic!("record mode should forward"),
    };
    let names: Vec<String> = outbound.headers.iter().map(|h| h.0.to_lowercase()).collect();
    assert!(!names.iter().any(|n| n == "connection"));
    assert!(!names.iter().any(|n| n.starts_with("x-session")));
    assert!(names.iter().any(|n| n == "accept"));
}

#[test]
fn filesystem_record_hands_back_the_interaction() {
    let mut mgr = SessionManager::new(
        StorageBackend::FileSystem(api_simulator::storage::FileSystemStorage::new("/tmp/rec")),
        None,
    );
    mgr.create_session("fs1".to_string()).unwrap();
    let mut req = get("/a");
    req.headers.push(("X-Proxy-Target".to_string(), b"http://origin.test".to_vec()));
    let (_outbound, fwd, save) = match mgr.process_request("fs1", &req).unwrap() {
        ProcessOutcome::Forward(o, f, s) => (o, f, s),
        _ => panic!("record mode should forward"),
    };
    let out = mgr.complete_forward("fs1", &fwd, upstream_ok(b"body"), save).unwrap();
    let interaction = out.to_persist.expect("filesystem capture is handed back");
    assert_eq!(interaction.request.method, "GET");
    assert_eq!(interaction.request.uri, "/a");
    assert_eq!(interaction.response.status, 200);
    assert_eq!(interaction.response.body, b"body".to_vec());
    assert_eq!(interaction.id.len(), 36);
}

#[test]
fn control_plane_create_and_list() {
    let mut mgr = memory_manager();
    let payload = CreateSessionPayload { session_id: "x".to_string() };
    let (status, body) = create_session_op(&mut mgr, &payload);
    assert_eq!(status, 201);
    assert_eq!(body, "");
    assert!(mgr.list_sessions().iter().any(|s| s == "x"));

    let (again, msg) = create_session_op(&mut mgr, &payload);
    assert_eq!(again, 500);
    assert_eq!(msg, "Session already exists");

    let empty = CreateSessionPayload { session_id: String::new() };
    let (bad, msg) = create_session_op(&mut mgr, &empty);
    assert_eq!(bad, 400);
    assert_eq!(msg, "Missing session_id field");
}

#[test]
fn control_plane_delete() {
    let mut mgr = memory_manager();
    mgr.create_session("x".to_string()).unwrap();
    let (status, body) = delete_session_op(&mut mgr, "x");
    assert_eq!(status, 204);
    assert_eq!(body, "");
    let (missing, msg) = delete_session_op(&mut mgr, "x");
    assert_eq!(missing, 500);
    assert_eq!(msg, "Session not found");
}

#[test]
fn routing_recognizes_control_paths() {
    assert!(matches!(route_request("GET", "/__api_simulator/info"), RouteDecision::Info));
    assert!(matches!(
        route_request("GET", "/__api_simulator/sessions"),
        RouteDecision::ListSessions
    ));
    assert!(matches!(
        route_request("POST", "/__api_simulator/sessions"),
        RouteDecision::CreateSession
    ));
    match route_request("DELETE", "/__api_simulator/sessions/abc") {
        RouteDecision::DeleteSession(id) => assert_eq!(id, "abc"),
        _ => panic!("expected a delete route"),
    }
    assert!(matches!(route_request("GET", "/v1/items"), RouteDecision::NotControl));
    assert!(matches!(
        route_request("PATCH", "/__api_simulator/sessions"),
        RouteDecision::UnknownControl
    ));
}

#[test]
fn session_id_resolution_prefers_header_then_query() {
    let headers = vec![("X-Session-Id".to_string(), b"h1".to_vec())];
    let query = SessionQuery { session: Some("q1".to_string()) };
    assert_eq!(extract_session_id(&headers, &query), "h1");
    assert_eq!(extract_session_id(&vec![], &query), "q1");
    assert_eq!(
        extract_session_id(&vec![], &SessionQuery { session: None }),
        "default"
    );
}

#[test]
fn query_string_session_extraction() {
    assert_eq!(session_from_query("a=1&session=s2&b=2"), Some("s2".to_string()));
    assert_eq!(session_from_query("session=first&session=second"), Some("first".to_string()));
    assert_eq!(session_from_query("a=1&b=2"), None);
    assert_eq!(session_from_query(""), None);
    assert_eq!(session_from_query("session="), Some(String::new()));
}

#[test]
fn data_plane_auto_creates_sessions() {
    let mut app_config = AppConfig::default();
    app_config.proxy.default_target = "http://origin.test".to_string();
    let mut mgr = SessionManager::new(
        StorageBackend::Memory(MemoryStorage::new()),
        Some(app_config),
    );
    let mut req = get("/any");
    req.headers.push(("X-Session-Id".to_string(), b"auto1".to_vec()));
    let (sid, outcome) = handle_api_request(&mut mgr, &req);
    assert_eq!(sid, "auto1");
    assert!(mgr.session_exists("auto1"));
    assert!(mgr.list_sessions().iter().any(|s| s == "auto1"));
    // The fresh session starts in record mode with the default target.
    match outcome.unwrap() {
        ProcessOutcome::Forward(o, fwd, save) => {
            assert!(save);
            assert_eq!(o.url, "http://origin.test/any");
            assert_eq!(fwd.body, Vec::<u8>::new());
        },
        _ => panic!("the auto-created session should forward"),
    }
}

#[test]
fn session_config_snapshot_and_update() {
    let mut mgr = memory_manager();
    mgr.create_session("s".to_string()).unwrap();
    let cfg = mgr.get_session_config("s").unwrap();
    assert_eq!(cfg.mode, SessionMode::Record);
    assert!(cfg.target_url.is_none());
    let mut newcfg = SessionConfig::default();
    newcfg.mode = SessionMode::Replay;
    mgr.update_session_config("s", newcfg).unwrap();
    assert_eq!(mgr.get_session_config("s").unwrap().mode, SessionMode::Replay);
    assert_eq!(
        mgr.get_session_config("missing").unwrap_err(),
        SimError::NotFound
    );
    assert_eq!(
        mgr.update_session_config("missing", SessionConfig::default()).unwrap_err(),
        SimError::NotFound
    );
}

#[test]
fn error_dispositions() {
    assert_eq!(SimError::MatcherMiss.status_code(), 404);
    assert_eq!(SimError::MatcherMiss.message(), "No matching interaction found");
    assert_eq!(SimError::AlreadyExists.status_code(), 500);
    assert_eq!(SimError::NotFound.status_code(), 500);
    assert_eq!(SimError::BodyTooLarge.status_code(), 500);
    assert_eq!(SimError::EncodingError.status_code(), 500);
    assert_eq!(SimError::NoTarget.status_code(), 500);
    assert_eq!(SimError::UpstreamError.status_code(), 500);
    assert_eq!(SimError::StorageError.status_code(), 500);
}

#[test]
fn dynamic_rules_rewrite_the_forwarded_body() {
    let mut mgr = memory_manager();
    mgr.create_session("d1".to_string()).unwrap();
    let cfg = SessionConfig {
        mode: SessionMode::Record,
        target_url: Some("http://origin.test".to_string()),
        dynamic_patterns: vec![DynamicPattern {
            pattern: "id-[0-9]+".to_string(),
            generator: "token".to_string(),
            params: vec![],
        }],
    };
    mgr.update_session_config("d1", cfg).unwrap();
    let mut req = get("/a");
    req.method = "POST".to_string();
    req.body = b"id-41 id-41".to_vec();
    let (outbound, fwd, save) = match mgr.process_request("d1", &req).unwrap() {
        ProcessOutcome::Forward(o, f, s) => (o, f, s),
        _ => panic!("record mode should forward"),
    };
    assert!(save);
    assert_eq!(fwd.body, b"token token".to_vec());
    assert_eq!(outbound.body, b"token token".to_vec());
    // The chosen replacement is recorded in the session's table.
    mgr.complete_forward("d1", &fwd, upstream_ok(b"ok"), save).unwrap();
    match &mgr.storage {
        StorageBackend::Memory(m) => {
            let stored = m.get_interactions("d1").unwrap();
            assert_eq!(stored.len(), 1);
            assert_eq!(stored[0].0.body, b"token token".to_vec());
        },
        _ => panic!("expected the memory backend"),
    }
}
