//! The HTTP boundary: session-id resolution, the reserved control-plane
//! routes, and the data-plane entry that auto-creates sessions.

use vstd::prelude::*;
use vstd::utf8::{decode_utf8, valid_utf8};
use crate::errors::SimError;
use crate::forward::{find_header, lookup_header};
use crate::models::{
    CreateSessionPayload, HttpRequest, HttpRequestView, SessionConfigView, SessionMode,
    SessionQuery, MAX_BODY_SIZE,
};
use crate::dynamic::{spec_pattern_texts, spec_pattern_texts_view};
use crate::registry::{ProcessOutcome, SessionManager};
use crate::text::{
    bytes_eq, bytes_to_string, bytes_to_vec, find_byte, lemma_find_byte, find_byte_in, sbytes,
    starts_with_bytes, upper_bytes, upper_bytes_vec,
};

verus! {

/// The session id chosen by header or query fallback: the first
/// `X-Session-Id` header when its value is UTF-8, else the `session`
/// query parameter, else the literal `default`.
pub open spec fn spec_session_id(
    headers: Seq<(Seq<char>, Seq<u8>)>,
    query: Option<Seq<char>>,
) -> Seq<char> {
    match find_header(headers, sbytes("x-session-id"@)) {
        Some(i) => {
            if valid_utf8(headers[i].1) {
                decode_utf8(headers[i].1)
            } else {
                spec_session_id_fallback(query)
            }
        },
        None => spec_session_id_fallback(query),
    }
}

/// The query parameter, or the default session id.
pub open spec fn spec_session_id_fallback(query: Option<Seq<char>>) -> Seq<char> {
    match query {
        Some(s) => s,
        None => "default"@,
    }
}

/// Resolves the session id for a request from its headers and parsed
/// query parameters.
pub fn extract_session_id(headers: &Vec<(String, Vec<u8>)>, query: &SessionQuery) -> (r: String)
    ensures
        r@ == spec_session_id(headers.deep_view(), query.session.deep_view()),
{
    broadcast use vstd::utf8::decode_utf8_encode_utf8;

    match lookup_header(headers, "x-session-id") {
        Some(v) => {
            match bytes_to_string(bytes_to_vec(v.as_slice())) {
                Some(s) => {
                    return s;
                },
                None => {},
            }
        },
        None => {},
    }
    match &query.session {
        Some(s) => s.clone(),
        None => "default".to_owned(),
    }
}

/// The value of the first `session=` pair in a query string, as raw
/// bytes; pairs are separated by `&` and split at their first `=`.
pub open spec fn spec_query_session(q: Seq<u8>) -> Option<Seq<u8>>
    decreases q.len(),
{
    match find_byte(q, 38) {
        Some(k) => {
            if 0 <= k < q.len() {
                let seg = q.subrange(0, k);
                match spec_segment_session(seg) {
                    Some(v) => Some(v),
                    None => spec_query_session(q.subrange(k + 1, q.len() as int)),
                }
            } else {
                None
            }
        },
        None => spec_segment_session(q),
    }
}

/// The value of one `key=value` segment when its key is `session`.
pub open spec fn spec_segment_session(seg: Seq<u8>) -> Option<Seq<u8>> {
    match find_byte(seg, 61) {
        Some(e) => {
            if seg.subrange(0, e) == sbytes("session"@) {
                Some(seg.subrange(e + 1, seg.len() as int))
            } else {
                None
            }
        },
        None => None,
    }
}

/// Extracts the `session` query parameter from a raw query string.
///
/// Returns nothing when the parameter is absent or its value is not
/// valid UTF-8.
pub fn session_from_query(query: &str) -> (r: Option<String>)
    ensures
        match spec_query_session(sbytes(query@)) {
            Some(v) => {
                if valid_utf8(v) {
                    r matches Some(s) && sbytes(s@) == v
                } else {
                    r is None
                }
            },
            None => r is None,
        },
{
    broadcast use vstd::utf8::decode_utf8_encode_utf8;

    let a = query.as_bytes();
    let n = a.len();
    let mut lo: usize = 0;
    proof {
        assert(a@.subrange(0, n as int) =~= a@);
    }
    while lo <= n
        invariant
            a@ == sbytes(query@),
            n == a.len(),
            0 <= lo <= n,
            spec_query_session(a@) == spec_query_session(a@.subrange(lo as int, n as int)),
        decreases n + 1 - lo,
    {
        let ghost rest = a@.subrange(lo as int, n as int);
        let seg_end: usize = match find_byte_in(&a[lo..n], 38) {
            Some(k) => {
                proof {
                    lemma_find_byte(rest, 38);
                }
                lo + k
            },
            None => n,
        };
        let ghost seg = a@.subrange(lo as int, seg_end as int);
        proof {
            assert(rest.subrange(0, seg_end - lo) =~= seg);
            if seg_end < n {
                assert(rest.subrange(seg_end - lo + 1, rest.len() as int) =~= a@.subrange(
                    seg_end + 1,
                    n as int,
                ));
            } else {
                assert(seg =~= rest);
            }
        }
        // Examine this segment.
        let er = find_byte_in(&a[lo..seg_end], 61);
        proof {
            assert(a@.subrange(lo as int, seg_end as int) == seg);
        }
        match er {
            Some(e) => {
                proof {
                    lemma_find_byte(seg, 61);
                    assert(seg.subrange(0, e as int) =~= a@.subrange(lo as int, lo + e));
                    assert(seg.subrange(e + 1, seg.len() as int) =~= a@.subrange(
                        lo + e + 1,
                        seg_end as int,
                    ));
                }
                let hit = bytes_eq(&a[lo..lo + e], "session".as_bytes());
                if hit {
                    let v = bytes_to_vec(&a[lo + e + 1..seg_end]);
                    proof {
                        assert(spec_segment_session(seg) == Some(
                            a@.subrange(lo + e + 1, seg_end as int),
                        ));
                        assert(spec_query_session(rest) == Some(
                            a@.subrange(lo + e + 1, seg_end as int),
                        ));
                    }
                    let r = bytes_to_string(v);
                    proof {
                        match r {
                            Some(ref rs) => {
                                vstd::utf8::decode_utf8_encode_utf8(v@);
                            },
                            None => {},
                        }
                    }
                    return r;
                }
                proof {
                    assert(seg.subrange(0, e as int) != sbytes("session"@));
                    assert(spec_segment_session(seg) is None);
                }
            },
            None => {
                proof {
                    assert(spec_segment_session(seg) is None);
                }
            },
        }
        if seg_end == n {
            proof {
                assert(spec_query_session(rest) is None);
            }
            return None;
        }
        proof {
            assert(spec_query_session(rest) == spec_query_session(
                a@.subrange(seg_end + 1, n as int),
            ));
        }
        lo = seg_end + 1;
    }
    proof {
        assert(false);
    }
    None
}

/// A recognized route at the HTTP boundary.
pub enum RouteDecision {
    /// `GET` on the control-plane info path.
    Info,
    /// `GET` on the control-plane sessions path.
    ListSessions,
    /// `POST` on the control-plane sessions path.
    CreateSession,
    /// `DELETE` on a control-plane session path; carries the session id.
    DeleteSession(String),
    /// Under the control-plane prefix, but no recognized operation.
    UnknownControl,
    /// Outside the control-plane prefix: a data-plane request.
    NotControl,
}

/// Whether `p` begins with the control-plane prefix.
pub open spec fn spec_is_control_path(p: Seq<u8>) -> bool {
    let pre = sbytes("/__api_simulator"@);
    p.len() >= pre.len() && p.subrange(0, pre.len() as int) == pre
}

/// Routes a request by method and path: requests outside the reserved
/// prefix are data-plane; under it, the info, session-list,
/// session-creation and session-deletion operations are recognized.
pub fn route_request(method: &str, path: &str) -> (r: RouteDecision)
    ensures
        ({
            let p = sbytes(path@);
            let m = upper_bytes(sbytes(method@));
            let dp = sbytes("/__api_simulator/sessions/"@);
            &&& (r is NotControl <==> !spec_is_control_path(p))
            &&& (r is Info <==> spec_is_control_path(p) && p == sbytes("/__api_simulator/info"@)
                && m == sbytes("GET"@))
            &&& (r is ListSessions <==> spec_is_control_path(p) && p == sbytes(
                "/__api_simulator/sessions"@,
            ) && m == sbytes("GET"@))
            &&& (r is CreateSession <==> spec_is_control_path(p) && p == sbytes(
                "/__api_simulator/sessions"@,
            ) && m == sbytes("POST"@))
            &&& (r matches RouteDecision::DeleteSession(id) ==> m == sbytes("DELETE"@)
                && p.len() > dp.len() && p.subrange(0, dp.len() as int) == dp && sbytes(id@)
                == p.subrange(dp.len() as int, p.len() as int))
            &&& (spec_is_control_path(p) && m == sbytes("DELETE"@) && p.len() > dp.len()
                && p.subrange(0, dp.len() as int) == dp && valid_utf8(
                p.subrange(dp.len() as int, p.len() as int),
            ) ==> r is DeleteSession)
        }),
{
    broadcast use vstd::utf8::decode_utf8_encode_utf8;

    proof {
        reveal_strlit("/__api_simulator");
        reveal_strlit("/__api_simulator/info");
        reveal_strlit("/__api_simulator/sessions");
        reveal_strlit("/__api_simulator/sessions/");
        reveal_strlit("GET");
        reveal_strlit("POST");
        reveal_strlit("DELETE");
        assert(vstd::utf8::is_ascii_chars("/__api_simulator"@));
        assert(vstd::utf8::is_ascii_chars("/__api_simulator/info"@));
        assert(vstd::utf8::is_ascii_chars("/__api_simulator/sessions"@));
        assert(vstd::utf8::is_ascii_chars("/__api_simulator/sessions/"@));
        assert(vstd::utf8::is_ascii_chars("GET"@));
        assert(vstd::utf8::is_ascii_chars("POST"@));
        assert(vstd::utf8::is_ascii_chars("DELETE"@));
        vstd::utf8::is_ascii_chars_encode_utf8("/__api_simulator"@);
        vstd::utf8::is_ascii_chars_encode_utf8("/__api_simulator/info"@);
        vstd::utf8::is_ascii_chars_encode_utf8("/__api_simulator/sessions"@);
        vstd::utf8::is_ascii_chars_encode_utf8("/__api_simulator/sessions/"@);
        vstd::utf8::is_ascii_chars_encode_utf8("GET"@);
        vstd::utf8::is_ascii_chars_encode_utf8("POST"@);
        vstd::utf8::is_ascii_chars_encode_utf8("DELETE"@);
        assert(sbytes("/__api_simulator"@).len() == 16);
        assert(sbytes("/__api_simulator/info"@).len() == 21);
        assert(sbytes("/__api_simulator/sessions"@).len() == 25);
        assert(sbytes("/__api_simulator/sessions/"@).len() == 26);
        assert(sbytes("GET"@).len() == 3);
        assert(sbytes("POST"@).len() == 4);
        assert(sbytes("DELETE"@).len() == 6);
        assert(sbytes("/__api_simulator/info"@).subrange(0, 16) =~= sbytes("/__api_simulator"@));
        assert(sbytes("/__api_simulator/sessions"@).subrange(0, 16) =~= sbytes(
            "/__api_simulator"@,
        ));
        assert(sbytes("/__api_simulator/sessions/"@).subrange(0, 16) =~= sbytes(
            "/__api_simulator"@,
        ));
    }
    let p = path.as_bytes();
    if !starts_with_bytes(p, "/__api_simulator".as_bytes()) {
        return RouteDecision::NotControl;
    }
    let mu = upper_bytes_vec(method.as_bytes());
    let get = bytes_eq(mu.as_slice(), "GET".as_bytes());
    let post = bytes_eq(mu.as_slice(), "POST".as_bytes());
    let delete = bytes_eq(mu.as_slice(), "DELETE".as_bytes());
    if get && bytes_eq(p, "/__api_simulator/info".as_bytes()) {
        return RouteDecision::Info;
    }
    if bytes_eq(p, "/__api_simulator/sessions".as_bytes()) {
        if get {
            return RouteDecision::ListSessions;
        }
        if post {
            return RouteDecision::CreateSession;
        }
        return RouteDecision::UnknownControl;
    }
    let dp = "/__api_simulator/sessions/".as_bytes();
    if delete && p.len() > dp.len() && starts_with_bytes(p, dp) {
        let suffix = bytes_to_vec(&p[dp.len()..p.len()]);
        match bytes_to_string(suffix) {
            Some(id) => {
                return RouteDecision::DeleteSession(id);
            },
            None => {
                return RouteDecision::UnknownControl;
            },
        }
    }
    RouteDecision::UnknownControl
}

/// Serves the control-plane session-creation call: 400 for a missing or
/// empty id, 201 with an empty body on success, 500 when the session
/// already exists.
pub fn create_session_op(mgr: &mut SessionManager, payload: &CreateSessionPayload) -> (r: (
    u16,
    String,
))
    requires
        old(mgr).wf(),
    ensures
        final(mgr).wf(),
        payload.session_id@.len() == 0 ==> r.0 == 400 && *final(mgr) == *old(mgr) && r.1@
            == "Missing session_id field"@,
        payload.session_id@.len() > 0 && old(mgr).has_session(payload.session_id@) ==> r.0 == 500
            && *final(mgr) == *old(mgr) && r.1@ == SimError::AlreadyExists.spec_message(),
        payload.session_id@.len() > 0 && !old(mgr).has_session(payload.session_id@) ==> r.0 == 201
            && final(mgr).has_session(payload.session_id@) && final(mgr).session_at(
            payload.session_id@,
        ).config.mode == SessionMode::Record && r.1@ == Seq::<char>::empty(),
    {
    if payload.session_id.as_str().is_empty() {
        return (400, "Missing session_id field".to_owned());
    }
    match mgr.create_session(payload.session_id.clone()) {
        Ok(()) => (201, String::new()),
        Err(e) => (500, e.message()),
    }
}

/// Serves the control-plane session-deletion call: 204 with an empty
/// body on success, 500 for an unknown session.
pub fn delete_session_op(mgr: &mut SessionManager, id: &str) -> (r: (u16, String))
    requires
        old(mgr).wf(),
    ensures
        final(mgr).wf(),
        old(mgr).has_session(id@) ==> r.0 == 204 && !final(mgr).has_session(id@) && r.1@ == Seq::<
            char,
        >::empty(),
        !old(mgr).has_session(id@) ==> r.0 == 500 && *final(mgr) == *old(mgr) && r.1@
            == SimError::NotFound.spec_message(),
{
    match mgr.delete_session(id) {
        Ok(()) => (204, String::new()),
        Err(e) => (500, e.message()),
    }
}

/// The session id a data-plane request resolves to, after parsing its
/// query string.
pub open spec fn spec_data_session_id(rv: HttpRequestView) -> Seq<char> {
    let qs: Option<Seq<char>> = match rv.query {
        Some(q) => match spec_query_session(sbytes(q)) {
            Some(v) => if valid_utf8(v) {
                Some(decode_utf8(v))
            } else {
                None
            },
            None => None,
        },
        None => None,
    };
    spec_session_id(rv.headers, qs)
}

/// Serves a data-plane request: resolves the session id, creates the
/// session with defaults if it does not exist yet, and dispatches the
/// request to it.  Returns the id together with the pipeline's outcome.
pub fn handle_api_request(mgr: &mut SessionManager, req: &HttpRequest) -> (r: (
    String,
    Result<ProcessOutcome, SimError>,
))
    requires
        old(mgr).wf(),
    ensures
        final(mgr).wf(),
        r.0@ == spec_data_session_id(req@),
        final(mgr).has_session(r.0@),
        final(mgr).app_config == old(mgr).app_config,
        ({
            let sid = spec_data_session_id(req@);
            let existed = old(mgr).has_session(sid);
            let cfgv = if existed {
                old(mgr).session_at(sid).config@
            } else {
                SessionConfigView {
                    mode: SessionMode::Record,
                    target_url: old(mgr).spec_default_target(),
                    dynamic_patterns: Seq::empty(),
                }
            };
            let mode = cfgv.mode;
            let rewritten = crate::dynamic::spec_rewritten_body(
                req.body@,
                crate::dynamic::spec_pattern_texts_view(cfgv.dynamic_patterns),
                final(mgr).session_at(sid).dynamic_values@,
            );
            &&& (mode == SessionMode::Record || mode == SessionMode::Passthrough) ==> ({
                let pats_empty = cfgv.dynamic_patterns.len() == 0;
                &&& (crate::forward::spec_target_url(req@, cfgv) is None <==> (r.1 matches Err(e)
                    && e == SimError::NoTarget))
                &&& (r.1 matches Err(e) ==> e == SimError::NoTarget || e == SimError::BodyTooLarge)
                &&& (crate::forward::spec_target_url(req@, cfgv) is Some ==> (r.1 is Ok <==>
                rewritten.len() <= MAX_BODY_SIZE))
                &&& (r.1 matches Ok(out) ==> out matches ProcessOutcome::Forward(o, fwd, save)
                    && ({
                    &&& save == (mode == SessionMode::Record)
                    &&& o@.url == crate::forward::spec_forward_url(
                        crate::forward::spec_target_url(req@, cfgv)->0,
                        req@,
                    )
                    &&& o@.method == req@.method
                    &&& o@.headers == crate::headers::spec_sanitize(req@.headers)
                    &&& o@.body == fwd@.body
                    &&& fwd@ == (crate::models::HttpRequestView { body: rewritten, ..req@ })
                    &&& (pats_empty ==> fwd@.body == req@.body)
                }))
            })
            &&& (valid_utf8(req.body@) ==> crate::dynamic::spec_captures_recorded(
                decode_utf8(req.body@),
                crate::dynamic::spec_pattern_texts_view(cfgv.dynamic_patterns),
                final(mgr).session_at(sid).dynamic_values@,
            ))
            &&& mode == SessionMode::Replay ==> ({
                &&& (old(mgr).storage matches crate::storage::StorageBackend::Memory(m) ==> (
                r.1 matches Ok(out) && out matches ProcessOutcome::Respond(resp) && resp@
                    == crate::registry::spec_replay_on_stored(
                    m.interactions_of(sid),
                    req@.method,
                    req@.path,
                )))
                &&& (old(mgr).storage matches crate::storage::StorageBackend::FileSystem(f) ==> (
                r.1 matches Ok(out) && out is FetchInteractions))
            })
        }),
{
    let qs: Option<String> = match &req.query {
        Some(q) => session_from_query(q.as_str()),
        None => None,
    };
    proof {
        match qs {
            Some(ref s) => {
                vstd::utf8::encode_utf8_decode_utf8(s@);
            },
            None => {},
        }
    }
    let query = SessionQuery { session: qs };
    let session_id = extract_session_id(&req.headers, &query);
    proof {
        assert(session_id@ == spec_data_session_id(req@));
    }
    if !mgr.session_exists(session_id.as_str()) {
        let cr = mgr.create_session(session_id.clone());
        proof {
            assert(cr is Ok);
            assert((*mgr).session_at(session_id@).config@.dynamic_patterns =~= Seq::<
                crate::models::DynamicPatternView,
            >::empty());
        }
    }
    let ghost pre = *mgr;
    let outcome = mgr.process_request(session_id.as_str(), req);
    proof {
        let sid = spec_data_session_id(req@);
        let cfg = pre.session_at(sid).config;
        // The configuration the pipeline ran under is `cfgv` of the
        // contract: the session's own for an existing id, the created
        // default otherwise.
        let cfgv = if old(mgr).has_session(sid) {
            old(mgr).session_at(sid).config@
        } else {
            SessionConfigView {
                mode: SessionMode::Record,
                target_url: old(mgr).spec_default_target(),
                dynamic_patterns: Seq::empty(),
            }
        };
        assert(cfg@ =~= cfgv);
        assert(spec_pattern_texts(cfg.dynamic_patterns@) =~= spec_pattern_texts_view(
            cfgv.dynamic_patterns,
        )) by {
            assert forall|j: int| 0 <= j < cfg.dynamic_patterns@.len() implies spec_pattern_texts(
                cfg.dynamic_patterns@,
            )[j] == spec_pattern_texts_view(cfgv.dynamic_patterns)[j] by {
                assert(cfg@.dynamic_patterns[j].pattern == cfg.dynamic_patterns@[j].pattern@);
            }
        }
        assert(cfg.dynamic_patterns@.len() == cfgv.dynamic_patterns.len());
    }
    (session_id, outcome)
}

} // verus!
