//! Upstream forwarding: target URL resolution, the outbound request with
//! proxy header discipline applied, and the response returned to the
//! client.

use vstd::prelude::*;
use vstd::string::StringExecFns;
use vstd::utf8::{decode_utf8, valid_utf8};
use crate::errors::SimError;
use crate::headers::{
    lemma_sanitized_no_hop_by_hop, lemma_sanitized_no_session_header, sanitize_headers,
    spec_is_hop_by_hop, spec_is_session_header, spec_sanitize, spec_strip_hop, strip_hop_headers,
};
use crate::models::{HttpRequest, HttpRequestView, HttpResponse, SessionConfig, SessionConfigView, MAX_BODY_SIZE};
use crate::text::{
    bytes_eq, bytes_to_string, bytes_to_vec, lower_bytes, lower_bytes_vec, sbytes,
};

verus! {

/// A sanitized outbound request, ready for the HTTP client.
#[derive(Debug)]
pub struct OutboundRequest {
    /// Absolute URL to send to.
    pub url: String,
    /// Method, as received.
    pub method: String,
    /// Headers with hop-by-hop and session headers removed.
    pub headers: Vec<(String, Vec<u8>)>,
    /// Body bytes, verbatim.
    pub body: Vec<u8>,
}

/// The view of an [`OutboundRequest`].
#[verifier::ext_equal]
pub struct OutboundRequestView {
    pub url: Seq<char>,
    pub method: Seq<char>,
    pub headers: Seq<(Seq<char>, Seq<u8>)>,
    pub body: Seq<u8>,
}

impl View for OutboundRequest {
    type V = OutboundRequestView;

    open spec fn view(&self) -> OutboundRequestView {
        OutboundRequestView {
            url: self.url@,
            method: self.method@,
            headers: self.headers.deep_view(),
            body: self.body@,
        }
    }
}

/// Index of the first header whose lowercased name has the bytes
/// `lname`, if any.
pub open spec fn find_header(hs: Seq<(Seq<char>, Seq<u8>)>, lname: Seq<u8>) -> Option<int>
    decreases hs.len(),
{
    if hs.len() == 0 {
        None
    } else if lower_bytes(sbytes(hs[0].0)) == lname {
        Some(0int)
    } else {
        match find_header(hs.drop_first(), lname) {
            Some(i) => Some(i + 1),
            None => None,
        }
    }
}

/// What [`find_header`] finds: the least index with that lowercased
/// name, or nothing.
pub proof fn lemma_find_header(hs: Seq<(Seq<char>, Seq<u8>)>, lname: Seq<u8>)
    ensures
        match find_header(hs, lname) {
            Some(i) => 0 <= i < hs.len() && lower_bytes(sbytes(hs[i].0)) == lname && forall|j: int|
                0 <= j < i ==> lower_bytes(sbytes(hs[j].0)) != lname,
            None => forall|j: int| 0 <= j < hs.len() ==> lower_bytes(sbytes(hs[j].0)) != lname,
        },
    decreases hs.len(),
{
    if hs.len() > 0 && lower_bytes(sbytes(hs[0].0)) != lname {
        let t = hs.drop_first();
        lemma_find_header(t, lname);
        assert(forall|j: int| 0 <= j < t.len() ==> t[j] == hs[j + 1]);
        match find_header(t, lname) {
            Some(i) => {
                assert forall|j: int| 0 <= j < i + 1 implies lower_bytes(sbytes(hs[j].0))
                    != lname by {
                    if j > 0 {
                        assert(hs[j] == t[j - 1]);
                    }
                }
            },
            None => {
                assert forall|j: int| 0 <= j < hs.len() implies lower_bytes(sbytes(hs[j].0))
                    != lname by {
                    if j > 0 {
                        assert(hs[j] == t[j - 1]);
                    }
                }
            },
        }
    }
}

/// The first header with the name determines [`find_header`].
pub proof fn lemma_find_header_at(hs: Seq<(Seq<char>, Seq<u8>)>, lname: Seq<u8>, i: int)
    requires
        0 <= i < hs.len(),
        lower_bytes(sbytes(hs[i].0)) == lname,
        forall|j: int| 0 <= j < i ==> lower_bytes(sbytes(hs[j].0)) != lname,
    ensures
        find_header(hs, lname) == Some(i),
    decreases i,
{
    if i > 0 {
        let t = hs.drop_first();
        assert(forall|j: int| 0 <= j < t.len() ==> t[j] == hs[j + 1]);
        assert(t[i - 1] == hs[i]);
        assert forall|j: int| 0 <= j < i - 1 implies lower_bytes(sbytes(t[j].0)) != lname by {
            assert(t[j] == hs[j + 1]);
        }
        lemma_find_header_at(t, lname, i - 1);
    }
}

/// Finds the first header whose lowercased name equals the lowercase
/// ASCII name `lname`, returning its value bytes.
pub fn lookup_header<'a>(headers: &'a Vec<(String, Vec<u8>)>, lname: &str) -> (r: Option<
    &'a Vec<u8>,
>)
    ensures
        match r {
            Some(v) => find_header(headers.deep_view(), sbytes(lname@)) matches Some(i) && v@
                == headers.deep_view()[i].1,
            None => find_header(headers.deep_view(), sbytes(lname@)) is None,
        },
{
    let ghost hs = headers.deep_view();
    let n = headers.len();
    let mut i: usize = 0;
    while i < n
        invariant
            n == headers.len(),
            hs == headers.deep_view(),
            hs.len() == n,
            0 <= i <= n,
            forall|j: int|
                0 <= j < i ==> lower_bytes(sbytes((#[trigger] hs[j]).0)) != sbytes(lname@),
        decreases n - i,
    {
        let low = lower_bytes_vec(headers[i].0.as_str().as_bytes());
        if bytes_eq(low.as_slice(), lname.as_bytes()) {
            proof {
                assert(hs[i as int].0 == headers@[i as int].0@);
                lemma_find_header_at(hs, sbytes(lname@), i as int);
            }
            return Some(&headers[i].1);
        }
        proof {
            assert(hs[i as int].0 == headers@[i as int].0@);
        }
        i += 1;
    }
    proof {
        lemma_find_header(hs, sbytes(lname@));
        match find_header(hs, sbytes(lname@)) {
            Some(k) => {
                assert(lower_bytes(sbytes(hs[k].0)) == sbytes(lname@));
                assert(false);
            },
            None => {},
        }
    }
    None
}

/// The upstream target URL of a request, resolved in order: the
/// `X-Proxy-Target` header, the session's configured target, the `Host`
/// header with the request's scheme (or `http`), and last the URI
/// authority with the same scheme.
pub open spec fn spec_target_url(req: HttpRequestView, config: SessionConfigView) -> Option<
    Seq<char>,
> {
    match find_header(req.headers, sbytes("x-proxy-target"@)) {
        Some(i) => {
            if valid_utf8(req.headers[i].1) {
                Some(decode_utf8(req.headers[i].1))
            } else {
                spec_target_from_config(req, config)
            }
        },
        None => spec_target_from_config(req, config),
    }
}

/// Second resolution step: the session's configured target, when
/// non-empty.
pub open spec fn spec_target_from_config(req: HttpRequestView, config: SessionConfigView) -> Option<
    Seq<char>,
> {
    match config.target_url {
        Some(t) => {
            if t.len() > 0 {
                Some(t)
            } else {
                spec_target_from_host(req)
            }
        },
        None => spec_target_from_host(req),
    }
}

/// The request's scheme, or `http` when the wire URI was not absolute.
pub open spec fn spec_req_scheme(req: HttpRequestView) -> Seq<char> {
    if req.scheme is Some {
        req.scheme->0
    } else {
        "http"@
    }
}

/// Third and fourth resolution steps: the `Host` header, then the URI
/// authority, each under the request's scheme.
pub open spec fn spec_target_from_host(req: HttpRequestView) -> Option<Seq<char>> {
    let scheme = spec_req_scheme(req);
    match find_header(req.headers, sbytes("host"@)) {
        Some(i) => {
            if valid_utf8(req.headers[i].1) {
                Some(scheme + "://"@ + decode_utf8(req.headers[i].1))
            } else {
                spec_target_from_authority(req)
            }
        },
        None => spec_target_from_authority(req),
    }
}

/// Last resolution step: the URI authority under the request's scheme.
pub open spec fn spec_target_from_authority(req: HttpRequestView) -> Option<Seq<char>> {
    match req.authority {
        Some(a) => Some(spec_req_scheme(req) + "://"@ + a),
        None => None,
    }
}

/// Resolves the upstream target URL for a request.
pub fn extract_target_url(req: &HttpRequest, config: &SessionConfig) -> (r: Option<String>)
    ensures
        r is Some <==> spec_target_url(req@, config@) is Some,
        r matches Some(u) ==> u@ == spec_target_url(req@, config@)->0,
{
    broadcast use vstd::utf8::decode_utf8_encode_utf8;

    match lookup_header(&req.headers, "x-proxy-target") {
        Some(v) => {
            match bytes_to_string(bytes_to_vec(v.as_slice())) {
                Some(s) => {
                    return Some(s);
                },
                None => {},
            }
        },
        None => {},
    }
    match &config.target_url {
        Some(t) => {
            proof {
                assert(config@.target_url == Some(t@));
            }
            if !t.as_str().is_empty() {
                return Some(t.clone());
            }
        },
        None => {},
    }
    let mut base = String::new();
    match &req.scheme {
        Some(s) => base.append(s.as_str()),
        None => base.append("http"),
    }
    base.append("://");
    match lookup_header(&req.headers, "host") {
        Some(v) => {
            match bytes_to_string(bytes_to_vec(v.as_slice())) {
                Some(h) => {
                    base.append(h.as_str());
                    proof {
                        assert(base@ =~= spec_req_scheme(req@) + "://"@ + h@);
                    }
                    return Some(base);
                },
                None => {},
            }
        },
        None => {},
    }
    match &req.authority {
        Some(a) => {
            base.append(a.as_str());
            proof {
                assert(base@ =~= spec_req_scheme(req@) + "://"@ + a@);
            }
            Some(base)
        },
        None => None,
    }
}

/// The URL a request is forwarded to: the target base followed by the
/// request's path and query.
pub open spec fn spec_forward_url(target: Seq<char>, req: HttpRequestView) -> Seq<char> {
    target + req.path + (match req.query {
        Some(q) => "?"@ + q,
        None => Seq::<char>::empty(),
    })
}

/// Composes the forward URL from a target base and a request.
pub fn build_forward_url(target: &str, req: &HttpRequest) -> (r: String)
    ensures
        r@ == spec_forward_url(target@, req@),
{
    let mut u = target.to_owned();
    u.append(req.path.as_str());
    match &req.query {
        Some(q) => {
            u.append("?");
            u.append(q.as_str());
        },
        None => {},
    }
    proof {
        assert(u@ =~= spec_forward_url(target@, req@));
    }
    u
}

/// Builds the sanitized outbound request for the upstream: the forward
/// URL from the resolved target, the same method and body, and the
/// headers with hop-by-hop and session-selection names removed.
///
/// Fails with `NoTarget` when no target URL can be resolved, and with
/// `BodyTooLarge` when the buffered body exceeds the ceiling.
pub fn prepare_forward(req: &HttpRequest, config: &SessionConfig) -> (r: Result<
    OutboundRequest,
    SimError,
>)
    ensures
        spec_target_url(req@, config@) is None <==> (r matches Err(e) && e == SimError::NoTarget),
        spec_target_url(req@, config@) is Some && req.body@.len() > MAX_BODY_SIZE ==> (r matches
            Err(e) && e == SimError::BodyTooLarge),
        r is Ok <==> spec_target_url(req@, config@) is Some && req.body@.len() <= MAX_BODY_SIZE,
        r matches Ok(o) ==> ({
            &&& o@.url == spec_forward_url(spec_target_url(req@, config@)->0, req@)
            &&& o@.method == req@.method
            &&& o@.headers == spec_sanitize(req@.headers)
            &&& o@.body == req@.body
            &&& forall|i: int|
                0 <= i < o@.headers.len() ==> !spec_is_hop_by_hop(
                    (#[trigger] o@.headers[i]).0,
                ) && !spec_is_session_header(o@.headers[i].0)
        }),
{
    let target = match extract_target_url(req, config) {
        Some(t) => t,
        None => {
            return Err(SimError::NoTarget);
        },
    };
    if req.body.len() > MAX_BODY_SIZE {
        return Err(SimError::BodyTooLarge);
    }
    let url = build_forward_url(target.as_str(), req);
    let headers = sanitize_headers(&req.headers);
    let body = bytes_to_vec(req.body.as_slice());
    let o = OutboundRequest { url, method: req.method.clone(), headers, body };
    proof {
        lemma_sanitized_no_hop_by_hop(req@.headers);
        lemma_sanitized_no_session_header(req@.headers);
    }
    Ok(o)
}

/// The view of a request after sanitizing its headers for forwarding or
/// capture.
pub open spec fn spec_sanitized_request(r: HttpRequestView) -> HttpRequestView {
    HttpRequestView { headers: spec_sanitize(r.headers), ..r }
}

/// Sanitizing a well-formed request keeps it well-formed: the URI and
/// body are untouched and the kept header values are a sublist of the
/// old ones.
pub proof fn lemma_sanitized_preserves_wf(r: HttpRequestView)
    requires
        crate::codec::wf_request(r),
    ensures
        crate::codec::wf_request(spec_sanitized_request(r)),
{
    let pred = |h: (Seq<char>, Seq<u8>)| crate::headers::spec_forwardable(h.0);
    let kept = spec_sanitize(r.headers);
    assert forall|i: int|
        0 <= i < kept.len() implies vstd::utf8::valid_utf8(#[trigger] kept[i].1) by {
        let h = kept[i];
        assert(kept.contains(h));
        r.headers.lemma_filter_contains_rev(pred, h);
        let j = choose|j: int| 0 <= j < r.headers.len() && r.headers[j] == h;
        assert(vstd::utf8::valid_utf8(r.headers[j].1));
    }
}

/// A copy of a request with hop-by-hop and session-selection headers
/// removed; everything else is kept.
pub fn sanitized_request(req: &HttpRequest) -> (r: HttpRequest)
    ensures
        r@ == spec_sanitized_request(req@),
{
    let r = HttpRequest {
        method: req.method.clone(),
        path: req.path.clone(),
        query: match &req.query {
            Some(q) => Some(q.clone()),
            None => None,
        },
        scheme: match &req.scheme {
            Some(s) => Some(s.clone()),
            None => None,
        },
        authority: match &req.authority {
            Some(a) => Some(a.clone()),
            None => None,
        },
        headers: sanitize_headers(&req.headers),
        body: bytes_to_vec(req.body.as_slice()),
    };
    proof {
        assert(r@ =~~= spec_sanitized_request(req@));
    }
    r
}

/// Builds the response handed back to the client from an upstream
/// response: the status verbatim, the headers with hop-by-hop names
/// removed, and the body verbatim.
pub fn build_client_response(status: u16, headers: &Vec<(String, Vec<u8>)>, body: Vec<u8>) -> (r:
    HttpResponse)
    ensures
        r@.status == status,
        r@.headers == spec_strip_hop(headers.deep_view()),
        r@.body == body@,
        forall|i: int|
            0 <= i < r@.headers.len() ==> !spec_is_hop_by_hop((#[trigger] r@.headers[i]).0),
{
    let stripped = strip_hop_headers(headers);
    let r = HttpResponse { status, headers: stripped, body };
    proof {
        let pred = |h: (Seq<char>, Seq<u8>)| !spec_is_hop_by_hop(h.0);
        assert forall|i: int| 0 <= i < r@.headers.len() implies !spec_is_hop_by_hop(
            (#[trigger] r@.headers[i]).0,
        ) by {
            headers.deep_view().lemma_filter_pred(pred, i);
        }
    }
    r
}

} // verus!
