//! Data model: live and stored HTTP messages, session settings and
//! application configuration.

use vstd::prelude::*;

verus! {

/// Capture ceiling for request and response bodies, in bytes.
pub const MAX_BODY_SIZE: usize = 10 * 1024 * 1024;

/// Operation modes for a session.
#[derive(Clone, Copy, Debug, PartialEq, Eq, Structural)]
pub enum SessionMode {
    /// Forward upstream and store the interaction.
    Record,
    /// Serve from stored interactions, never forward.
    Replay,
    /// Forward upstream without storing.
    Passthrough,
}

/// A dynamic-value rule: wherever `pattern` matches a request body, the
/// match is replaced by a value chosen by `generator`.
#[derive(Debug)]
pub struct DynamicPattern {
    /// Regular expression source text.
    pub pattern: String,
    /// Generator name: `consistent_random`, `increment`, or a literal.
    pub generator: String,
    /// Extra generator parameters.
    pub params: Vec<(String, String)>,
}

/// The view of a [`DynamicPattern`].
#[verifier::ext_equal]
pub struct DynamicPatternView {
    pub pattern: Seq<char>,
    pub generator: Seq<char>,
    pub params: Seq<(Seq<char>, Seq<char>)>,
}

impl View for DynamicPattern {
    type V = DynamicPatternView;

    open spec fn view(&self) -> DynamicPatternView {
        DynamicPatternView {
            pattern: self.pattern@,
            generator: self.generator@,
            params: self.params.deep_view(),
        }
    }
}

/// Per-session configuration.
#[derive(Debug)]
pub struct SessionConfig {
    /// Current mode.
    pub mode: SessionMode,
    /// Upstream base URL, when configured.
    pub target_url: Option<String>,
    /// Dynamic-value rules applied to request bodies.
    pub dynamic_patterns: Vec<DynamicPattern>,
}

/// The view of a [`SessionConfig`].
#[verifier::ext_equal]
pub struct SessionConfigView {
    pub mode: SessionMode,
    pub target_url: Option<Seq<char>>,
    pub dynamic_patterns: Seq<DynamicPatternView>,
}

impl View for SessionConfig {
    type V = SessionConfigView;

    open spec fn view(&self) -> SessionConfigView {
        SessionConfigView {
            mode: self.mode,
            target_url: self.target_url.deep_view(),
            dynamic_patterns: self.dynamic_patterns@.map_values(|p: DynamicPattern| p@),
        }
    }
}

impl SessionConfig {
    /// A copy with the same view.
    pub fn duplicate(&self) -> (r: SessionConfig)
        ensures
            r@ =~= self@,
    {
        let mut patterns: Vec<DynamicPattern> = Vec::new();
        let n = self.dynamic_patterns.len();
        let mut i: usize = 0;
        while i < n
            invariant
                n == self.dynamic_patterns.len(),
                0 <= i <= n,
                patterns@.len() == i,
                forall|j: int| 0 <= j < i ==> patterns@[j]@ =~= self.dynamic_patterns@[j]@,
            decreases n - i,
        {
            let p = &self.dynamic_patterns[i];
            let mut params: Vec<(String, String)> = Vec::new();
            let m = p.params.len();
            let mut k: usize = 0;
            while k < m
                invariant
                    m == p.params.len(),
                    0 <= k <= m,
                    params@.len() == k,
                    forall|j: int|
                        0 <= j < k ==> params@[j].0@ == p.params@[j].0@ && params@[j].1@
                            == p.params@[j].1@,
                decreases m - k,
            {
                params.push((p.params[k].0.clone(), p.params[k].1.clone()));
                k += 1;
            }
            proof {
                assert(params.deep_view() =~~= p.params.deep_view());
            }
            patterns.push(
                DynamicPattern {
                    pattern: p.pattern.clone(),
                    generator: p.generator.clone(),
                    params,
                },
            );
            i += 1;
        }
        let target_url = match &self.target_url {
            Some(t) => Some(t.clone()),
            None => None,
        };
        let r = SessionConfig { mode: self.mode, target_url, dynamic_patterns: patterns };
        proof {
            assert(r@.dynamic_patterns =~= self@.dynamic_patterns);
        }
        r
    }
}

impl Default for SessionConfig {
    /// Default configuration: record mode, no target, no dynamic rules.
    fn default() -> (r: SessionConfig)
        ensures
            r.mode == SessionMode::Record,
            r.target_url is None,
            r.dynamic_patterns@.len() == 0,
    {
        SessionConfig { mode: SessionMode::Record, target_url: None, dynamic_patterns: Vec::new() }
    }
}

/// A live, fully buffered HTTP request as the transport hands it in.
///
/// Header names keep their wire form; values are raw bytes.  The URI is
/// held split into its components.
#[derive(Debug)]
pub struct HttpRequest {
    /// Request method, in wire case.
    pub method: String,
    /// URI path, normally beginning with `/`.
    pub path: String,
    /// Query string without the leading `?`, when present.
    pub query: Option<String>,
    /// URI scheme, when the URI on the wire was absolute.
    pub scheme: Option<String>,
    /// URI authority, when the URI on the wire was absolute.
    pub authority: Option<String>,
    /// Headers in wire order; names may repeat.
    pub headers: Vec<(String, Vec<u8>)>,
    /// Raw body bytes.
    pub body: Vec<u8>,
}

/// The view of an [`HttpRequest`].
#[verifier::ext_equal]
pub struct HttpRequestView {
    pub method: Seq<char>,
    pub path: Seq<char>,
    pub query: Option<Seq<char>>,
    pub scheme: Option<Seq<char>>,
    pub authority: Option<Seq<char>>,
    pub headers: Seq<(Seq<char>, Seq<u8>)>,
    pub body: Seq<u8>,
}

impl View for HttpRequest {
    type V = HttpRequestView;

    open spec fn view(&self) -> HttpRequestView {
        HttpRequestView {
            method: self.method@,
            path: self.path@,
            query: self.query.deep_view(),
            scheme: self.scheme.deep_view(),
            authority: self.authority.deep_view(),
            headers: self.headers.deep_view(),
            body: self.body@,
        }
    }
}

impl HttpRequest {
    /// A copy of this request carrying a different body.
    pub fn with_body(&self, body: Vec<u8>) -> (r: HttpRequest)
        ensures
            r@ == (HttpRequestView { body: body@, ..self@ }),
    {
        let r = HttpRequest {
            method: self.method.clone(),
            path: self.path.clone(),
            query: match &self.query {
                Some(q) => Some(q.clone()),
                None => None,
            },
            scheme: match &self.scheme {
                Some(sc) => Some(sc.clone()),
                None => None,
            },
            authority: match &self.authority {
                Some(a) => Some(a.clone()),
                None => None,
            },
            headers: duplicate_headers(&self.headers),
            body,
        };
        proof {
            assert(r@ =~~= (HttpRequestView { body: r.body@, ..self@ }));
        }
        r
    }
}

/// A live, fully buffered HTTP response.
#[derive(Debug)]
pub struct HttpResponse {
    /// Status code.
    pub status: u16,
    /// Headers in wire order; names may repeat.
    pub headers: Vec<(String, Vec<u8>)>,
    /// Raw body bytes.
    pub body: Vec<u8>,
}

/// The view of an [`HttpResponse`].
#[verifier::ext_equal]
pub struct HttpResponseView {
    pub status: u16,
    pub headers: Seq<(Seq<char>, Seq<u8>)>,
    pub body: Seq<u8>,
}

impl View for HttpResponse {
    type V = HttpResponseView;

    open spec fn view(&self) -> HttpResponseView {
        HttpResponseView {
            status: self.status,
            headers: self.headers.deep_view(),
            body: self.body@,
        }
    }
}

/// A copy of a live header list with the same view.
pub fn duplicate_headers(headers: &Vec<(String, Vec<u8>)>) -> (r: Vec<(String, Vec<u8>)>)
    ensures
        r.deep_view() == headers.deep_view(),
{
    let mut out: Vec<(String, Vec<u8>)> = Vec::new();
    let n = headers.len();
    let mut i: usize = 0;
    while i < n
        invariant
            n == headers.len(),
            0 <= i <= n,
            out@.len() == i,
            forall|j: int|
                0 <= j < i ==> out@[j].0@ == headers@[j].0@ && out@[j].1@ == headers@[j].1@,
        decreases n - i,
    {
        let mut v: Vec<u8> = Vec::new();
        let value = &headers[i].1;
        let m = value.len();
        let mut k: usize = 0;
        while k < m
            invariant
                m == value.len(),
                0 <= k <= m,
                v@ == value@.subrange(0, k as int),
            decreases m - k,
        {
            v.push(value[k]);
            proof {
                assert(v@ =~= value@.subrange(0, k + 1 as int));
            }
            k += 1;
        }
        proof {
            assert(value@.subrange(0, m as int) =~= value@);
        }
        out.push((headers[i].0.clone(), v));
        i += 1;
    }
    proof {
        assert(out.deep_view() =~~= headers.deep_view());
    }
    out
}

impl HttpResponse {
    /// A copy with the same view.
    pub fn duplicate(&self) -> (r: HttpResponse)
        ensures
            r@ == self@,
    {
        let mut body: Vec<u8> = Vec::new();
        let n = self.body.len();
        let mut i: usize = 0;
        while i < n
            invariant
                n == self.body.len(),
                0 <= i <= n,
                body@ == self.body@.subrange(0, i as int),
            decreases n - i,
        {
            body.push(self.body[i]);
            proof {
                assert(body@ =~= self.body@.subrange(0, i + 1 as int));
            }
            i += 1;
        }
        proof {
            assert(self.body@.subrange(0, n as int) =~= self.body@);
        }
        let r = HttpResponse {
            status: self.status,
            headers: duplicate_headers(&self.headers),
            body,
        };
        proof {
            assert(r@ =~~= self@);
        }
        r
    }
}

/// The canonical stored form of a request.
#[derive(Debug)]
pub struct StoredRequest {
    /// Uppercased method name.
    pub method: String,
    /// Full URI string: path and query, with scheme and authority kept
    /// only if the wire URI was absolute.
    pub uri: String,
    /// Header names each mapped to the ordered list of their values; the
    /// names are unique and keep insertion order.
    pub headers: Vec<(String, Vec<String>)>,
    /// Body bytes, verbatim.
    pub body: Vec<u8>,
}

/// The view of a [`StoredRequest`].
#[verifier::ext_equal]
pub struct StoredRequestView {
    pub method: Seq<char>,
    pub uri: Seq<char>,
    pub headers: Seq<(Seq<char>, Seq<Seq<char>>)>,
    pub body: Seq<u8>,
}

impl View for StoredRequest {
    type V = StoredRequestView;

    open spec fn view(&self) -> StoredRequestView {
        StoredRequestView {
            method: self.method@,
            uri: self.uri@,
            headers: self.headers.deep_view(),
            body: self.body@,
        }
    }
}

/// The canonical stored form of a response.
#[derive(Debug)]
pub struct StoredResponse {
    /// Status code, `100..=599`.
    pub status: u16,
    /// Header names each mapped to the ordered list of their values.
    pub headers: Vec<(String, Vec<String>)>,
    /// Body bytes, verbatim.
    pub body: Vec<u8>,
}

/// The view of a [`StoredResponse`].
#[verifier::ext_equal]
pub struct StoredResponseView {
    pub status: u16,
    pub headers: Seq<(Seq<char>, Seq<Seq<char>>)>,
    pub body: Seq<u8>,
}

impl View for StoredResponse {
    type V = StoredResponseView;

    open spec fn view(&self) -> StoredResponseView {
        StoredResponseView {
            status: self.status,
            headers: self.headers.deep_view(),
            body: self.body@,
        }
    }
}

/// One captured request/response pair.
#[derive(Debug)]
pub struct StoredInteraction {
    /// Unique identifier, a UUID string.
    pub id: String,
    /// Capture time, seconds since the Unix epoch.
    pub timestamp: u64,
    /// The request as stored.
    pub request: StoredRequest,
    /// The response as stored.
    pub response: StoredResponse,
}

/// The view of a [`StoredInteraction`].
#[verifier::ext_equal]
pub struct StoredInteractionView {
    pub id: Seq<char>,
    pub timestamp: u64,
    pub request: StoredRequestView,
    pub response: StoredResponseView,
}

impl View for StoredInteraction {
    type V = StoredInteractionView;

    open spec fn view(&self) -> StoredInteractionView {
        StoredInteractionView {
            id: self.id@,
            timestamp: self.timestamp,
            request: self.request@,
            response: self.response@,
        }
    }
}

/// Listening address and port.
#[derive(Debug)]
pub struct ServerConfig {
    pub host: String,
    pub port: u16,
}

impl Default for ServerConfig {
    /// Defaults: host `127.0.0.1`, port 8080.
    fn default() -> (r: ServerConfig)
        ensures
            r.host@ == "127.0.0.1"@,
            r.port == 8080,
    {
        ServerConfig { host: "127.0.0.1".to_owned(), port: 8080 }
    }
}

/// Interaction store selection.
#[derive(Debug)]
pub struct StorageConfig {
    /// Backend kind: `memory` or `filesystem`.
    pub type_: String,
    /// Root directory of the filesystem backend.
    pub path: String,
}

impl Default for StorageConfig {
    /// Defaults: memory backend, path `./recordings`.
    fn default() -> (r: StorageConfig)
        ensures
            r.type_@ == "memory"@,
            r.path@ == "./recordings"@,
    {
        StorageConfig { type_: "memory".to_owned(), path: "./recordings".to_owned() }
    }
}

/// Proxy behaviour settings.
#[derive(Debug)]
pub struct ProxyConfig {
    /// Upstream base URL given to new sessions; empty means none.
    pub default_target: String,
    /// Whether the `Host` header is forwarded unchanged.
    pub forward_host_header: bool,
}

impl Default for ProxyConfig {
    /// Defaults: no default target, forward the `Host` header.
    fn default() -> (r: ProxyConfig)
        ensures
            r.default_target@ == Seq::<char>::empty(),
            r.forward_host_header,
    {
        ProxyConfig { default_target: String::new(), forward_host_header: true }
    }
}

/// Whole application configuration.
#[derive(Debug)]
pub struct AppConfig {
    pub server: ServerConfig,
    pub storage: StorageConfig,
    /// Documented configuration flag; data-plane auto-creation is always
    /// on in the core and this flag is kept only for the file format.
    pub auto_generate_sessions: bool,
    pub proxy: ProxyConfig,
}

impl Default for AppConfig {
    /// All component defaults, with `auto_generate_sessions` off.
    fn default() -> (r: AppConfig)
        ensures
            r.server.host@ == "127.0.0.1"@,
            r.server.port == 8080,
            r.storage.type_@ == "memory"@,
            r.storage.path@ == "./recordings"@,
            !r.auto_generate_sessions,
            r.proxy.default_target@ == Seq::<char>::empty(),
            r.proxy.forward_host_header,
    {
        AppConfig {
            server: ServerConfig::default(),
            storage: StorageConfig::default(),
            auto_generate_sessions: false,
            proxy: ProxyConfig::default(),
        }
    }
}

/// Query parameters consulted for session selection.
#[derive(Debug)]
pub struct SessionQuery {
    /// The `session` query parameter, when present.
    pub session: Option<String>,
}

/// Body of the control-plane session-creation call.
#[derive(Debug)]
pub struct CreateSessionPayload {
    /// Identifier of the session to create.
    pub session_id: String,
}

} // verus!
