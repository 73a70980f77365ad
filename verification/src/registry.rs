//! The session registry and per-session request pipeline: create, delete,
//! look up and list sessions, and dispatch requests by session mode.

use vstd::prelude::*;
use crate::codec::{
    headers_decodable, request_to_stored, response_to_stored, spec_request_to_stored,
    spec_response_to_stored, spec_stored_to_request, spec_stored_to_response, spec_canon_method,
    lemma_request_round_trip, wf_request,
};
use crate::errors::SimError;
use crate::forward::{
    prepare_forward, sanitized_request, spec_forward_url, spec_sanitized_request, spec_target_url,
    OutboundRequest,
};
use crate::headers::{spec_sanitize, spec_strip_hop};
use crate::matcher::{
    spec_first_match, spec_pair_matches, spec_view_matches, MatchResult, RequestMatcher,
};
use crate::models::{
    AppConfig, HttpRequest, HttpRequestView, HttpResponse, HttpResponseView, SessionConfig,
    SessionMode, StoredInteraction, MAX_BODY_SIZE,
};
use crate::storage::{
    find_str_key, lemma_find_str_key, lemma_find_str_key_at, lemma_find_str_key_congruent,
    StorageBackend,
};
use crate::dynamic::{
    spec_captures_recorded, spec_pattern_texts, spec_rewritten_body, lemma_rewritten_body_empty,
};
use crate::text::{sbytes, str_eq, str_to_bytes, upper_bytes};
use vstd::utf8::{decode_utf8, valid_utf8};

verus! {

/// Per-session state: settings, the dynamic-value table, and the time of
/// the last request.
pub struct Session {
    /// The session's id.
    pub id: String,
    /// Current configuration; snapshotted at the start of each request.
    pub config: SessionConfig,
    /// Replacements chosen by the dynamic-value rules, full match text to
    /// replacement.
    pub dynamic_values: Vec<(String, String)>,
    /// Seconds since the Unix epoch at the last request.
    pub last_access: u64,
}

/// The registry of sessions, the interaction store they share, and the
/// application settings consulted for defaults.
pub struct SessionManager {
    /// Sessions in creation order, each entry keyed by the session id;
    /// the ids are pairwise distinct.
    pub sessions: Vec<(String, Session)>,
    /// The interaction store.
    pub storage: StorageBackend,
    /// Application settings; `None` runs on built-in defaults.
    pub app_config: Option<AppConfig>,
}

impl SessionManager {
    /// Well-formedness: session ids are pairwise distinct.
    pub open spec fn wf(self) -> bool {
        forall|i: int, j: int|
            0 <= i < j < self.sessions@.len() ==> self.sessions@[i].0@ != self.sessions@[j].0@
    }

    /// Whether a session with this id is registered.
    pub open spec fn has_session(self, id: Seq<char>) -> bool {
        find_str_key(self.sessions@, id) is Some
    }

    /// The session registered under this id.
    pub open spec fn session_at(self, id: Seq<char>) -> Session
        recommends
            self.has_session(id),
    {
        self.sessions@[find_str_key(self.sessions@, id)->0].1
    }

    /// The target URL that newly created sessions start with: the
    /// configured default target, when non-empty.
    pub open spec fn spec_default_target(self) -> Option<Seq<char>> {
        match self.app_config {
            Some(c) => {
                if c.proxy.default_target@.len() > 0 {
                    Some(c.proxy.default_target@)
                } else {
                    None
                }
            },
            None => None,
        }
    }

    /// Creates a registry over a storage backend and optional settings.
    pub fn new(storage: StorageBackend, app_config: Option<AppConfig>) -> (r: SessionManager)
        ensures
            r.wf(),
            r.sessions@.len() == 0,
            r.storage == storage,
            r.app_config == app_config,
            forall|id: Seq<char>| !r.has_session(id),
    {
        let r = SessionManager { sessions: Vec::new(), storage, app_config };
        proof {
            assert forall|id: Seq<char>| !r.has_session(id) by {
                assert(find_str_key(r.sessions@, id) is None);
            }
        }
        r
    }

    /// The number of registered sessions.
    pub fn get_session_count(&self) -> (r: usize)
        ensures
            r == self.sessions@.len(),
    {
        self.sessions.len()
    }

    /// Whether a session with this id is registered.
    pub fn session_exists(&self, id: &str) -> (r: bool)
        ensures
            r == self.has_session(id@),
    {
        let n = self.sessions.len();
        let mut i: usize = 0;
        while i < n
            invariant
                n == self.sessions.len(),
                0 <= i <= n,
                forall|j: int| 0 <= j < i ==> self.sessions@[j].0@ != id@,
            decreases n - i,
        {
            if str_eq(self.sessions[i].0.as_str(), id) {
                proof {
                    lemma_find_str_key_at(self.sessions@, id@, i as int);
                }
                return true;
            }
            i += 1;
        }
        proof {
            lemma_find_str_key(self.sessions@, id@);
            match find_str_key(self.sessions@, id@) {
                Some(k) => {
                    assert(self.sessions@[k].0@ == id@);
                    assert(false);
                },
                None => {},
            }
        }
        false
    }

    /// Registers a new session under `id` with the default configuration:
    /// record mode, the configured default target, no dynamic rules.
    ///
    /// Fails with `AlreadyExists`, changing nothing, when the id is
    /// taken.
    pub fn create_session(&mut self, id: String) -> (r: Result<(), SimError>)
        requires
            old(self).wf(),
        ensures
            final(self).wf(),
            r is Ok <==> !old(self).has_session(id@),
            r is Err ==> (r matches Err(e) && e == SimError::AlreadyExists) && *final(self) == *old(self),
            r is Ok ==> ({
                &&& final(self).has_session(id@)
                &&& final(self).sessions@.len() == old(self).sessions@.len() + 1
                &&& final(self).sessions@.subrange(0, old(self).sessions@.len() as int) == old(self).sessions@
                &&& final(self).session_at(id@).id@ == id@
                &&& final(self).session_at(id@).config.mode == SessionMode::Record
                &&& final(self).session_at(id@).config@.target_url == old(self).spec_default_target()
                &&& final(self).session_at(id@).config.dynamic_patterns@.len() == 0
                &&& final(self).session_at(id@).dynamic_values@.len() == 0
                &&& forall|other: Seq<char>|
                    other != id@ ==> old(self).has_session(other) == final(self).has_session(
                        other,
                    ) && (old(self).has_session(other) ==> final(self).session_at(other) == old(self).session_at(other))
                &&& final(self).storage == old(self).storage
                &&& final(self).app_config == old(self).app_config
            }),
    {
        if self.session_exists(id.as_str()) {
            return Err(SimError::AlreadyExists);
        }
        let target_url: Option<String> = match &self.app_config {
            Some(c) => {
                if !c.proxy.default_target.as_str().is_empty() {
                    Some(c.proxy.default_target.clone())
                } else {
                    None
                }
            },
            None => None,
        };
        let config = SessionConfig {
            mode: SessionMode::Record,
            target_url,
            dynamic_patterns: Vec::new(),
        };
        let session = Session {
            id: id.clone(),
            config,
            dynamic_values: Vec::new(),
            last_access: 0,
        };
        let ghost before = self.sessions@;
        self.sessions.push((id, session));
        proof {
            lemma_find_str_key(before, id@);
            match find_str_key(before, id@) {
                Some(k) => {
                    assert(before[k].0@ == id@);
                    assert(false);
                },
                None => {},
            }
            lemma_find_str_key_at(self.sessions@, id@, before.len() as int);
            assert(final(self).sessions@.subrange(0, before.len() as int) =~= before);
            assert forall|i: int, j: int|
                0 <= i < j < self.sessions@.len() implies self.sessions@[i].0@
                != self.sessions@[j].0@ by {
                if j == before.len() {
                    assert(self.sessions@[i] == before[i]);
                    assert(before[i].0@ != id@);
                } else {
                    assert(self.sessions@[i] == before[i] && self.sessions@[j] == before[j]);
                }
            }
            assert forall|other: Seq<char>| other != id@ implies old(self).has_session(other)
                == final(self).has_session(other) && (old(self).has_session(other) ==> final(self).session_at(other) == old(self).session_at(other)) by {
                lemma_find_str_key(before, other);
                match find_str_key(before, other) {
                    Some(k) => {
                        lemma_find_str_key_at(self.sessions@, other, k);
                    },
                    None => {
                        lemma_find_str_key(self.sessions@, other);
                        match find_str_key(self.sessions@, other) {
                            Some(k) => {
                                if k < before.len() {
                                    assert(before[k].0@ == other);
                                }
                                assert(false);
                            },
                            None => {},
                        }
                    },
                }
            }
        }
        Ok(())
    }

    /// Removes the session registered under `id`; on the in-memory
    /// backend its recorded interactions are removed with it.
    ///
    /// Fails with `NotFound`, changing nothing, when no such session
    /// exists.
    pub fn delete_session(&mut self, id: &str) -> (r: Result<(), SimError>)
        requires
            old(self).wf(),
        ensures
            final(self).wf(),
            r is Ok <==> old(self).has_session(id@),
            r is Err ==> (r matches Err(e) && e == SimError::NotFound) && *final(self) == *old(self),
            r is Ok ==> ({
                &&& !final(self).has_session(id@)
                &&& final(self).sessions@.len() == old(self).sessions@.len() - 1
                &&& forall|other: Seq<char>|
                    other != id@ ==> old(self).has_session(other) == final(self).has_session(
                        other,
                    ) && (old(self).has_session(other) ==> final(self).session_at(other) == old(self).session_at(other))
                &&& (old(self).storage matches StorageBackend::Memory(m0) ==> final(self).storage matches StorageBackend::Memory(m1) && m1.interactions_of(id@) == Seq::<
                    StoredInteraction,
                >::empty() && forall|other: Seq<char>|
                    other != id@ ==> #[trigger] m1.interactions_of(other) == m0.interactions_of(
                        other,
                    ))
                &&& (old(self).storage matches StorageBackend::FileSystem(f) ==> final(self).storage == old(self).storage)
                &&& final(self).app_config == old(self).app_config
            }),
    {
        let ghost before = self.sessions@;
        let n = self.sessions.len();
        let mut i: usize = 0;
        while i < n
            invariant
                n == self.sessions.len(),
                0 <= i <= n,
                self.sessions@ == before,
                *old(self) == *self,
                old(self).wf(),
                forall|j: int| 0 <= j < i ==> before[j].0@ != id@,
            decreases n - i,
        {
            if str_eq(self.sessions[i].0.as_str(), id) {
                proof {
                    lemma_find_str_key_at(before, id@, i as int);
                }
                self.sessions.remove(i);
                match &mut self.storage {
                    StorageBackend::Memory(m) => {
                        let cr = m.clear_interactions(id);
                    },
                    StorageBackend::FileSystem(_f) => {},
                }
                proof {
                    let after = self.sessions@;
                    assert(after =~= before.remove(i as int));
                    assert(old(self).wf());
                    assert forall|a: int, b: int|
                        0 <= a < b < after.len() implies after[a].0@ != after[b].0@ by {
                        let sa = if a < i { a } else { a + 1 };
                        let sb = if b < i { b } else { b + 1 };
                        assert(after[a] == before[sa] && after[b] == before[sb]);
                    }
                    assert(!final(self).has_session(id@)) by {
                        lemma_find_str_key(after, id@);
                        match find_str_key(after, id@) {
                            Some(k) => {
                                let sk = if k < i { k } else { k + 1 };
                                assert(after[k] == before[sk]);
                                assert(before[sk].0@ == id@);
                                assert(sk != i);
                                assert(before[i as int].0@ == id@);
                                assert(false);
                            },
                            None => {},
                        }
                    }
                    assert forall|other: Seq<char>| other != id@ implies old(self).has_session(
                        other,
                    ) == final(self).has_session(other) && (old(self).has_session(other)
                        ==> final(self).session_at(other) == old(self).session_at(other)) by {
                        lemma_find_str_key(before, other);
                        match find_str_key(before, other) {
                            Some(k) => {
                                assert(before[k].0@ == other);
                                assert(k != i);
                                if k < i {
                                    assert(after[k] == before[k]);
                                    assert forall|m: int| 0 <= m < k implies after[m].0@
                                        != other by {
                                        assert(after[m] == before[m]);
                                    }
                                    lemma_find_str_key_at(after, other, k);
                                } else {
                                    assert(after[k - 1] == before[k]);
                                    assert forall|m: int| 0 <= m < k - 1 implies after[m].0@
                                        != other by {
                                        let sm = if m < i { m } else { m + 1 };
                                        assert(after[m] == before[sm]);
                                    }
                                    lemma_find_str_key_at(after, other, k - 1);
                                }
                            },
                            None => {
                                lemma_find_str_key(after, other);
                                match find_str_key(after, other) {
                                    Some(k) => {
                                        let sk = if k < i { k } else { k + 1 };
                                        assert(after[k] == before[sk]);
                                        assert(before[sk].0@ == other);
                                        assert(false);
                                    },
                                    None => {},
                                }
                            },
                        }
                    }
                }
                return Ok(());
            }
            i += 1;
        }
        proof {
            lemma_find_str_key(before, id@);
            match find_str_key(before, id@) {
                Some(k) => {
                    assert(before[k].0@ == id@);
                    assert(false);
                },
                None => {},
            }
        }
        Err(SimError::NotFound)
    }

    /// The ids of all registered sessions, in creation order.
    pub fn list_sessions(&self) -> (r: Vec<String>)
        ensures
            r@.len() == self.sessions@.len(),
            forall|i: int| 0 <= i < r@.len() ==> r@[i]@ == self.sessions@[i].0@,
    {
        let mut out: Vec<String> = Vec::new();
        let n = self.sessions.len();
        let mut i: usize = 0;
        while i < n
            invariant
                n == self.sessions.len(),
                0 <= i <= n,
                out@.len() == i,
                forall|j: int| 0 <= j < i ==> out@[j]@ == self.sessions@[j].0@,
            decreases n - i,
        {
            out.push(self.sessions[i].0.clone());
            i += 1;
        }
        out
    }

    /// A snapshot of a session's configuration.
    ///
    /// Fails with `NotFound` when no such session exists.
    pub fn get_session_config(&self, id: &str) -> (r: Result<SessionConfig, SimError>)
        ensures
            r is Ok <==> self.has_session(id@),
            r matches Ok(c) ==> c@ == self.session_at(id@).config@,
            r is Err ==> (r matches Err(e) && e == SimError::NotFound),
    {
        let n = self.sessions.len();
        let mut i: usize = 0;
        while i < n
            invariant
                n == self.sessions.len(),
                0 <= i <= n,
                forall|j: int| 0 <= j < i ==> self.sessions@[j].0@ != id@,
            decreases n - i,
        {
            if str_eq(self.sessions[i].0.as_str(), id) {
                proof {
                    lemma_find_str_key_at(self.sessions@, id@, i as int);
                }
                return Ok(self.sessions[i].1.config.duplicate());
            }
            i += 1;
        }
        proof {
            lemma_find_str_key(self.sessions@, id@);
            match find_str_key(self.sessions@, id@) {
                Some(k) => {
                    assert(self.sessions@[k].0@ == id@);
                    assert(false);
                },
                None => {},
            }
        }
        Err(SimError::NotFound)
    }

    /// Replaces a session's configuration; mode changes take effect for
    /// the next request.
    ///
    /// Fails with `NotFound`, changing nothing, when no such session
    /// exists.
    pub fn update_session_config(&mut self, id: &str, config: SessionConfig) -> (r: Result<
        (),
        SimError,
    >)
        requires
            old(self).wf(),
        ensures
            final(self).wf(),
            r is Ok <==> old(self).has_session(id@),
            r is Err ==> (r matches Err(e) && e == SimError::NotFound) && *final(self) == *old(self),
            r is Ok ==> ({
                &&& final(self).has_session(id@)
                &&& final(self).session_at(id@).config == config
                &&& final(self).session_at(id@).id == old(self).session_at(id@).id
                &&& final(self).session_at(id@).dynamic_values == old(self).session_at(
                    id@,
                ).dynamic_values
                &&& forall|other: Seq<char>|
                    other != id@ ==> old(self).has_session(other) == final(self).has_session(
                        other,
                    ) && (old(self).has_session(other) ==> final(self).session_at(other) == old(self).session_at(other))
                &&& final(self).storage == old(self).storage
                &&& final(self).app_config == old(self).app_config
            }),
    {
        let ghost before = self.sessions@;
        let n = self.sessions.len();
        let mut i: usize = 0;
        while i < n
            invariant
                n == self.sessions.len(),
                0 <= i <= n,
                self.sessions@ == before,
                *old(self) == *self,
                old(self).wf(),
                forall|j: int| 0 <= j < i ==> before[j].0@ != id@,
            decreases n - i,
        {
            if str_eq(self.sessions[i].0.as_str(), id) {
                proof {
                    lemma_find_str_key_at(before, id@, i as int);
                }
                let entry = &mut self.sessions[i];
                entry.1.config = config;
                proof {
                    lemma_find_str_key_congruent(self.sessions@, before, id@);
                    assert(final(self).wf()) by {
                        assert(forall|m: int|
                            0 <= m < self.sessions@.len() ==> self.sessions@[m].0@
                                == before[m].0@);
                    }
                    assert forall|other: Seq<char>| other != id@ implies old(self).has_session(
                        other,
                    ) == final(self).has_session(other) && (old(self).has_session(other)
                        ==> final(self).session_at(other) == old(self).session_at(other)) by {
                        lemma_find_str_key_congruent(self.sessions@, before, other);
                        lemma_find_str_key(before, other);
                        match find_str_key(before, other) {
                            Some(k) => {
                                assert(k != i);
                                assert(self.sessions@[k] == before[k]);
                            },
                            None => {},
                        }
                    }
                }
                return Ok(());
            }
            i += 1;
        }
        proof {
            lemma_find_str_key(before, id@);
            match find_str_key(before, id@) {
                Some(k) => {
                    assert(before[k].0@ == id@);
                    assert(false);
                },
                None => {},
            }
        }
        Err(SimError::NotFound)
    }
}

// ---------------------------------------------------------------------------
// Request pipeline
// ---------------------------------------------------------------------------

/// The response served on a matcher miss: 404 with a fixed plain-text
/// body.
pub open spec fn spec_miss_response() -> HttpResponseView {
    HttpResponseView {
        status: 404,
        headers: Seq::<(Seq<char>, Seq<u8>)>::empty(),
        body: sbytes("No matching interaction found"@),
    }
}

/// Whether a stored interaction's request answers `(method, path)`.
pub open spec fn spec_stored_matches(s: StoredInteraction, method: Seq<char>, path: Seq<char>) -> bool {
    spec_view_matches(spec_stored_to_request(s.request@), method, path)
}

/// Index of the first stored interaction answering `(method, path)`.
pub open spec fn spec_stored_first_match(
    ints: Seq<StoredInteraction>,
    method: Seq<char>,
    path: Seq<char>,
) -> Option<int>
    decreases ints.len(),
{
    if ints.len() == 0 {
        None
    } else if spec_stored_matches(ints[0], method, path) {
        Some(0int)
    } else {
        match spec_stored_first_match(ints.drop_first(), method, path) {
            Some(i) => Some(i + 1),
            None => None,
        }
    }
}

/// What replay returns over a stored interaction list: the first
/// matching interaction's response, or the fixed miss response.
pub open spec fn spec_replay_on_stored(
    ints: Seq<StoredInteraction>,
    method: Seq<char>,
    path: Seq<char>,
) -> HttpResponseView {
    match spec_stored_first_match(ints, method, path) {
        Some(i) => spec_stored_to_response(ints[i].response@),
        None => spec_miss_response(),
    }
}

/// The live and the stored first-match agree when the live pairs are the
/// reconstructions of the stored interactions.
proof fn lemma_match_correspondence(
    stored: Seq<StoredInteraction>,
    live: Seq<(HttpRequest, HttpResponse)>,
    method: Seq<char>,
    path: Seq<char>,
)
    requires
        live.len() == stored.len(),
        forall|i: int|
            0 <= i < stored.len() ==> (#[trigger] live[i]).0@ == spec_stored_to_request(
                stored[i].request@,
            ) && live[i].1@ == spec_stored_to_response(stored[i].response@),
    ensures
        spec_first_match(live, method, path) == spec_stored_first_match(stored, method, path),
    decreases stored.len(),
{
    if stored.len() > 0 {
        assert(spec_pair_matches(live[0].0, method, path) == spec_stored_matches(
            stored[0],
            method,
            path,
        ));
        let ls = live.drop_first();
        let ss = stored.drop_first();
        assert(forall|i: int| 0 <= i < ls.len() ==> ls[i] == live[i + 1]);
        assert(forall|i: int| 0 <= i < ss.len() ==> ss[i] == stored[i + 1]);
        lemma_match_correspondence(ss, ls, method, path);
    }
}

/// Serves a replay request from a list of reconstructed interactions:
/// the first match's response, or 404 with the fixed body.
pub fn replay_response(req: &HttpRequest, interactions: &Vec<(HttpRequest, HttpResponse)>) -> (r:
    HttpResponse)
    ensures
        ({
            let m = spec_first_match(interactions@, req.method@, req.path@);
            match m {
                Some(i) => r@ == interactions@[i].1@,
                None => r@ == spec_miss_response(),
            }
        }),
{
    let matcher = RequestMatcher::new();
    match matcher.match_request(req, interactions) {
        MatchResult::Match(resp) => resp,
        MatchResult::NoMatch => {
            let r = HttpResponse {
                status: 404,
                headers: Vec::new(),
                body: str_to_bytes("No matching interaction found"),
            };
            proof {
                assert(r@.headers =~= spec_miss_response().headers);
                assert(r@ =~~= spec_miss_response());
            }
            r
        },
    }
}

/// What the registry asks the transport to do for one request.
#[derive(Debug)]
pub enum ProcessOutcome {
    /// The response is ready; no outside work is needed.
    Respond(HttpResponse),
    /// Send the sanitized outbound request upstream and hand the carried
    /// request together with the upstream response to `complete_forward`;
    /// the flag says whether the interaction is then stored.  The carried
    /// request is the incoming one with the session's dynamic-value rules
    /// applied to its body.
    Forward(OutboundRequest, HttpRequest, bool),
    /// Replay on the filesystem backend: load the session's interactions
    /// from disk and serve them through `replay_response`.
    FetchInteractions,
}

/// What `complete_forward` produced.
pub struct ForwardOutcome {
    /// The response to hand back to the client.
    pub client_response: HttpResponse,
    /// On the filesystem backend, the captured interaction for the
    /// transport to persist.
    pub to_persist: Option<StoredInteraction>,
}

impl SessionManager {
    /// Dispatches a request to its session by mode: record and
    /// passthrough modes plan an upstream forward (record also stores
    /// afterwards), replay mode serves from stored interactions.  The
    /// session's dynamic-value rules are applied to the request body
    /// first, and its last-access time is set to the current time.
    ///
    /// Fails with `NotFound` for an unknown session, and with the
    /// forwarder's errors when no upstream target can be resolved or the
    /// body is over the ceiling.
    pub fn process_request(&mut self, session_id: &str, req: &HttpRequest) -> (r: Result<
        ProcessOutcome,
        SimError,
    >)
        requires
            old(self).wf(),
        ensures
            final(self).wf(),
            !old(self).has_session(session_id@) ==> (r matches Err(e) && e == SimError::NotFound)
                && *final(self) == *old(self),
            old(self).has_session(session_id@) ==> ({
                let cfg = old(self).session_at(session_id@).config;
                let old_values = old(self).session_at(session_id@).dynamic_values;
                let new_values = final(self).session_at(session_id@).dynamic_values;
                let pats_empty = cfg.dynamic_patterns@.len() == 0;
                let rewritten = spec_rewritten_body(
                    req.body@,
                    spec_pattern_texts(cfg.dynamic_patterns@),
                    new_values@,
                );
                &&& final(self).has_session(session_id@)
                &&& final(self).session_at(session_id@).id == old(self).session_at(session_id@).id
                &&& final(self).session_at(session_id@).config == cfg
                &&& new_values@.len() >= old_values@.len()
                &&& new_values@.subrange(0, old_values@.len() as int) == old_values@
                &&& (pats_empty ==> new_values == old_values)
                &&& (valid_utf8(req.body@) ==> spec_captures_recorded(
                    decode_utf8(req.body@),
                    spec_pattern_texts(cfg.dynamic_patterns@),
                    new_values@,
                ))
                &&& forall|other: Seq<char>|
                    other != session_id@ ==> old(self).has_session(other) == final(self).has_session(other) && (old(self).has_session(other) ==> final(self).session_at(other) == old(self).session_at(other))
                &&& final(self).storage == old(self).storage
                &&& final(self).app_config == old(self).app_config
                &&& (cfg.mode == SessionMode::Record || cfg.mode == SessionMode::Passthrough)
                    ==> ({
                    &&& (spec_target_url(req@, cfg@) is None <==> (r matches Err(e) && e
                        == SimError::NoTarget))
                    &&& (r matches Err(e) ==> e == SimError::NoTarget || e
                        == SimError::BodyTooLarge)
                    &&& (spec_target_url(req@, cfg@) is Some ==> (r is Ok <==> rewritten.len()
                        <= MAX_BODY_SIZE))
                    &&& (r matches Ok(out) ==> out matches ProcessOutcome::Forward(o, fwd, save)
                        && ({
                        &&& save == (cfg.mode == SessionMode::Record)
                        &&& o@.url == spec_forward_url(spec_target_url(req@, cfg@)->0, req@)
                        &&& o@.method == req@.method
                        &&& o@.headers == spec_sanitize(req@.headers)
                        &&& o@.body == fwd@.body
                        &&& fwd@ == (HttpRequestView { body: rewritten, ..req@ })
                        &&& (pats_empty ==> fwd@.body == req@.body)
                        &&& fwd@.body.len() <= MAX_BODY_SIZE
                    }))
                })
                &&& cfg.mode == SessionMode::Replay ==> ({
                    &&& (old(self).storage matches StorageBackend::Memory(m) ==> (r matches Ok(out)
                        && out matches ProcessOutcome::Respond(resp) && resp@
                        == spec_replay_on_stored(
                        m.interactions_of(session_id@),
                        req@.method,
                        req@.path,
                    )))
                    &&& (old(self).storage matches StorageBackend::FileSystem(f) ==> (r matches Ok(
                        out,
                    ) && out is FetchInteractions))
                })
            }),
    {
        let ghost before = self.sessions@;
        let n = self.sessions.len();
        let mut i: usize = 0;
        let mut found = false;
        while i < n && !found
            invariant
                n == self.sessions.len(),
                0 <= i <= n,
                self.sessions@ == before,
                *old(self) == *self,
                old(self).wf(),
                !found ==> forall|j: int| 0 <= j < i ==> before[j].0@ != session_id@,
                found ==> i < n && before[i as int].0@ == session_id@ && forall|j: int|
                    0 <= j < i ==> before[j].0@ != session_id@,
            decreases n - i + (if found { 0int } else { 1int }),
        {
            if str_eq(self.sessions[i].0.as_str(), session_id) {
                found = true;
            } else {
                i += 1;
            }
        }
        if !found {
            proof {
                lemma_find_str_key(before, session_id@);
                match find_str_key(before, session_id@) {
                    Some(k) => {
                        assert(before[k].0@ == session_id@);
                        assert(false);
                    },
                    None => {},
                }
            }
            return Err(SimError::NotFound);
        }
        proof {
            lemma_find_str_key_at(before, session_id@, i as int);
            assert(old(self).session_at(session_id@) == before[i as int].1);
        }
        // Snapshot the configuration, then update the session: the
        // last-access time, and the dynamic-value table as the rules
        // rewrite the body.
        let cfg = self.sessions[i].1.config.duplicate();
        let now = crate::storage::unix_time_secs();
        let entry = &mut self.sessions[i];
        entry.1.last_access = now;
        let ghost values_before = before[i as int].1.dynamic_values;
        let body: Vec<u8>;
        if cfg.dynamic_patterns.len() > 0 {
            let entry2 = &mut self.sessions[i];
            body = crate::dynamic::apply_dynamic_rules(
                &cfg.dynamic_patterns,
                &mut entry2.1.dynamic_values,
                &req.body,
            );
        } else {
            body = crate::text::bytes_to_vec(req.body.as_slice());
        }
        let ghost ocfg = before[i as int].1.config;
        let ghost cur_values = self.sessions@[i as int].1.dynamic_values;
        proof {
            lemma_find_str_key_congruent(self.sessions@, before, session_id@);
            assert forall|other: Seq<char>| other != session_id@ implies old(self).has_session(
                other,
            ) == self.has_session(other) && (old(self).has_session(other) ==> self.session_at(
                other,
            ) == old(self).session_at(other)) by {
                lemma_find_str_key_congruent(self.sessions@, before, other);
                lemma_find_str_key(before, other);
                match find_str_key(before, other) {
                    Some(k) => {
                        assert(k != i);
                        assert(self.sessions@[k] == before[k]);
                    },
                    None => {},
                }
            }
            assert(self.wf()) by {
                assert(forall|m: int|
                    0 <= m < self.sessions@.len() ==> self.sessions@[m].0@ == before[m].0@);
            }
            assert(self.session_at(session_id@) == self.sessions@[i as int].1);
            assert(self.sessions@[i as int].1.config == before[i as int].1.config);
            assert(cfg@ =~= before[i as int].1.config@);
            assert(cfg@.dynamic_patterns =~= before[i as int].1.config@.dynamic_patterns);
            assert(cfg.dynamic_patterns@.len() == cfg@.dynamic_patterns.len());
            assert(before[i as int].1.config.dynamic_patterns@.len() == before[i as int].1.config@
                .dynamic_patterns.len());
            assert(cfg.dynamic_patterns@.len()
                == before[i as int].1.config.dynamic_patterns@.len());
            // The duplicate's pattern texts are the session's.
            assert(spec_pattern_texts(cfg.dynamic_patterns@) =~= spec_pattern_texts(
                ocfg.dynamic_patterns@,
            )) by {
                assert forall|j: int| 0 <= j < cfg.dynamic_patterns@.len() implies
                    spec_pattern_texts(cfg.dynamic_patterns@)[j] == spec_pattern_texts(
                    ocfg.dynamic_patterns@,
                )[j] by {
                    assert(cfg@.dynamic_patterns[j] == ocfg@.dynamic_patterns[j]);
                    assert(cfg@.dynamic_patterns[j].pattern == cfg.dynamic_patterns@[j].pattern@);
                    assert(ocfg@.dynamic_patterns[j].pattern
                        == ocfg.dynamic_patterns@[j].pattern@);
                }
            }
            // The body now carries the rule fold under the session's
            // updated table.
            if cfg.dynamic_patterns@.len() == 0 {
                assert(spec_pattern_texts(ocfg.dynamic_patterns@) =~= Seq::<Seq<char>>::empty());
                lemma_rewritten_body_empty(req.body@, cur_values@);
                assert(body@ == spec_rewritten_body(
                    req.body@,
                    spec_pattern_texts(ocfg.dynamic_patterns@),
                    cur_values@,
                ));
            } else {
                assert(body@ == spec_rewritten_body(
                    req.body@,
                    spec_pattern_texts(ocfg.dynamic_patterns@),
                    cur_values@,
                ));
            }
            if valid_utf8(req.body@) {
                assert(spec_captures_recorded(
                    decode_utf8(req.body@),
                    spec_pattern_texts(ocfg.dynamic_patterns@),
                    cur_values@,
                ));
            }
        }
        let fwd_req = req.with_body(body);
        proof {
            assert(fwd_req@.method == req@.method && fwd_req@.path == req@.path && fwd_req@.query
                == req@.query && fwd_req@.scheme == req@.scheme && fwd_req@.authority
                == req@.authority && fwd_req@.headers == req@.headers);
            assert(spec_target_url(fwd_req@, cfg@) == spec_target_url(
                req@,
                before[i as int].1.config@,
            ));
            assert(fwd_req@ =~= (HttpRequestView {
                body: spec_rewritten_body(
                    req.body@,
                    spec_pattern_texts(ocfg.dynamic_patterns@),
                    cur_values@,
                ),
                ..req@
            }));
        }
        // Dispatch by mode.
        let mode = self.sessions[i].1.config.mode;
        match mode {
            SessionMode::Replay => {
                match &self.storage {
                    StorageBackend::Memory(m) => {
                        let live = match m.get_interactions(session_id) {
                            Ok(v) => v,
                            Err(_e) => {
                                return Err(SimError::StorageError);
                            },
                        };
                        let resp = replay_response(&fwd_req, &live);
                        proof {
                            lemma_match_correspondence(
                                m.interactions_of(session_id@),
                                live@,
                                req@.method,
                                req@.path,
                            );
                            lemma_stored_first_match_props(
                                m.interactions_of(session_id@),
                                req@.method,
                                req@.path,
                            );
                        }
                        Ok(ProcessOutcome::Respond(resp))
                    },
                    StorageBackend::FileSystem(_f) => Ok(ProcessOutcome::FetchInteractions),
                }
            },
            SessionMode::Record => {
                match prepare_forward(&fwd_req, &cfg) {
                    Ok(o) => Ok(ProcessOutcome::Forward(o, fwd_req, true)),
                    Err(e) => Err(e),
                }
            },
            SessionMode::Passthrough => {
                match prepare_forward(&fwd_req, &cfg) {
                    Ok(o) => Ok(ProcessOutcome::Forward(o, fwd_req, false)),
                    Err(e) => Err(e),
                }
            },
        }
    }

    /// Finishes a forwarded request: builds the client response with
    /// hop-by-hop headers stripped and, when `save` is set, captures the
    /// sanitized request together with that response — directly into the
    /// in-memory store, or as an interaction handed back for the
    /// filesystem transport to persist.
    pub fn complete_forward(
        &mut self,
        session_id: &str,
        req: &HttpRequest,
        upstream: HttpResponse,
        save: bool,
    ) -> (r: Result<ForwardOutcome, SimError>)
        requires
            old(self).wf(),
        ensures
            final(self).wf(),
            final(self).sessions == old(self).sessions,
            final(self).app_config == old(self).app_config,
            r is Ok <==> (!save || (req.body@.len() <= MAX_BODY_SIZE && headers_decodable(
                spec_sanitize(req@.headers),
            ) && upstream.body@.len() <= MAX_BODY_SIZE && headers_decodable(
                spec_strip_hop(upstream@.headers),
            ))),
            r is Err ==> *final(self) == *old(self),
            !save ==> final(self).storage == old(self).storage,
            r matches Ok(o) ==> ({
                let resp_view = HttpResponseView {
                    status: upstream.status,
                    headers: spec_strip_hop(upstream@.headers),
                    body: upstream.body@,
                };
                &&& o.client_response@ == resp_view
                &&& (!save ==> o.to_persist is None)
                &&& (save ==> (old(self).storage matches StorageBackend::Memory(m0) ==> final(self).storage matches StorageBackend::Memory(m1) && ({
                    let now = m1.interactions_of(session_id@);
                    let prev = m0.interactions_of(session_id@);
                    &&& now.len() == prev.len() + 1
                    &&& now.subrange(0, prev.len() as int) == prev
                    &&& now.last().request@ == spec_request_to_stored(spec_sanitized_request(req@))
                    &&& now.last().response@ == spec_response_to_stored(resp_view)
                    &&& forall|other: Seq<char>|
                        other != session_id@ ==> #[trigger] m1.interactions_of(other)
                            == m0.interactions_of(other)
                    &&& o.to_persist is None
                })))
                &&& (save ==> (old(self).storage matches StorageBackend::FileSystem(f) ==> ({
                    &&& final(self).storage == old(self).storage
                    &&& o.to_persist matches Some(p) && p.request@ == spec_request_to_stored(
                        spec_sanitized_request(req@),
                    ) && p.response@ == spec_response_to_stored(resp_view)
                })))
            }),
    {
        let HttpResponse { status, headers, body } = upstream;
        let stripped = crate::headers::strip_hop_headers(&headers);
        let client_response = HttpResponse { status, headers: stripped, body };
        if !save {
            return Ok(ForwardOutcome { client_response, to_persist: None });
        }
        let clean_req = sanitized_request(req);
        match &mut self.storage {
            StorageBackend::Memory(m) => {
                match m.store_interaction(session_id, &clean_req, &client_response) {
                    Ok(()) => Ok(ForwardOutcome { client_response, to_persist: None }),
                    Err(e) => Err(e),
                }
            },
            StorageBackend::FileSystem(_f) => {
                let stored_request = match request_to_stored(&clean_req) {
                    Ok(s) => s,
                    Err(e) => {
                        return Err(e);
                    },
                };
                let stored_response = match response_to_stored(&client_response) {
                    Ok(s) => s,
                    Err(e) => {
                        return Err(e);
                    },
                };
                let interaction = StoredInteraction {
                    id: crate::storage::uuid_v4_string(),
                    timestamp: crate::storage::unix_time_secs(),
                    request: stored_request,
                    response: stored_response,
                };
                Ok(ForwardOutcome { client_response, to_persist: Some(interaction) })
            },
        }
    }
}

/// ASCII uppercasing is idempotent.
proof fn lemma_upper_idempotent(s: Seq<u8>)
    ensures
        upper_bytes(upper_bytes(s)) == upper_bytes(s),
{
    assert(upper_bytes(upper_bytes(s)) =~= upper_bytes(s));
}

/// Law: recording an interaction for a request makes a later replay of
/// the same method and path find a match; and when nothing matched
/// before the record, the replay returns exactly the recorded response.
pub proof fn lemma_record_then_replay(
    ints: Seq<StoredInteraction>,
    rec: StoredInteraction,
    req: HttpRequestView,
)
    requires
        wf_request(req),
        rec.request@ == spec_request_to_stored(req),
    ensures
        spec_stored_first_match(ints.push(rec), req.method, req.path) is Some,
        spec_stored_first_match(ints, req.method, req.path) is None ==> spec_replay_on_stored(
            ints.push(rec),
            req.method,
            req.path,
        ) == spec_stored_to_response(rec.response@),
{
    lemma_request_round_trip(req);
    let b = spec_stored_to_request(rec.request@);
    assert(spec_stored_matches(rec, req.method, req.path)) by {
        assert(sbytes(b.method) == spec_canon_method(sbytes(req.method)));
        if crate::text::all_ascii(sbytes(req.method)) {
            lemma_upper_idempotent(sbytes(req.method));
        }
        assert(upper_bytes(sbytes(b.method)) == upper_bytes(sbytes(req.method)));
    }
    lemma_stored_first_match_props(ints, req.method, req.path);
    let p = ints.push(rec);
    assert(forall|j: int| 0 <= j < ints.len() ==> p[j] == ints[j]);
    match spec_stored_first_match(ints, req.method, req.path) {
        Some(k) => {
            lemma_stored_first_match_at(p, req.method, req.path, k);
        },
        None => {
            assert(p[ints.len() as int] == rec);
            lemma_stored_first_match_at(p, req.method, req.path, ints.len() as int);
        },
    }
}

/// What [`spec_stored_first_match`] finds: the least matching index, or
/// nothing.
pub proof fn lemma_stored_first_match_props(
    ints: Seq<StoredInteraction>,
    method: Seq<char>,
    path: Seq<char>,
)
    ensures
        match spec_stored_first_match(ints, method, path) {
            Some(i) => 0 <= i < ints.len() && spec_stored_matches(ints[i], method, path)
                && forall|j: int| 0 <= j < i ==> !spec_stored_matches(ints[j], method, path),
            None => forall|j: int| 0 <= j < ints.len() ==> !spec_stored_matches(
                ints[j],
                method,
                path,
            ),
        },
    decreases ints.len(),
{
    if ints.len() > 0 && !spec_stored_matches(ints[0], method, path) {
        let t = ints.drop_first();
        lemma_stored_first_match_props(t, method, path);
        assert(forall|j: int| 0 <= j < t.len() ==> t[j] == ints[j + 1]);
        match spec_stored_first_match(t, method, path) {
            Some(k) => {
                assert forall|j: int| 0 <= j < k + 1 implies !spec_stored_matches(
                    ints[j],
                    method,
                    path,
                ) by {
                    if j > 0 {
                        assert(ints[j] == t[j - 1]);
                    }
                }
            },
            None => {
                assert forall|j: int| 0 <= j < ints.len() implies !spec_stored_matches(
                    ints[j],
                    method,
                    path,
                ) by {
                    if j > 0 {
                        assert(ints[j] == t[j - 1]);
                    }
                }
            },
        }
    }
}

/// The first matching interaction determines [`spec_stored_first_match`].
pub proof fn lemma_stored_first_match_at(
    ints: Seq<StoredInteraction>,
    method: Seq<char>,
    path: Seq<char>,
    i: int,
)
    requires
        0 <= i < ints.len(),
        spec_stored_matches(ints[i], method, path),
        forall|j: int| 0 <= j < i ==> !spec_stored_matches(ints[j], method, path),
    ensures
        spec_stored_first_match(ints, method, path) == Some(i),
    decreases i,
{
    if i > 0 {
        let t = ints.drop_first();
        assert(forall|j: int| 0 <= j < t.len() ==> t[j] == ints[j + 1]);
        assert(t[i - 1] == ints[i]);
        assert forall|j: int| 0 <= j < i - 1 implies !spec_stored_matches(t[j], method, path) by {
            assert(t[j] == ints[j + 1]);
        }
        lemma_stored_first_match_at(t, method, path, i - 1);
    }
}

} // verus!
