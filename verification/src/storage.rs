//! Interaction stores: the verified in-memory backend, the path scheme of
//! the filesystem backend, and the factory that selects between them.

use vstd::prelude::*;
use vstd::string::StringExecFns;
use crate::codec::{
    headers_decodable, request_to_stored, response_to_stored, spec_request_to_stored,
    spec_response_to_stored, spec_stored_to_request, spec_stored_to_response, stored_to_request,
    stored_to_response,
};
use crate::errors::SimError;
use crate::models::{
    HttpRequest, HttpResponse, StorageConfig, StoredInteraction, MAX_BODY_SIZE,
};
use crate::text::str_eq;

verus! {

/// A character of a hyphenated UUID: a lower-case hex digit or a hyphen.
pub open spec fn is_uuid_char(c: char) -> bool {
    ||| '0' <= c && c <= '9'
    ||| 'a' <= c && c <= 'f'
    ||| c == '-'
}

/// Relies on `uuid::Uuid::new_v4` and `Uuid`'s `Display` form: a fresh
/// random version-4 UUID rendered as its 36-character hyphenated string
/// of lower-case hex digits and hyphens.
#[verifier::external_body]
pub(crate) fn uuid_v4_string() -> (r: String)
    ensures
        r@.len() == 36,
        forall|i: int| 0 <= i < r@.len() ==> is_uuid_char(#[trigger] r@[i]),
{
    uuid::Uuid::new_v4().to_string()
}

/// Relies on `std::time::SystemTime::now` and `duration_since`: the
/// current time in whole seconds since the Unix epoch, or zero when the
/// clock reads earlier than the epoch.
#[verifier::external_body]
pub(crate) fn unix_time_secs() -> u64 {
    std::time::SystemTime::now()
        .duration_since(std::time::UNIX_EPOCH)
        .unwrap_or_default()
        .as_secs()
}

/// Index of the first entry keyed (by view) `key`, if any.
pub open spec fn find_str_key<V>(entries: Seq<(String, V)>, key: Seq<char>) -> Option<int>
    decreases entries.len(),
{
    if entries.len() == 0 {
        None
    } else if entries[0].0@ == key {
        Some(0int)
    } else {
        match find_str_key(entries.drop_first(), key) {
            Some(i) => Some(i + 1),
            None => None,
        }
    }
}

/// What [`find_str_key`] finds: the least index keyed `key`, or nothing.
pub proof fn lemma_find_str_key<V>(entries: Seq<(String, V)>, key: Seq<char>)
    ensures
        match find_str_key(entries, key) {
            Some(i) => 0 <= i < entries.len() && entries[i].0@ == key && forall|j: int|
                0 <= j < i ==> entries[j].0@ != key,
            None => forall|j: int| 0 <= j < entries.len() ==> entries[j].0@ != key,
        },
    decreases entries.len(),
{
    if entries.len() > 0 && entries[0].0@ != key {
        let t = entries.drop_first();
        lemma_find_str_key(t, key);
        assert(forall|j: int| 0 <= j < t.len() ==> t[j] == entries[j + 1]);
        match find_str_key(t, key) {
            Some(i) => {
                assert forall|j: int| 0 <= j < i + 1 implies entries[j].0@ != key by {
                    if j > 0 {
                        assert(entries[j] == t[j - 1]);
                    }
                }
            },
            None => {
                assert forall|j: int| 0 <= j < entries.len() implies entries[j].0@ != key by {
                    if j > 0 {
                        assert(entries[j] == t[j - 1]);
                    }
                }
            },
        }
    }
}

/// The first entry keyed `key` determines [`find_str_key`].
pub proof fn lemma_find_str_key_at<V>(entries: Seq<(String, V)>, key: Seq<char>, i: int)
    requires
        0 <= i < entries.len(),
        entries[i].0@ == key,
        forall|j: int| 0 <= j < i ==> entries[j].0@ != key,
    ensures
        find_str_key(entries, key) == Some(i),
    decreases i,
{
    if i > 0 {
        let t = entries.drop_first();
        assert(forall|j: int| 0 <= j < t.len() ==> t[j] == entries[j + 1]);
        assert(t[i - 1] == entries[i]);
        assert forall|j: int| 0 <= j < i - 1 implies t[j].0@ != key by {
            assert(t[j] == entries[j + 1]);
        }
        lemma_find_str_key_at(t, key, i - 1);
    }
}

/// [`find_str_key`] depends only on the keys.
pub proof fn lemma_find_str_key_congruent<V, W>(
    a: Seq<(String, V)>,
    b: Seq<(String, W)>,
    key: Seq<char>,
)
    requires
        a.len() == b.len(),
        forall|i: int| 0 <= i < a.len() ==> a[i].0@ == b[i].0@,
    ensures
        find_str_key(a, key) == find_str_key(b, key),
{
    lemma_find_str_key(a, key);
    lemma_find_str_key(b, key);
    match find_str_key(a, key) {
        Some(i) => {
            match find_str_key(b, key) {
                Some(k) => {
                    if i < k {
                        assert(b[i].0@ == key);
                        assert(false);
                    }
                    if k < i {
                        assert(a[k].0@ == key);
                        assert(false);
                    }
                },
                None => {
                    assert(b[i].0@ == key);
                    assert(false);
                },
            }
        },
        None => {
            match find_str_key(b, key) {
                Some(k) => {
                    assert(a[k].0@ == key);
                    assert(false);
                },
                None => {},
            }
        },
    }
}

/// In-memory interaction store: session ids each mapped to the ordered
/// list of interactions captured under them.
#[derive(Debug)]
pub struct MemoryStorage {
    /// Sessions in order of first capture; lookups take the first entry
    /// with the session's id.
    pub interactions: Vec<(String, Vec<StoredInteraction>)>,
}

impl MemoryStorage {
    /// The interactions stored under a session id, in insertion order.
    pub open spec fn interactions_of(self, sid: Seq<char>) -> Seq<StoredInteraction> {
        match find_str_key(self.interactions@, sid) {
            Some(j) => self.interactions@[j].1@,
            None => Seq::<StoredInteraction>::empty(),
        }
    }

    /// Creates an empty store.
    pub fn new() -> (r: MemoryStorage)
        ensures
            forall|sid: Seq<char>| r.interactions_of(sid) == Seq::<StoredInteraction>::empty(),
    {
        let r = MemoryStorage { interactions: Vec::new() };
        proof {
            assert forall|sid: Seq<char>|
                r.interactions_of(sid) == Seq::<StoredInteraction>::empty() by {
                assert(find_str_key(r.interactions@, sid) is None);
            }
        }
        r
    }

    /// Captures one interaction under a session id: the pair is converted
    /// to its stored form and appended to the session's list, under a
    /// fresh identifier and the current time.
    ///
    /// Fails, leaving the store unchanged, when a body exceeds the
    /// capture ceiling or a header value is not valid UTF-8.
    pub fn store_interaction(
        &mut self,
        session_id: &str,
        request: &HttpRequest,
        response: &HttpResponse,
    ) -> (r: Result<(), SimError>)
        ensures
            r is Ok <==> request.body@.len() <= MAX_BODY_SIZE && headers_decodable(
                request@.headers,
            ) && response.body@.len() <= MAX_BODY_SIZE && headers_decodable(response@.headers),
            r is Err ==> *final(self) == *old(self),
            r is Ok ==> ({
                let now = final(self).interactions_of(session_id@);
                let before = old(self).interactions_of(session_id@);
                &&& now.len() == before.len() + 1
                &&& now.subrange(0, before.len() as int) == before
                &&& now.last().request@ == spec_request_to_stored(request@)
                &&& now.last().response@ == spec_response_to_stored(response@)
                &&& forall|other: Seq<char>|
                    other != session_id@ ==> final(self).interactions_of(other) == old(self).interactions_of(other)
            }),
    {
        let stored_request = match request_to_stored(request) {
            Ok(s) => s,
            Err(e) => {
                return Err(e);
            },
        };
        let stored_response = match response_to_stored(response) {
            Ok(s) => s,
            Err(e) => {
                return Err(e);
            },
        };
        let interaction = StoredInteraction {
            id: uuid_v4_string(),
            timestamp: unix_time_secs(),
            request: stored_request,
            response: stored_response,
        };
        let ghost before = self.interactions@;
        let n = self.interactions.len();
        let mut i: usize = 0;
        let mut found = false;
        while i < n && !found
            invariant
                n == self.interactions.len(),
                0 <= i <= n,
                self.interactions@ == before,
                !found ==> forall|j: int| 0 <= j < i ==> before[j].0@ != session_id@,
                found ==> i < n && before[i as int].0@ == session_id@ && forall|j: int|
                    0 <= j < i ==> before[j].0@ != session_id@,
            decreases n - i + (if found { 0int } else { 1int }),
        {
            if str_eq(self.interactions[i].0.as_str(), session_id) {
                found = true;
            } else {
                i += 1;
            }
        }
        if found {
            proof {
                lemma_find_str_key_at(before, session_id@, i as int);
            }
            let entry = &mut self.interactions[i];
            entry.1.push(interaction);
            proof {
                lemma_find_str_key_congruent(self.interactions@, before, session_id@);
                assert(final(self).interactions_of(session_id@).subrange(
                    0,
                    old(self).interactions_of(session_id@).len() as int,
                ) =~= old(self).interactions_of(session_id@));
                assert forall|other: Seq<char>| other != session_id@ implies final(self).interactions_of(other) == old(self).interactions_of(other) by {
                    lemma_find_str_key_congruent(self.interactions@, before, other);
                    lemma_find_str_key(before, other);
                    match find_str_key(before, other) {
                        Some(k) => {
                            assert(k != i);
                            assert(self.interactions@[k] == before[k]);
                        },
                        None => {},
                    }
                }
            }
        } else {
            proof {
                lemma_find_str_key(before, session_id@);
                match find_str_key(before, session_id@) {
                    Some(k) => {
                        assert(before[k].0@ == session_id@);
                        assert(false);
                    },
                    None => {},
                }
            }
            let mut list: Vec<StoredInteraction> = Vec::new();
            list.push(interaction);
            self.interactions.push((session_id.to_owned(), list));
            proof {
                lemma_find_str_key_at(self.interactions@, session_id@, before.len() as int);
                assert(final(self).interactions_of(session_id@).subrange(0, 0) =~= old(self).interactions_of(session_id@));
                assert forall|other: Seq<char>| other != session_id@ implies final(self).interactions_of(other) == old(self).interactions_of(other) by {
                    lemma_find_str_key(before, other);
                    match find_str_key(before, other) {
                        Some(k) => {
                            lemma_find_str_key_at(self.interactions@, other, k);
                        },
                        None => {
                            lemma_find_str_key(self.interactions@, other);
                            match find_str_key(self.interactions@, other) {
                                Some(k) => {
                                    if k < before.len() {
                                        assert(before[k].0@ == other);
                                    }
                                    assert(false);
                                },
                                None => {},
                            }
                        },
                    }
                }
            }
        }
        Ok(())
    }

    /// Returns the session's interactions, reconstructed as live pairs,
    /// in insertion order.
    pub fn get_interactions(&self, session_id: &str) -> (r: Result<
        Vec<(HttpRequest, HttpResponse)>,
        SimError,
    >)
        ensures
            r is Ok,
            r matches Ok(v) ==> ({
                let ints = self.interactions_of(session_id@);
                &&& v@.len() == ints.len()
                &&& forall|i: int|
                    0 <= i < ints.len() ==> (#[trigger] v@[i]).0@ == spec_stored_to_request(
                        ints[i].request@,
                    ) && v@[i].1@ == spec_stored_to_response(ints[i].response@)
            }),
    {
        proof {
            lemma_find_str_key(self.interactions@, session_id@);
        }
        let n = self.interactions.len();
        let mut i: usize = 0;
        let mut found: Option<usize> = None;
        while i < n && found.is_none()
            invariant
                n == self.interactions.len(),
                0 <= i <= n,
                found is None ==> forall|j: int|
                    0 <= j < i ==> self.interactions@[j].0@ != session_id@,
                found matches Some(k) ==> k < n && self.interactions@[k as int].0@ == session_id@
                    && forall|j: int| 0 <= j < k ==> self.interactions@[j].0@ != session_id@,
            decreases n - i + (if found is None { 1int } else { 0int }),
        {
            if str_eq(self.interactions[i].0.as_str(), session_id) {
                found = Some(i);
            } else {
                i += 1;
            }
        }
        match found {
            None => {
                proof {
                    lemma_find_str_key(self.interactions@, session_id@);
                    match find_str_key(self.interactions@, session_id@) {
                        Some(k) => {
                            assert(self.interactions@[k].0@ == session_id@);
                            assert(false);
                        },
                        None => {},
                    }
                }
                Ok(Vec::new())
            },
            Some(k) => {
                proof {
                    lemma_find_str_key_at(self.interactions@, session_id@, k as int);
                }
                let list = &self.interactions[k].1;
                let m = list.len();
                let mut out: Vec<(HttpRequest, HttpResponse)> = Vec::new();
                let mut j: usize = 0;
                while j < m
                    invariant
                        m == list.len(),
                        0 <= j <= m,
                        out@.len() == j,
                        forall|t: int|
                            0 <= t < j ==> (#[trigger] out@[t]).0@ == spec_stored_to_request(
                                list@[t].request@,
                            ) && out@[t].1@ == spec_stored_to_response(list@[t].response@),
                    decreases m - j,
                {
                    let req = stored_to_request(&list[j].request);
                    let resp = stored_to_response(&list[j].response);
                    out.push((req, resp));
                    j += 1;
                }
                Ok(out)
            },
        }
    }

    /// Removes every interaction stored under a session id; other
    /// sessions are untouched.  Clearing an unknown session is a no-op.
    pub fn clear_interactions(&mut self, session_id: &str) -> (r: Result<(), SimError>)
        ensures
            r is Ok,
            final(self).interactions_of(session_id@) == Seq::<StoredInteraction>::empty(),
            forall|other: Seq<char>|
                other != session_id@ ==> final(self).interactions_of(other) == old(self).interactions_of(other),
    {
        let ghost before = self.interactions@;
        let n = self.interactions.len();
        let mut i: usize = 0;
        while i < n
            invariant
                n == self.interactions.len(),
                0 <= i <= n,
                self.interactions@ == before,
                old(self).interactions@ == before,
                forall|j: int| 0 <= j < i ==> before[j].0@ != session_id@,
            decreases n - i,
        {
            if str_eq(self.interactions[i].0.as_str(), session_id) {
                proof {
                    lemma_find_str_key_at(before, session_id@, i as int);
                }
                let entry = &mut self.interactions[i];
                entry.1 = Vec::new();
                proof {
                    lemma_find_str_key_congruent(self.interactions@, before, session_id@);
                    assert forall|other: Seq<char>| other != session_id@ implies final(self).interactions_of(other) == old(self).interactions_of(other) by {
                        lemma_find_str_key_congruent(self.interactions@, before, other);
                        lemma_find_str_key(before, other);
                        match find_str_key(before, other) {
                            Some(k) => {
                                assert(k != i);
                                assert(self.interactions@[k] == before[k]);
                            },
                            None => {},
                        }
                    }
                }
                return Ok(());
            }
            i += 1;
        }
        proof {
            lemma_find_str_key(before, session_id@);
            match find_str_key(before, session_id@) {
                Some(k) => {
                    assert(before[k].0@ == session_id@);
                    assert(false);
                },
                None => {},
            }
        }
        Ok(())
    }
}

/// The filesystem backend's path scheme: one directory per session under
/// a base path, one `.json` file per interaction.
///
/// The surrounding transport performs the directory and file operations;
/// this type fixes where everything lives.
#[derive(Debug)]
pub struct FileSystemStorage {
    /// Root directory of the store.
    pub base_path: String,
}

impl FileSystemStorage {
    /// Creates the path scheme over a base directory.  The caller is
    /// responsible for creating the directory itself.
    pub fn new(base_path: &str) -> (r: FileSystemStorage)
        ensures
            r.base_path@ == base_path@,
    {
        FileSystemStorage { base_path: base_path.to_owned() }
    }

    /// The directory that holds a session's interactions.
    pub fn get_session_path(&self, session_id: &str) -> (r: String)
        ensures
            r@ == self.base_path@ + "/"@ + session_id@,
    {
        let mut p = self.base_path.clone();
        p.append("/");
        p.append(session_id);
        p
    }

    /// The file that holds one interaction.
    pub fn get_interaction_path(&self, session_id: &str, interaction_id: &str) -> (r: String)
        ensures
            r@ == self.base_path@ + "/"@ + session_id@ + "/"@ + interaction_id@ + ".json"@,
    {
        let mut p = self.get_session_path(session_id);
        p.append("/");
        p.append(interaction_id);
        p.append(".json");
        p
    }
}

/// Whether a file name ends in `.json`; other entries in a session
/// directory are ignored.
pub fn has_json_extension(name: &str) -> (r: bool)
    ensures
        r == ({
            let b = crate::text::sbytes(name@);
            let ext = crate::text::sbytes(".json"@);
            b.len() >= ext.len() && b.subrange(b.len() - ext.len(), b.len() as int) == ext
        }),
{
    let b = name.as_bytes();
    let ext = ".json".as_bytes();
    if b.len() < ext.len() {
        return false;
    }
    let off = b.len() - ext.len();
    let m = ext.len();
    let mut i: usize = 0;
    while i < m
        invariant
            b@ == crate::text::sbytes(name@),
            ext@ == crate::text::sbytes(".json"@),
            m == ext@.len(),
            b@.len() == off + m,
            b@.len() <= usize::MAX,
            0 <= i <= m,
            forall|j: int| 0 <= j < i ==> b@[off + j] == ext@[j],
        decreases m - i,
    {
        if b[off + i] != ext[i] {
            proof {
                assert(b@.subrange(b@.len() - ext@.len(), b@.len() as int)[i as int] != ext@[
                i as int]);
            }
            return false;
        }
        i += 1;
    }
    proof {
        assert(b@.subrange(b@.len() - ext@.len(), b@.len() as int) =~= ext@);
    }
    true
}

/// An interaction store: fully in memory, or laid out on the filesystem.
#[derive(Debug)]
pub enum StorageBackend {
    /// The verified in-memory store.
    Memory(MemoryStorage),
    /// The filesystem path scheme; I/O happens at the transport edge.
    FileSystem(FileSystemStorage),
}

/// Selects a storage backend from configuration.
pub struct StorageFactory {}

impl StorageFactory {
    /// Builds the backend named by `config.type_`: `memory` or
    /// `filesystem` (rooted at `config.path`); any other name fails.
    pub fn create_storage(config: &StorageConfig) -> (r: Result<StorageBackend, SimError>)
        ensures
            config.type_@ == "memory"@ ==> (r matches Ok(b) && b matches StorageBackend::Memory(m)
                && forall|sid: Seq<char>|
                m.interactions_of(sid) == Seq::<StoredInteraction>::empty()),
            config.type_@ == "filesystem"@ ==> (r matches Ok(b) && b matches
                StorageBackend::FileSystem(f) && f.base_path@ == config.path@),
            config.type_@ != "memory"@ && config.type_@ != "filesystem"@ ==> (r matches Err(e) && e
                == SimError::StorageError),
    {
        proof {
            reveal_strlit("memory");
            reveal_strlit("filesystem");
            assert("memory"@.len() == 6);
            assert("filesystem"@.len() == 10);
            assert("memory"@ != "filesystem"@);
        }
        if str_eq(config.type_.as_str(), "memory") {
            Ok(StorageBackend::Memory(MemoryStorage::new()))
        } else if str_eq(config.type_.as_str(), "filesystem") {
            Ok(StorageBackend::FileSystem(FileSystemStorage::new(config.path.as_str())))
        } else {
            Err(SimError::StorageError)
        }
    }
}

} // verus!
