//! Request matching: find the first stored interaction whose request has
//! the same method (case-insensitively) and the same path as an incoming
//! request.

use vstd::prelude::*;
use crate::json::{json_matches, spec_json_matches, JsonValue};
use crate::models::{HttpRequest, HttpResponse};
use crate::text::{bytes_eq, lemma_encode_utf8_injective, sbytes, upper_bytes, upper_bytes_vec};

verus! {

/// Result of a match operation.
pub enum MatchResult {
    /// A stored interaction matched; its response is carried here.
    Match(HttpResponse),
    /// No stored interaction matched.
    NoMatch,
}

/// Whether a request view answers an incoming `(method, path)`: the
/// methods agree up to ASCII case and the paths agree exactly.
pub open spec fn spec_view_matches(rv: crate::models::HttpRequestView, method: Seq<char>, path: Seq<char>) -> bool {
    &&& upper_bytes(sbytes(rv.method)) == upper_bytes(sbytes(method))
    &&& rv.path == path
}

/// Whether a stored request answers an incoming `(method, path)`: the
/// methods agree up to ASCII case and the paths agree exactly.
pub open spec fn spec_pair_matches(stored: HttpRequest, method: Seq<char>, path: Seq<char>) -> bool {
    spec_view_matches(stored@, method, path)
}

/// Index of the first stored interaction matching `(method, path)`.
pub open spec fn spec_first_match(
    ints: Seq<(HttpRequest, HttpResponse)>,
    method: Seq<char>,
    path: Seq<char>,
) -> Option<int>
    decreases ints.len(),
{
    if ints.len() == 0 {
        None
    } else if spec_pair_matches(ints[0].0, method, path) {
        Some(0int)
    } else {
        match spec_first_match(ints.drop_first(), method, path) {
            Some(i) => Some(i + 1),
            None => None,
        }
    }
}

/// The first matching interaction determines [`spec_first_match`].
proof fn lemma_first_match_at(
    ints: Seq<(HttpRequest, HttpResponse)>,
    method: Seq<char>,
    path: Seq<char>,
    i: int,
)
    requires
        0 <= i < ints.len(),
        spec_pair_matches(ints[i].0, method, path),
        forall|j: int| 0 <= j < i ==> !spec_pair_matches(ints[j].0, method, path),
    ensures
        spec_first_match(ints, method, path) == Some(i),
    decreases i,
{
    if i > 0 {
        let t = ints.drop_first();
        assert(forall|j: int| 0 <= j < t.len() ==> t[j] == ints[j + 1]);
        assert(t[i - 1] == ints[i]);
        assert forall|j: int| 0 <= j < i - 1 implies !spec_pair_matches(t[j].0, method, path) by {
            assert(t[j] == ints[j + 1]);
        }
        lemma_first_match_at(t, method, path, i - 1);
    }
}

/// Without a matching interaction, [`spec_first_match`] finds nothing.
proof fn lemma_first_match_none(
    ints: Seq<(HttpRequest, HttpResponse)>,
    method: Seq<char>,
    path: Seq<char>,
)
    requires
        forall|j: int| 0 <= j < ints.len() ==> !spec_pair_matches(ints[j].0, method, path),
    ensures
        spec_first_match(ints, method, path) is None,
    decreases ints.len(),
{
    if ints.len() > 0 {
        let t = ints.drop_first();
        assert(forall|j: int| 0 <= j < t.len() ==> t[j] == ints[j + 1]);
        lemma_first_match_none(t, method, path);
    }
}

/// Case-insensitive method comparison on the uppercased ASCII bytes.
fn methods_match(a: &str, b: &str) -> (r: bool)
    ensures
        r == (upper_bytes(sbytes(a@)) == upper_bytes(sbytes(b@))),
{
    let ua = upper_bytes_vec(a.as_bytes());
    let ub = upper_bytes_vec(b.as_bytes());
    bytes_eq(ua.as_slice(), ub.as_slice())
}

/// The request matcher; matching is by method and path, with the JSON
/// subset comparator available for body matching.
pub struct RequestMatcher {}

impl RequestMatcher {
    /// Creates a new request matcher.
    pub fn new() -> (r: RequestMatcher) {
        RequestMatcher {  }
    }

    /// Matches a request against stored interactions, returning the
    /// response of the first interaction whose request has the same
    /// method (case-insensitively) and path.
    pub fn match_request(
        &self,
        req: &HttpRequest,
        interactions: &Vec<(HttpRequest, HttpResponse)>,
    ) -> (r: MatchResult)
        ensures
            ({
                let m = spec_first_match(interactions@, req.method@, req.path@);
                &&& (r is NoMatch <==> m is None)
                &&& (m matches Some(i) ==> r matches MatchResult::Match(resp) && resp@
                    == interactions@[i].1@)
            }),
    {
        let n = interactions.len();
        let mut i: usize = 0;
        while i < n
            invariant
                n == interactions@.len(),
                0 <= i <= n,
                forall|j: int|
                    0 <= j < i ==> !spec_pair_matches(
                        (#[trigger] interactions@[j]).0,
                        req.method@,
                        req.path@,
                    ),
            decreases n - i,
        {
            let stored = &interactions[i].0;
            let method_ok = methods_match(stored.method.as_str(), req.method.as_str());
            let path_ok = bytes_eq(stored.path.as_str().as_bytes(), req.path.as_str().as_bytes());
            proof {
                if path_ok {
                    lemma_encode_utf8_injective(stored.path@, req.path@);
                }
            }
            if method_ok && path_ok {
                proof {
                    lemma_first_match_at(interactions@, req.method@, req.path@, i as int);
                }
                return MatchResult::Match(interactions[i].1.duplicate());
            }
            i += 1;
        }
        proof {
            lemma_first_match_none(interactions@, req.method@, req.path@);
        }
        MatchResult::NoMatch
    }

    /// Checks whether an actual JSON body matches an expected one under
    /// subset matching.
    pub fn json_matches(&self, actual: &JsonValue, expected: &JsonValue) -> (r: bool)
        ensures
            r == spec_json_matches(*actual, *expected),
    {
        json_matches(actual, expected)
    }
}

} // verus!
