//! Canonical codec: conversion between live requests and responses and
//! their stored form, including the URI string form and header grouping.

use vstd::prelude::*;
use vstd::string::StringExecFns;
use vstd::utf8::{decode_utf8, encode_utf8_valid_utf8, valid_utf8};
use crate::errors::SimError;
use crate::models::{
    HttpRequest, HttpRequestView, HttpResponse, HttpResponseView, StoredRequest,
    StoredRequestView, StoredResponse, StoredResponseView, MAX_BODY_SIZE,
};
use crate::text::{
    all_ascii, bytes_to_string, bytes_to_vec, find_byte, lemma_ascii_valid_utf8, lemma_find_byte,
    lemma_find_byte_at, find_byte_in, lemma_encode_utf8_injective, sbytes, str_to_bytes,
    upper_bytes, upper_bytes_vec,
};

verus! {

// ---------------------------------------------------------------------------
// URI string form
// ---------------------------------------------------------------------------

/// The full URI string of a request: path and query, preceded by scheme
/// and authority only when the wire URI was absolute.
pub open spec fn spec_full_uri(r: HttpRequestView) -> Seq<char> {
    let base = if r.authority is Some {
        (if r.scheme is Some {
            r.scheme->0
        } else {
            "http"@
        }) + "://"@ + r.authority->0
    } else {
        Seq::<char>::empty()
    };
    let q = match r.query {
        Some(qs) => "?"@ + qs,
        None => Seq::<char>::empty(),
    };
    base + r.path + q
}

/// Builds the URI string of a request.
pub fn build_full_uri(req: &HttpRequest) -> (r: String)
    ensures
        r@ == spec_full_uri(req@),
{
    let mut u = String::new();
    match &req.authority {
        Some(a) => {
            match &req.scheme {
                Some(s) => u.append(s.as_str()),
                None => u.append("http"),
            }
            u.append("://");
            u.append(a.as_str());
        },
        None => {},
    }
    u.append(req.path.as_str());
    match &req.query {
        Some(q) => {
            u.append("?");
            u.append(q.as_str());
        },
        None => {},
    }
    proof {
        assert(u@ =~= spec_full_uri(req@));
    }
    u
}

/// The components of a URI string, as byte sequences.
#[verifier::ext_equal]
pub struct UriPartsBytes {
    pub scheme: Option<Seq<u8>>,
    pub authority: Option<Seq<u8>>,
    pub path: Seq<u8>,
    pub query: Option<Seq<u8>>,
}

/// Splits `rest` at its first `?` into path and query.
pub open spec fn spec_split_path_query(rest: Seq<u8>) -> (Seq<u8>, Option<Seq<u8>>) {
    match find_byte(rest, 63) {
        Some(k) => (rest.subrange(0, k), Some(rest.subrange(k + 1, rest.len() as int))),
        None => (rest, None),
    }
}

/// Index of the first `://` in `s`, if any.
pub open spec fn find_sep(s: Seq<u8>) -> Option<int>
    decreases s.len(),
{
    if s.len() < 3 {
        None
    } else if s[0] == 58 && s[1] == 47 && s[2] == 47 {
        Some(0int)
    } else {
        match find_sep(s.drop_first()) {
            Some(i) => Some(i + 1),
            None => None,
        }
    }
}

/// Whether `s` holds `://` starting at `i`.
pub open spec fn sep_at(s: Seq<u8>, i: int) -> bool {
    0 <= i && i + 3 <= s.len() && s[i] == 58 && s[i + 1] == 47 && s[i + 2] == 47
}

/// What [`find_sep`] finds: the least index of a `://`, or nothing.
pub proof fn lemma_find_sep(s: Seq<u8>)
    ensures
        match find_sep(s) {
            Some(i) => sep_at(s, i) && forall|j: int| 0 <= j < i ==> !sep_at(s, j),
            None => forall|j: int| !sep_at(s, j),
        },
    decreases s.len(),
{
    if s.len() >= 3 && !(s[0] == 58 && s[1] == 47 && s[2] == 47) {
        let t = s.drop_first();
        lemma_find_sep(t);
        assert(forall|j: int| 0 <= j < t.len() ==> t[j] == s[j + 1]);
        match find_sep(t) {
            Some(i) => {
                assert(sep_at(s, i + 1));
                assert forall|j: int| 0 <= j < i + 1 implies !sep_at(s, j) by {
                    if j > 0 && sep_at(s, j) {
                        assert(sep_at(t, j - 1));
                    }
                }
            },
            None => {
                assert forall|j: int| !sep_at(s, j) implies true by {}
                assert forall|j: int| 0 <= j implies !sep_at(s, j) by {
                    if j > 0 && sep_at(s, j) {
                        assert(sep_at(t, j - 1));
                    }
                }
            },
        }
    } else if s.len() < 3 {
        assert(forall|j: int| !sep_at(s, j));
    }
}

/// The first `://` determines [`find_sep`].
pub proof fn lemma_find_sep_at(s: Seq<u8>, i: int)
    requires
        sep_at(s, i),
        forall|j: int| 0 <= j < i ==> !sep_at(s, j),
    ensures
        find_sep(s) == Some(i),
    decreases i,
{
    if i == 0 {
    } else {
        let t = s.drop_first();
        assert(forall|j: int| 0 <= j < t.len() ==> t[j] == s[j + 1]);
        assert(sep_at(t, i - 1));
        assert forall|j: int| 0 <= j < i - 1 implies !sep_at(t, j) by {
            if sep_at(t, j) {
                assert(sep_at(s, j + 1));
            }
        }
        lemma_find_sep_at(t, i - 1);
        assert(!(s[0] == 58 && s[1] == 47 && s[2] == 47)) by {
            assert(!sep_at(s, 0));
        }
    }
}

/// Finds the first `://` in `a`.
fn find_sep_in(a: &[u8]) -> (r: Option<usize>)
    ensures
        match r {
            Some(i) => find_sep(a@) == Some(i as int),
            None => find_sep(a@) is None,
        },
{
    if a.len() < 3 {
        proof {
            lemma_find_sep(a@);
            match find_sep(a@) {
                Some(i) => {
                    assert(sep_at(a@, i));
                    assert(false);
                },
                None => {},
            }
        }
        return None;
    }
    let n = a.len() - 2;
    let mut i: usize = 0;
    while i < n
        invariant
            a.len() >= 3,
            n == a.len() - 2,
            0 <= i <= n,
            forall|j: int| 0 <= j < i ==> !sep_at(a@, j),
        decreases n - i,
    {
        if a[i] == 58 && a[i + 1] == 47 && a[i + 2] == 47 {
            proof {
                lemma_find_sep_at(a@, i as int);
            }
            return Some(i);
        }
        proof {
            assert(!sep_at(a@, i as int));
        }
        i += 1;
    }
    proof {
        assert forall|j: int| !sep_at(a@, j) by {
            if sep_at(a@, j) {
                assert(0 <= j && j + 3 <= a@.len());
                assert(j < i);
            }
        }
        lemma_find_sep(a@);
        match find_sep(a@) {
            Some(k) => {
                assert(sep_at(a@, k));
                assert(false);
            },
            None => {},
        }
    }
    None
}

/// The parse of a URI string into its components.
///
/// A string beginning with `/` is origin-form: path and query only.
/// Otherwise the text before the first `://` is the scheme, the text from
/// there to the next `/` is the authority, and the remainder splits at
/// its first `?` into path and query.
pub open spec fn spec_parse_uri(u: Seq<u8>) -> UriPartsBytes {
    if u.len() > 0 && u[0] == 47 {
        let pq = spec_split_path_query(u);
        UriPartsBytes { scheme: None, authority: None, path: pq.0, query: pq.1 }
    } else {
        match find_sep(u) {
            Some(i) => {
                let scheme = u.subrange(0, i);
                let after = u.subrange(i + 3, u.len() as int);
                match find_byte(after, 47) {
                    Some(j) => {
                        let auth = after.subrange(0, j);
                        let rest = after.subrange(j, after.len() as int);
                        let pq = spec_split_path_query(rest);
                        UriPartsBytes {
                            scheme: Some(scheme),
                            authority: Some(auth),
                            path: pq.0,
                            query: pq.1,
                        }
                    },
                    None => UriPartsBytes {
                        scheme: Some(scheme),
                        authority: Some(after),
                        path: Seq::<u8>::empty(),
                        query: None,
                    },
                }
            },
            None => {
                let pq = spec_split_path_query(u);
                UriPartsBytes { scheme: None, authority: None, path: pq.0, query: pq.1 }
            },
        }
    }
}

/// Whether every present component of `p` is valid UTF-8.
pub open spec fn uri_parts_decodable(p: UriPartsBytes) -> bool {
    &&& (p.scheme matches Some(s) ==> valid_utf8(s))
    &&& (p.authority matches Some(a) ==> valid_utf8(a))
    &&& valid_utf8(p.path)
    &&& (p.query matches Some(q) ==> valid_utf8(q))
}

/// Parsed URI components as strings: scheme, authority, path, query.
pub struct UriParts {
    pub scheme: Option<String>,
    pub authority: Option<String>,
    pub path: String,
    pub query: Option<String>,
}

/// Whether `sp` is the string form of the byte components `p`.
pub open spec fn uri_parts_match(sp: UriParts, p: UriPartsBytes) -> bool {
    &&& (sp.scheme is Some <==> p.scheme is Some)
    &&& (sp.scheme matches Some(s) ==> sbytes(s@) == p.scheme->0)
    &&& (sp.authority is Some <==> p.authority is Some)
    &&& (sp.authority matches Some(a) ==> sbytes(a@) == p.authority->0)
    &&& sbytes(sp.path@) == p.path
    &&& (sp.query is Some <==> p.query is Some)
    &&& (sp.query matches Some(q) ==> sbytes(q@) == p.query->0)
}

/// Turns a byte range into a `String`, when it is valid UTF-8.
fn range_to_string(a: &[u8], lo: usize, hi: usize) -> (r: Option<String>)
    requires
        lo <= hi <= a@.len(),
    ensures
        r is Some <==> valid_utf8(a@.subrange(lo as int, hi as int)),
        r matches Some(s) ==> sbytes(s@) == a@.subrange(lo as int, hi as int),
{
    let v = bytes_to_vec(&a[lo..hi]);
    let r = bytes_to_string(v);
    proof {
        match r {
            Some(ref s) => {
                vstd::utf8::decode_utf8_encode_utf8(a@.subrange(lo as int, hi as int));
            },
            None => {},
        }
    }
    r
}

/// Parses a URI string into scheme, authority, path and query.
///
/// When a component of the split is not valid UTF-8 the whole string is
/// returned as the path, unparsed.
pub fn parse_uri(uri: &str) -> (r: UriParts)
    ensures
        uri_parts_decodable(spec_parse_uri(sbytes(uri@))) ==> uri_parts_match(
            r,
            spec_parse_uri(sbytes(uri@)),
        ),
        !uri_parts_decodable(spec_parse_uri(sbytes(uri@))) ==> r.scheme is None && r.authority
            is None && r.path@ == uri@ && r.query is None,
{
    let a = uri.as_bytes();
    proof {
        assert(a@.subrange(0, a@.len() as int) =~= a@);
    }
    if a.len() > 0 && a[0] == 47 {
        match parse_path_query(a, 0) {
            Some((path, query)) => {
                return UriParts { scheme: None, authority: None, path, query };
            },
            None => {
                return UriParts {
                    scheme: None,
                    authority: None,
                    path: uri.to_owned(),
                    query: None,
                };
            },
        }
    }
    match find_sep_in(a) {
        Some(i) => {
            proof {
                lemma_find_sep(a@);
            }
            let scheme = range_to_string(a, 0, i);
            let after_lo = i + 3;
            let ghost after = a@.subrange(after_lo as int, a@.len() as int);
            let jr = find_byte_in(&a[after_lo..a.len()], 47);
            match jr {
                Some(j) => {
                    proof {
                        lemma_find_byte(after, 47);
                        assert(after.subrange(0, j as int) =~= a@.subrange(
                            after_lo as int,
                            after_lo + j as int,
                        ));
                        assert(after.subrange(j as int, after.len() as int) =~= a@.subrange(
                            after_lo + j as int,
                            a@.len() as int,
                        ));
                    }
                    let auth = range_to_string(a, after_lo, after_lo + j);
                    let pq = parse_path_query(a, after_lo + j);
                    match (scheme, auth, pq) {
                        (Some(s), Some(au), Some((path, query))) => {
                            return UriParts {
                                scheme: Some(s),
                                authority: Some(au),
                                path,
                                query,
                            };
                        },
                        _ => {
                            return UriParts {
                                scheme: None,
                                authority: None,
                                path: uri.to_owned(),
                                query: None,
                            };
                        },
                    }
                },
                None => {
                    proof {
                        lemma_find_byte(after, 47);
                        lemma_ascii_valid_utf8(Seq::<u8>::empty());
                    }
                    let auth = range_to_string(a, after_lo, a.len());
                    match (scheme, auth) {
                        (Some(s), Some(au)) => {
                            let path = String::new();
                            proof {
                                assert(sbytes(path@) =~= Seq::<u8>::empty());
                            }
                            return UriParts {
                                scheme: Some(s),
                                authority: Some(au),
                                path,
                                query: None,
                            };
                        },
                        _ => {
                            return UriParts {
                                scheme: None,
                                authority: None,
                                path: uri.to_owned(),
                                query: None,
                            };
                        },
                    }
                },
            }
        },
        None => {
            match parse_path_query(a, 0) {
                Some((path, query)) => {
                    return UriParts { scheme: None, authority: None, path, query };
                },
                None => {
                    return UriParts {
                        scheme: None,
                        authority: None,
                        path: uri.to_owned(),
                        query: None,
                    };
                },
            }
        },
    }
}

// ---------------------------------------------------------------------------
// Canonical method
// ---------------------------------------------------------------------------

/// The canonical stored method bytes: ASCII methods are uppercased, any
/// other text is kept as it is.
pub open spec fn spec_canon_method(m: Seq<u8>) -> Seq<u8> {
    if all_ascii(m) {
        upper_bytes(m)
    } else {
        m
    }
}

/// Uppercases an ASCII method name; non-ASCII text is returned unchanged.
pub fn canon_method(m: &str) -> (r: String)
    ensures
        sbytes(r@) == spec_canon_method(sbytes(m@)),
{
    let a = m.as_bytes();
    let mut ascii = true;
    let n = a.len();
    let mut i: usize = 0;
    while i < n
        invariant
            n == a.len(),
            0 <= i <= n,
            ascii == (forall|j: int| 0 <= j < i ==> a@[j] < 128),
        decreases n - i,
    {
        if a[i] >= 128 {
            ascii = false;
        }
        i += 1;
    }
    if ascii {
        let up = upper_bytes_vec(a);
        proof {
            assert(all_ascii(a@));
            assert(all_ascii(up@));
            lemma_ascii_valid_utf8(up@);
        }
        let r = bytes_to_string(up);
        let s = r.unwrap();
        proof {
            vstd::utf8::decode_utf8_encode_utf8(upper_bytes(a@));
        }
        s
    } else {
        m.to_owned()
    }
}

// ---------------------------------------------------------------------------
// Header grouping
// ---------------------------------------------------------------------------

/// Whether every header value is valid UTF-8.
pub open spec fn headers_decodable(hs: Seq<(Seq<char>, Seq<u8>)>) -> bool {
    forall|i: int| 0 <= i < hs.len() ==> valid_utf8(#[trigger] hs[i].1)
}

/// Header values decoded from bytes to text.
pub open spec fn spec_decode_headers(hs: Seq<(Seq<char>, Seq<u8>)>) -> Seq<(Seq<char>, Seq<char>)> {
    hs.map_values(|h: (Seq<char>, Seq<u8>)| (h.0, decode_utf8(h.1)))
}

/// Index of the first entry of `acc` whose key is `name`, if any.
pub open spec fn find_key<V>(acc: Seq<(Seq<char>, V)>, name: Seq<char>) -> Option<int>
    decreases acc.len(),
{
    if acc.len() == 0 {
        None
    } else if acc[0].0 == name {
        Some(0int)
    } else {
        match find_key(acc.drop_first(), name) {
            Some(i) => Some(i + 1),
            None => None,
        }
    }
}

/// What [`find_key`] finds: the least index keyed `name`, or nothing.
pub proof fn lemma_find_key<V>(acc: Seq<(Seq<char>, V)>, name: Seq<char>)
    ensures
        match find_key(acc, name) {
            Some(i) => 0 <= i < acc.len() && acc[i].0 == name && forall|j: int|
                0 <= j < i ==> acc[j].0 != name,
            None => forall|j: int| 0 <= j < acc.len() ==> acc[j].0 != name,
        },
    decreases acc.len(),
{
    if acc.len() > 0 && acc[0].0 != name {
        let t = acc.drop_first();
        lemma_find_key(t, name);
        assert(forall|j: int| 0 <= j < t.len() ==> t[j] == acc[j + 1]);
        match find_key(t, name) {
            Some(i) => {
                assert forall|j: int| 0 <= j < i + 1 implies acc[j].0 != name by {
                    if j > 0 {
                        assert(acc[j] == t[j - 1]);
                    }
                }
            },
            None => {
                assert forall|j: int| 0 <= j < acc.len() implies acc[j].0 != name by {
                    if j > 0 {
                        assert(acc[j] == t[j - 1]);
                    }
                }
            },
        }
    }
}

/// The first entry keyed `name` determines [`find_key`].
pub proof fn lemma_find_key_at<V>(acc: Seq<(Seq<char>, V)>, name: Seq<char>, i: int)
    requires
        0 <= i < acc.len(),
        acc[i].0 == name,
        forall|j: int| 0 <= j < i ==> acc[j].0 != name,
    ensures
        find_key(acc, name) == Some(i),
    decreases i,
{
    if i > 0 {
        let t = acc.drop_first();
        assert(forall|j: int| 0 <= j < t.len() ==> t[j] == acc[j + 1]);
        assert(t[i - 1] == acc[i]);
        assert forall|j: int| 0 <= j < i - 1 implies t[j].0 != name by {
            assert(t[j] == acc[j + 1]);
        }
        lemma_find_key_at(t, name, i - 1);
    }
}

/// One step of header grouping: append the value to the entry with the
/// same name, or open a new entry at the end.
pub open spec fn group_step(
    acc: Seq<(Seq<char>, Seq<Seq<char>>)>,
    h: (Seq<char>, Seq<char>),
) -> Seq<(Seq<char>, Seq<Seq<char>>)> {
    match find_key(acc, h.0) {
        Some(j) => acc.update(j, (acc[j].0, acc[j].1.push(h.1))),
        None => acc.push((h.0, seq![h.1])),
    }
}

/// Headers grouped by name, in order of first appearance, each name with
/// the ordered list of its values.
pub open spec fn spec_group(hs: Seq<(Seq<char>, Seq<char>)>) -> Seq<(Seq<char>, Seq<Seq<char>>)> {
    hs.fold_left(
        Seq::<(Seq<char>, Seq<Seq<char>>)>::empty(),
        |acc: Seq<(Seq<char>, Seq<Seq<char>>)>, h: (Seq<char>, Seq<char>)| group_step(acc, h),
    )
}

/// Groups live headers into the stored mapping form, decoding each value
/// from bytes to text.
///
/// Fails with an encoding error when some value is not valid UTF-8.
pub fn group_headers(headers: &Vec<(String, Vec<u8>)>) -> (r: Result<
    Vec<(String, Vec<String>)>,
    SimError,
>)
    ensures
        r is Ok <==> headers_decodable(headers.deep_view()),
        r matches Err(e) ==> e == SimError::EncodingError,
        r matches Ok(g) ==> g.deep_view() == spec_group(spec_decode_headers(headers.deep_view())),
{
    let ghost hs = headers.deep_view();
    let ghost step = |acc: Seq<(Seq<char>, Seq<Seq<char>>)>, h: (Seq<char>, Seq<char>)|
        group_step(acc, h);
    let mut out: Vec<(String, Vec<String>)> = Vec::new();
    let n = headers.len();
    let mut i: usize = 0;
    proof {
        assert(spec_decode_headers(hs.subrange(0, 0)) =~= Seq::<(Seq<char>, Seq<char>)>::empty());
    }
    while i < n
        invariant
            n == headers.len(),
            0 <= i <= n,
            hs == headers.deep_view(),
            hs.len() == n,
            step == (|acc: Seq<(Seq<char>, Seq<Seq<char>>)>, h: (Seq<char>, Seq<char>)|
                group_step(acc, h)),
            forall|j: int| 0 <= j < i ==> valid_utf8(#[trigger] hs[j].1),
            out.deep_view() == spec_decode_headers(hs.subrange(0, i as int)).fold_left(
                Seq::<(Seq<char>, Seq<Seq<char>>)>::empty(),
                step,
            ),
        decreases n - i,
    {
        let name = &headers[i].0;
        proof {
            assert(hs[i as int] == headers@[i as int].deep_view());
            assert(hs[i as int].0 == headers@[i as int].0@);
            assert(hs[i as int].1 == headers@[i as int].1@);
        }
        let vbytes = bytes_to_vec(headers[i].1.as_slice());
        let decoded = bytes_to_string(vbytes);
        match decoded {
            None => {
                proof {
                    assert(!valid_utf8(hs[i as int].1));
                }
                return Err(SimError::EncodingError);
            },
            Some(value) => {
                let ghost dec_pre = spec_decode_headers(hs.subrange(0, i as int));
                let ghost dec_post = spec_decode_headers(hs.subrange(0, i + 1));
                let ghost h = (name@, value@);
                proof {
                    assert(dec_post.drop_last() =~= dec_pre);
                    assert(hs.subrange(0, i + 1).last() == hs[i as int]);
                    assert(dec_post.last() == (hs[i as int].0, decode_utf8(hs[i as int].1)));
                    assert(dec_post.last() == h);
                    assert(dec_post.fold_left(
                        Seq::<(Seq<char>, Seq<Seq<char>>)>::empty(),
                        step,
                    ) == group_step(out.deep_view(), h));
                }
                // Linear scan for an existing entry with this name.
                let mut idx: usize = 0;
                let m = out.len();
                let mut found = false;
                while idx < m && !found
                    invariant
                        m == out.len(),
                        0 <= idx <= m,
                        out.deep_view().len() == m,
                        !found ==> forall|j: int|
                            0 <= j < idx ==> out.deep_view()[j].0 != name@,
                        found ==> idx < m && out.deep_view()[idx as int].0 == name@ && forall|
                            j: int,
                        |
                            0 <= j < idx ==> out.deep_view()[j].0 != name@,
                    decreases m - idx + (if found { 0int } else { 1int }),
                {
                    if crate::text::str_eq(out[idx].0.as_str(), name.as_str()) {
                        found = true;
                    } else {
                        idx += 1;
                    }
                }
                if found {
                    proof {
                        lemma_find_key_at(out.deep_view(), name@, idx as int);
                    }
                    let ghost before = out.deep_view();
                    let e = &mut out[idx];
                    e.1.push(value);
                    proof {
                        assert(out.deep_view() =~~= group_step(before, h));
                    }
                } else {
                    proof {
                        lemma_find_key(out.deep_view(), name@);
                        match find_key(out.deep_view(), name@) {
                            Some(k) => {
                                assert(out.deep_view()[k].0 == name@);
                                assert(false);
                            },
                            None => {},
                        }
                    }
                    let ghost before = out.deep_view();
                    let mut vs: Vec<String> = Vec::new();
                    vs.push(value);
                    out.push((name.clone(), vs));
                    proof {
                        assert(out.deep_view() =~~= group_step(before, h));
                    }
                }
                i += 1;
            },
        }
    }
    proof {
        assert(hs.subrange(0, n as int) =~= hs);
    }
    Ok(out)
}

/// The stored header mapping flattened back to wire-order pairs: each
/// name, in mapping order, repeated once per value, values in list order.
pub open spec fn spec_ungroup(gs: Seq<(Seq<char>, Seq<Seq<char>>)>) -> Seq<(Seq<char>, Seq<u8>)>
    decreases gs.len(),
{
    if gs.len() == 0 {
        Seq::<(Seq<char>, Seq<u8>)>::empty()
    } else {
        spec_ungroup(gs.drop_last()) + gs.last().1.map_values(
            |v: Seq<char>| (gs.last().0, sbytes(v)),
        )
    }
}

/// Flattens a stored header mapping into wire-order pairs with byte
/// values.
pub fn ungroup_headers(gs: &Vec<(String, Vec<String>)>) -> (r: Vec<(String, Vec<u8>)>)
    ensures
        r.deep_view() == spec_ungroup(gs.deep_view()),
{
    let mut out: Vec<(String, Vec<u8>)> = Vec::new();
    let n = gs.len();
    let mut i: usize = 0;
    proof {
        assert(out.deep_view() =~= spec_ungroup(gs.deep_view().subrange(0, 0)));
    }
    while i < n
        invariant
            n == gs.len(),
            0 <= i <= n,
            gs.deep_view().len() == n,
            out.deep_view() == spec_ungroup(gs.deep_view().subrange(0, i as int)),
        decreases n - i,
    {
        let name = &gs[i].0;
        let values = &gs[i].1;
        let m = values.len();
        let mut k: usize = 0;
        let ghost base = out.deep_view();
        let ghost entry = gs.deep_view()[i as int];
        proof {
            assert(entry == gs@[i as int].deep_view());
            assert(entry.0 == gs@[i as int].0@);
            assert(entry.1 == gs@[i as int].1.deep_view());
        }
        while k < m
            invariant
                m == values.len(),
                0 <= k <= m,
                entry == gs.deep_view()[i as int],
                0 <= i < gs.deep_view().len(),
                entry.1.len() == m,
                name@ == entry.0,
                values.deep_view() == entry.1,
                out.deep_view() == base + entry.1.subrange(0, k as int).map_values(
                    |v: Seq<char>| (entry.0, sbytes(v)),
                ),
            decreases m - k,
        {
            let ghost before = out.deep_view();
            out.push((name.clone(), str_to_bytes(values[k].as_str())));
            proof {
                assert(entry.1[k as int] == values@[k as int]@);
                assert(out.deep_view() =~~= before.push((entry.0, sbytes(entry.1[k as int]))));
                assert(entry.1.subrange(0, k + 1).map_values(
                    |v: Seq<char>| (entry.0, sbytes(v)),
                ) =~~= entry.1.subrange(0, k as int).map_values(
                    |v: Seq<char>| (entry.0, sbytes(v)),
                ).push((entry.0, sbytes(entry.1[k as int]))));
                assert(out.deep_view() =~~= base + entry.1.subrange(0, k + 1).map_values(
                    |v: Seq<char>| (entry.0, sbytes(v)),
                ));
            }
            k += 1;
        }
        proof {
            let pre = gs.deep_view().subrange(0, i as int);
            let ext = gs.deep_view().subrange(0, i + 1);
            assert(ext.drop_last() =~= pre);
            assert(ext.last() == entry);
            assert(entry.1.subrange(0, m as int) =~= entry.1);
            assert(out.deep_view() =~= spec_ungroup(ext));
        }
        i += 1;
    }
    proof {
        assert(gs.deep_view().subrange(0, n as int) =~= gs.deep_view());
    }
    out
}

/// Splits `a[lo..]` at its first `?` into path and query strings.
///
/// Returns `None` when either side is not valid UTF-8.
fn parse_path_query(a: &[u8], lo: usize) -> (r: Option<(String, Option<String>)>)
    requires
        lo <= a@.len(),
    ensures
        ({
            let rest = a@.subrange(lo as int, a@.len() as int);
            let pq = spec_split_path_query(rest);
            &&& (r is Some <==> valid_utf8(pq.0) && (pq.1 matches Some(q) ==> valid_utf8(q)))
            &&& (r matches Some(s) ==> sbytes(s.0@) == pq.0 && (s.1 is Some <==> pq.1 is Some) && (
            s.1 matches Some(q) ==> sbytes(q@) == pq.1->0))
        }),
{
    let ghost rest = a@.subrange(lo as int, a@.len() as int);
    let kr = find_byte_in(&a[lo..a.len()], 63);
    match kr {
        Some(k) => {
            proof {
                lemma_find_byte(rest, 63);
                assert(rest.subrange(0, k as int) =~= a@.subrange(lo as int, lo + k as int));
                assert(rest.subrange(k + 1, rest.len() as int) =~= a@.subrange(
                    lo + k + 1,
                    a@.len() as int,
                ));
            }
            let path = range_to_string(a, lo, lo + k);
            let query = range_to_string(a, lo + k + 1, a.len());
            match (path, query) {
                (Some(p), Some(q)) => Some((p, Some(q))),
                _ => None,
            }
        },
        None => {
            match range_to_string(a, lo, a.len()) {
                Some(p) => Some((p, None)),
                None => None,
            }
        },
    }
}

// ---------------------------------------------------------------------------
// URI round trip
// ---------------------------------------------------------------------------

/// Byte values of the URI punctuation literals.
proof fn lemma_uri_lit_bytes()
    ensures
        sbytes("?"@) == seq![63u8],
        sbytes("://"@) == seq![58u8, 47u8, 47u8],
{
    reveal_strlit("?");
    reveal_strlit("://");
    assert(vstd::utf8::is_ascii_chars("?"@));
    assert(vstd::utf8::is_ascii_chars("://"@));
    vstd::utf8::is_ascii_chars_encode_utf8("?"@);
    vstd::utf8::is_ascii_chars_encode_utf8("://"@);
    assert(sbytes("?"@) =~= seq![63u8]);
    assert(sbytes("://"@) =~= seq![58u8, 47u8, 47u8]);
}

/// A request whose URI components survive the round trip through the
/// stored URI string: scheme and authority stand or fall together, the
/// path is non-empty, begins with `/` and holds no `?`, and neither
/// scheme nor authority holds a `/`.
pub open spec fn wf_uri(r: HttpRequestView) -> bool {
    &&& (r.scheme is Some <==> r.authority is Some)
    &&& sbytes(r.path).len() > 0
    &&& sbytes(r.path)[0] == 47
    &&& !sbytes(r.path).contains(63)
    &&& (r.scheme matches Some(s) ==> !sbytes(s).contains(47))
    &&& (r.authority matches Some(a) ==> !sbytes(a).contains(47))
}

/// Parsing the printed URI string of a well-formed request recovers its
/// components exactly.
#[verifier::rlimit(50)]
pub proof fn lemma_parse_full_uri(r: HttpRequestView)
    requires
        wf_uri(r),
    ensures
        ({
            let p = spec_parse_uri(sbytes(spec_full_uri(r)));
            &&& uri_parts_decodable(p)
            &&& p.path == sbytes(r.path)
            &&& (p.query is Some <==> r.query is Some)
            &&& (r.query matches Some(q) ==> p.query->0 == sbytes(q))
            &&& (p.scheme is Some <==> r.scheme is Some)
            &&& (r.scheme matches Some(s) ==> p.scheme->0 == sbytes(s))
            &&& (p.authority is Some <==> r.authority is Some)
            &&& (r.authority matches Some(a) ==> p.authority->0 == sbytes(a))
        }),
{
    lemma_uri_lit_bytes();
    let pb = sbytes(r.path);
    let qtext: Seq<char> = match r.query {
        Some(qs) => "?"@ + qs,
        None => Seq::<char>::empty(),
    };
    let qb = sbytes(qtext);
    let u = sbytes(spec_full_uri(r));
    broadcast use encode_utf8_valid_utf8;

    // The query tail in bytes.
    match r.query {
        Some(qs) => {
            crate::text::lemma_encode_utf8_concat("?"@, qs);
            assert(qb =~= seq![63u8] + sbytes(qs));
        },
        None => {
            assert(qb =~= Seq::<u8>::empty());
        },
    }
    if r.authority is None {
        // Origin form: the string is path ++ query.
        assert(spec_full_uri(r) == Seq::<char>::empty() + r.path + qtext);
        assert(Seq::<char>::empty() + r.path + qtext =~= r.path + qtext);
        crate::text::lemma_encode_utf8_concat(r.path, qtext);
        assert(u == pb + qb);
        assert(u[0] == 47);
        lemma_split_rest(pb, qb, r.query is Some, match r.query {
            Some(q) => sbytes(q),
            None => Seq::<u8>::empty(),
        });
    } else {
        let sc = r.scheme->0;
        let au = r.authority->0;
        let sb = sbytes(sc);
        let ab = sbytes(au);
        // Print in byte form: scheme ++ "://" ++ authority ++ path ++ query.
        assert(spec_full_uri(r) =~= (sc + "://"@ + au) + (r.path + qtext));
        crate::text::lemma_encode_utf8_concat(sc + "://"@ + au, r.path + qtext);
        crate::text::lemma_encode_utf8_concat(sc + "://"@, au);
        crate::text::lemma_encode_utf8_concat(sc, "://"@);
        crate::text::lemma_encode_utf8_concat(r.path, qtext);
        assert(u == ((sb + seq![58u8, 47u8, 47u8]) + ab) + (pb + qb));
        assert(u =~= sb + seq![58u8, 47u8, 47u8] + ab + (pb + qb));
        // Not origin form: the first byte is no `/`.
        assert(u[0] != 47) by {
            if sb.len() > 0 {
                assert(u[0] == sb[0]);
                if sb[0] == 47 {
                    assert(sb.contains(47));
                }
            } else {
                assert(u[0] == 58);
            }
        }
        // The first `://` sits right after the scheme.
        let si = sb.len() as int;
        assert(sep_at(u, si));
        assert forall|j: int| 0 <= j < si implies !sep_at(u, j) by {
            if sep_at(u, j) {
                if j + 1 < si {
                    assert(u[j + 1] == sb[j + 1]);
                    assert(sb.contains(47));
                } else {
                    assert(u[j + 1] == 58);
                }
            }
        }
        lemma_find_sep_at(u, si);
        let after = u.subrange(si + 3, u.len() as int);
        assert(after =~= ab + (pb + qb));
        // The first `/` after the separator ends the authority.
        let ai = ab.len() as int;
        assert(after[ai] == pb[0] == 47);
        assert forall|j: int| 0 <= j < ai implies after[j] != 47 by {
            assert(after[j] == ab[j]);
            if ab[j] == 47 {
                assert(ab.contains(47));
            }
        }
        lemma_find_byte_at(after, 47, ai);
        assert(u.subrange(0, si) =~= sb);
        assert(after.subrange(0, ai) =~= ab);
        assert(after.subrange(ai, after.len() as int) =~= pb + qb);
        lemma_split_rest(pb, qb, r.query is Some, match r.query {
            Some(q) => sbytes(q),
            None => Seq::<u8>::empty(),
        });
    }
}

/// Splitting `path ++ query-tail` at the first `?` recovers path and
/// query, when the path holds no `?`.
proof fn lemma_split_rest(pb: Seq<u8>, qb: Seq<u8>, has_query: bool, qv: Seq<u8>)
    requires
        !pb.contains(63),
        has_query ==> qb == seq![63u8] + qv,
        !has_query ==> qb == Seq::<u8>::empty(),
    ensures
        !has_query ==> spec_split_path_query(pb + qb) == (pb + qb, None::<Seq<u8>>),
        !has_query ==> pb + qb == pb,
        has_query ==> spec_split_path_query(pb + qb) == (pb, Some(qv)),
{
    let rest = pb + qb;
    if has_query {
        assert(rest[pb.len() as int] == 63);
        assert forall|j: int| 0 <= j < pb.len() implies rest[j] != 63 by {
            assert(rest[j] == pb[j]);
            if pb[j] == 63 {
                assert(pb.contains(63));
            }
        }
        lemma_find_byte_at(rest, 63, pb.len() as int);
        assert(rest.subrange(0, pb.len() as int) =~= pb);
        assert(rest.subrange(pb.len() as int + 1, rest.len() as int) =~= qv);
    } else {
        assert(rest =~= pb);
        lemma_find_byte(rest, 63);
        match find_byte(rest, 63) {
            Some(k) => {
                assert(rest[k] == 63);
                assert(pb.contains(63));
                assert(false);
            },
            None => {},
        }
    }
}

// ---------------------------------------------------------------------------
// Live <-> stored conversion
// ---------------------------------------------------------------------------

/// The stored form of a live request.
pub open spec fn spec_request_to_stored(r: HttpRequestView) -> StoredRequestView
    recommends
        headers_decodable(r.headers),
{
    StoredRequestView {
        method: decode_utf8(spec_canon_method(sbytes(r.method))),
        uri: spec_full_uri(r),
        headers: spec_group(spec_decode_headers(r.headers)),
        body: r.body,
    }
}

/// The stored form of a live response.
pub open spec fn spec_response_to_stored(r: HttpResponseView) -> StoredResponseView
    recommends
        headers_decodable(r.headers),
{
    StoredResponseView {
        status: r.status,
        headers: spec_group(spec_decode_headers(r.headers)),
        body: r.body,
    }
}

/// Converts a live request to its canonical stored form.
///
/// Fails when the body exceeds the capture ceiling or when a header value
/// is not valid UTF-8.
pub fn request_to_stored(request: &HttpRequest) -> (r: Result<StoredRequest, SimError>)
    ensures
        r is Ok <==> request.body@.len() <= MAX_BODY_SIZE && headers_decodable(request@.headers),
        request.body@.len() > MAX_BODY_SIZE ==> (r matches Err(e) && e == SimError::BodyTooLarge),
        request.body@.len() <= MAX_BODY_SIZE && !headers_decodable(request@.headers) ==> (
        r matches Err(e) && e == SimError::EncodingError),
        r matches Ok(s) ==> s@ == spec_request_to_stored(request@),
{
    if request.body.len() > MAX_BODY_SIZE {
        return Err(SimError::BodyTooLarge);
    }
    let headers = match group_headers(&request.headers) {
        Ok(g) => g,
        Err(e) => {
            return Err(e);
        },
    };
    let method = canon_method(request.method.as_str());
    let uri = build_full_uri(request);
    let body = bytes_to_vec(request.body.as_slice());
    let s = StoredRequest { method, uri, headers, body };
    proof {
        vstd::utf8::encode_utf8_decode_utf8(s.method@);
        assert(s@ =~~= spec_request_to_stored(request@));
    }
    Ok(s)
}

/// Converts a live response to its canonical stored form.
///
/// Fails when the body exceeds the capture ceiling or when a header value
/// is not valid UTF-8.
pub fn response_to_stored(response: &HttpResponse) -> (r: Result<StoredResponse, SimError>)
    ensures
        r is Ok <==> response.body@.len() <= MAX_BODY_SIZE && headers_decodable(response@.headers),
        response.body@.len() > MAX_BODY_SIZE ==> (r matches Err(e) && e == SimError::BodyTooLarge),
        response.body@.len() <= MAX_BODY_SIZE && !headers_decodable(response@.headers) ==> (
        r matches Err(e) && e == SimError::EncodingError),
        r matches Ok(s) ==> s@ == spec_response_to_stored(response@),
{
    if response.body.len() > MAX_BODY_SIZE {
        return Err(SimError::BodyTooLarge);
    }
    let headers = match group_headers(&response.headers) {
        Ok(g) => g,
        Err(e) => {
            return Err(e);
        },
    };
    let body = bytes_to_vec(response.body.as_slice());
    let s = StoredResponse { status: response.status, headers, body };
    proof {
        assert(s@ =~~= spec_response_to_stored(response@));
    }
    Ok(s)
}

/// The live request reconstructed from a stored one: the URI string is
/// parsed back into components and the header mapping is flattened.
pub open spec fn spec_stored_to_request(s: StoredRequestView) -> HttpRequestView {
    let p = spec_parse_uri(sbytes(s.uri));
    if uri_parts_decodable(p) {
        HttpRequestView {
            method: s.method,
            path: decode_utf8(p.path),
            query: match p.query {
                Some(q) => Some(decode_utf8(q)),
                None => None,
            },
            scheme: match p.scheme {
                Some(sc) => Some(decode_utf8(sc)),
                None => None,
            },
            authority: match p.authority {
                Some(a) => Some(decode_utf8(a)),
                None => None,
            },
            headers: spec_ungroup(s.headers),
            body: s.body,
        }
    } else {
        HttpRequestView {
            method: s.method,
            path: s.uri,
            query: None,
            scheme: None,
            authority: None,
            headers: spec_ungroup(s.headers),
            body: s.body,
        }
    }
}

/// The live response reconstructed from a stored one.
pub open spec fn spec_stored_to_response(s: StoredResponseView) -> HttpResponseView {
    HttpResponseView { status: s.status, headers: spec_ungroup(s.headers), body: s.body }
}

/// Reconstructs a live request from its stored form.
pub fn stored_to_request(stored: &StoredRequest) -> (r: HttpRequest)
    ensures
        r@ == spec_stored_to_request(stored@),
{
    let parts = parse_uri(stored.uri.as_str());
    let headers = ungroup_headers(&stored.headers);
    let body = bytes_to_vec(stored.body.as_slice());
    let r = HttpRequest {
        method: stored.method.clone(),
        path: parts.path,
        query: parts.query,
        scheme: parts.scheme,
        authority: parts.authority,
        headers,
        body,
    };
    proof {
        let p = spec_parse_uri(sbytes(stored@.uri));
        if uri_parts_decodable(p) {
            vstd::utf8::encode_utf8_decode_utf8(r.path@);
            match r.query {
                Some(ref q) => {
                    vstd::utf8::encode_utf8_decode_utf8(q@);
                },
                None => {},
            }
            match r.scheme {
                Some(ref sc) => {
                    vstd::utf8::encode_utf8_decode_utf8(sc@);
                },
                None => {},
            }
            match r.authority {
                Some(ref a) => {
                    vstd::utf8::encode_utf8_decode_utf8(a@);
                },
                None => {},
            }
        }
        assert(r@ =~~= spec_stored_to_request(stored@));
    }
    r
}

// ---------------------------------------------------------------------------
// Round trip: live -> stored -> live
// ---------------------------------------------------------------------------

/// The ordered list of values carried by headers named `name`.
pub open spec fn header_values(hs: Seq<(Seq<char>, Seq<u8>)>, name: Seq<char>) -> Seq<Seq<u8>>
    decreases hs.len(),
{
    if hs.len() == 0 {
        Seq::<Seq<u8>>::empty()
    } else {
        let rest = header_values(hs.drop_last(), name);
        if hs.last().0 == name {
            rest.push(hs.last().1)
        } else {
            rest
        }
    }
}

/// The ordered list of decoded values carried by headers named `name`.
pub open spec fn cvalues(hs: Seq<(Seq<char>, Seq<char>)>, name: Seq<char>) -> Seq<Seq<char>>
    decreases hs.len(),
{
    if hs.len() == 0 {
        Seq::<Seq<char>>::empty()
    } else {
        let rest = cvalues(hs.drop_last(), name);
        if hs.last().0 == name {
            rest.push(hs.last().1)
        } else {
            rest
        }
    }
}

/// Each text encoded back to its UTF-8 bytes.
pub open spec fn encode_values(vs: Seq<Seq<char>>) -> Seq<Seq<u8>>
    decreases vs.len(),
{
    if vs.len() == 0 {
        Seq::<Seq<u8>>::empty()
    } else {
        encode_values(vs.drop_last()).push(sbytes(vs.last()))
    }
}

/// The value list of the entry named `name` in a grouped header mapping.
pub open spec fn gvalues(gs: Seq<(Seq<char>, Seq<Seq<char>>)>, name: Seq<char>) -> Seq<Seq<char>> {
    match find_key(gs, name) {
        Some(j) => gs[j].1,
        None => Seq::<Seq<char>>::empty(),
    }
}

/// Pairwise distinct names in a grouped header mapping.
pub open spec fn distinct_keys<V>(gs: Seq<(Seq<char>, V)>) -> bool {
    forall|i: int, j: int| 0 <= i < j < gs.len() ==> gs[i].0 != gs[j].0
}

/// [`find_key`] depends only on the keys.
proof fn lemma_find_key_congruent<V, W>(
    a: Seq<(Seq<char>, V)>,
    b: Seq<(Seq<char>, W)>,
    name: Seq<char>,
)
    requires
        a.len() == b.len(),
        forall|i: int| 0 <= i < a.len() ==> a[i].0 == b[i].0,
    ensures
        find_key(a, name) == find_key(b, name),
{
    lemma_find_key(a, name);
    lemma_find_key(b, name);
    match find_key(a, name) {
        Some(i) => {
            match find_key(b, name) {
                Some(k) => {
                    if i < k {
                        assert(b[i].0 == name);
                        assert(false);
                    }
                    if k < i {
                        assert(a[k].0 == name);
                        assert(false);
                    }
                },
                None => {
                    assert(b[i].0 == name);
                    assert(false);
                },
            }
        },
        None => {
            match find_key(b, name) {
                Some(k) => {
                    assert(a[k].0 == name);
                    assert(false);
                },
                None => {},
            }
        },
    }
}

/// [`find_key`] after a push: an existing first hit stays, a new key is
/// found at the end.
proof fn lemma_find_key_push<V>(acc: Seq<(Seq<char>, V)>, e: (Seq<char>, V), name: Seq<char>)
    ensures
        find_key(acc.push(e), name) == (match find_key(acc, name) {
            Some(j) => Some(j),
            None => if e.0 == name {
                Some(acc.len() as int)
            } else {
                None::<int>
            },
        }),
{
    lemma_find_key(acc, name);
    let p = acc.push(e);
    match find_key(acc, name) {
        Some(j) => {
            assert(p[j].0 == name);
            assert forall|m: int| 0 <= m < j implies p[m].0 != name by {
                assert(p[m] == acc[m]);
            }
            lemma_find_key_at(p, name, j);
        },
        None => {
            if e.0 == name {
                assert(p[acc.len() as int].0 == name);
                assert forall|m: int| 0 <= m < acc.len() implies p[m].0 != name by {
                    assert(p[m] == acc[m]);
                }
                lemma_find_key_at(p, name, acc.len() as int);
            } else {
                lemma_find_key(p, name);
                match find_key(p, name) {
                    Some(k) => {
                        if k < acc.len() {
                            assert(acc[k].0 == name);
                        }
                        assert(false);
                    },
                    None => {},
                }
            }
        },
    }
}

/// Grouping never produces two entries with the same name.
proof fn lemma_group_distinct(hs: Seq<(Seq<char>, Seq<char>)>)
    ensures
        distinct_keys(spec_group(hs)),
    decreases hs.len(),
{
    let step = |acc: Seq<(Seq<char>, Seq<Seq<char>>)>, h: (Seq<char>, Seq<char>)|
        group_step(acc, h);
    if hs.len() == 0 {
        assert(spec_group(hs) =~= Seq::<(Seq<char>, Seq<Seq<char>>)>::empty());
    } else {
        let pre = hs.drop_last();
        let h = hs.last();
        lemma_group_distinct(pre);
        let acc = spec_group(pre);
        assert(spec_group(hs) == step(acc, h));
        lemma_find_key(acc, h.0);
        match find_key(acc, h.0) {
            Some(j) => {
                let upd = acc.update(j, (acc[j].0, acc[j].1.push(h.1)));
                assert(forall|i: int| 0 <= i < upd.len() ==> upd[i].0 == acc[i].0);
                assert(distinct_keys(upd));
            },
            None => {
                let p = acc.push((h.0, seq![h.1]));
                assert forall|i: int, j: int| 0 <= i < j < p.len() implies p[i].0 != p[j].0 by {
                    if j == acc.len() {
                        assert(p[i] == acc[i]);
                        assert(acc[i].0 != h.0);
                    } else {
                        assert(p[i] == acc[i] && p[j] == acc[j]);
                    }
                }
            },
        }
    }
}

/// Grouping preserves, per name, the ordered list of values.
proof fn lemma_group_values(hs: Seq<(Seq<char>, Seq<char>)>, name: Seq<char>)
    ensures
        gvalues(spec_group(hs), name) == cvalues(hs, name),
    decreases hs.len(),
{
    let step = |acc: Seq<(Seq<char>, Seq<Seq<char>>)>, h: (Seq<char>, Seq<char>)|
        group_step(acc, h);
    if hs.len() == 0 {
        assert(spec_group(hs) =~= Seq::<(Seq<char>, Seq<Seq<char>>)>::empty());
    } else {
        let pre = hs.drop_last();
        let h = hs.last();
        lemma_group_values(pre, name);
        let acc = spec_group(pre);
        assert(spec_group(hs) == step(acc, h));
        lemma_find_key(acc, h.0);
        match find_key(acc, h.0) {
            Some(j) => {
                let upd = acc.update(j, (acc[j].0, acc[j].1.push(h.1)));
                lemma_find_key_congruent(upd, acc, name);
                if h.0 == name {
                    assert(find_key(acc, name) == Some(j));
                    assert(gvalues(upd, name) == acc[j].1.push(h.1));
                } else {
                    lemma_find_key(acc, name);
                    match find_key(acc, name) {
                        Some(k) => {
                            assert(acc[k].0 == name);
                            assert(k != j);
                            assert(upd[k] == acc[k]);
                            assert(gvalues(upd, name) == acc[k].1);
                        },
                        None => {},
                    }
                }
            },
            None => {
                let p = acc.push((h.0, seq![h.1]));
                lemma_find_key_push(acc, (h.0, seq![h.1]), name);
                if h.0 == name {
                    assert(find_key(acc, name) is None) by {
                        lemma_find_key(acc, name);
                        match find_key(acc, name) {
                            Some(k) => {
                                assert(acc[k].0 == h.0);
                                assert(false);
                            },
                            None => {},
                        }
                    }
                    assert(gvalues(p, name) == seq![h.1]);
                    assert(cvalues(pre, name) =~= Seq::<Seq<char>>::empty());
                    assert(cvalues(hs, name) =~= seq![h.1]);
                } else {
                    match find_key(acc, name) {
                        Some(k) => {
                            lemma_find_key(acc, name);
                            assert(p[k] == acc[k]);
                        },
                        None => {},
                    }
                }
            },
        }
    }
}

/// Splitting a header list keeps the per-name value lists additive.
proof fn lemma_header_values_add(
    a: Seq<(Seq<char>, Seq<u8>)>,
    b: Seq<(Seq<char>, Seq<u8>)>,
    name: Seq<char>,
)
    ensures
        header_values(a + b, name) == header_values(a, name) + header_values(b, name),
    decreases b.len(),
{
    if b.len() == 0 {
        assert(a + b =~= a);
        assert(header_values(a, name) + header_values(b, name) =~= header_values(a, name));
    } else {
        lemma_header_values_add(a, b.drop_last(), name);
        assert((a + b).drop_last() =~= a + b.drop_last());
        assert((a + b).last() == b.last());
        if b.last().0 == name {
            assert(header_values(a, name) + header_values(b, name) =~= (header_values(a, name)
                + header_values(b.drop_last(), name)).push(b.last().1));
        } else {
            assert(header_values(b, name) == header_values(b.drop_last(), name));
        }
    }
}

/// The per-name values of a block of headers that all carry one name:
/// everything under that name, nothing under any other.
proof fn lemma_header_values_block(
    vs: Seq<Seq<char>>,
    key: Seq<char>,
    name: Seq<char>,
    block: Seq<(Seq<char>, Seq<u8>)>,
)
    requires
        block.len() == vs.len(),
        forall|i: int| 0 <= i < vs.len() ==> block[i] == (key, sbytes(#[trigger] vs[i])),
    ensures
        header_values(block, name) == if key == name {
            encode_values(vs)
        } else {
            Seq::<Seq<u8>>::empty()
        },
    decreases vs.len(),
{
    if vs.len() > 0 {
        let bpre = block.drop_last();
        let vpre = vs.drop_last();
        assert(forall|i: int| 0 <= i < vpre.len() ==> bpre[i] == (key, sbytes(#[trigger] vpre[i])));
        lemma_header_values_block(vpre, key, name, bpre);
        assert(block.last() == (key, sbytes(vs.last())));
    }
}

/// Flattening a grouped mapping with distinct names yields, per name,
/// exactly that entry's values, encoded back to bytes.
proof fn lemma_ungroup_values(gs: Seq<(Seq<char>, Seq<Seq<char>>)>, name: Seq<char>)
    requires
        distinct_keys(gs),
    ensures
        header_values(spec_ungroup(gs), name) == encode_values(gvalues(gs, name)),
    decreases gs.len(),
{
    if gs.len() == 0 {
        assert(header_values(spec_ungroup(gs), name) =~= Seq::<Seq<u8>>::empty());
        assert(encode_values(gvalues(gs, name)) =~= Seq::<Seq<u8>>::empty());
    } else {
        let pre = gs.drop_last();
        let last = gs.last();
        assert(distinct_keys(pre)) by {
            assert(forall|i: int| 0 <= i < pre.len() ==> pre[i] == gs[i]);
        }
        lemma_ungroup_values(pre, name);
        let block = last.1.map_values(|v: Seq<char>| (last.0, sbytes(v)));
        assert(spec_ungroup(gs) == spec_ungroup(pre) + block);
        lemma_header_values_add(spec_ungroup(pre), block, name);
        assert(forall|i: int|
            0 <= i < last.1.len() ==> block[i] == (last.0, sbytes(#[trigger] last.1[i])));
        lemma_header_values_block(last.1, last.0, name, block);
        assert(gs =~= pre.push(last));
        lemma_find_key_push(pre, last, name);
        if last.0 == name {
            // `name` cannot occur in the front part.
            assert(find_key(pre, name) is None) by {
                lemma_find_key(pre, name);
                match find_key(pre, name) {
                    Some(k) => {
                        assert(gs[k].0 == gs[gs.len() - 1].0);
                        assert(false);
                    },
                    None => {},
                }
            }
            assert(gvalues(pre, name) =~= Seq::<Seq<char>>::empty());
            assert(header_values(spec_ungroup(pre), name) =~= Seq::<Seq<u8>>::empty());
            assert(find_key(gs, name) == Some(gs.len() - 1));
            assert(gvalues(gs, name) == last.1);
            assert(header_values(spec_ungroup(gs), name) =~= encode_values(gvalues(gs, name)));
        } else {
            assert(find_key(gs, name) == find_key(pre, name));
            match find_key(pre, name) {
                Some(k) => {
                    lemma_find_key(pre, name);
                    assert(gs[k] == pre[k]);
                    assert(gvalues(gs, name) == gvalues(pre, name));
                },
                None => {},
            }
            assert(header_values(spec_ungroup(gs), name) =~= encode_values(gvalues(gs, name)));
        }
    }
}

/// Decoding header values to text and encoding them back preserves, per
/// name, the ordered value list.
proof fn lemma_decode_values(hs: Seq<(Seq<char>, Seq<u8>)>, name: Seq<char>)
    requires
        headers_decodable(hs),
    ensures
        encode_values(cvalues(spec_decode_headers(hs), name)) == header_values(hs, name),
    decreases hs.len(),
{
    if hs.len() == 0 {
        assert(spec_decode_headers(hs) =~= Seq::<(Seq<char>, Seq<char>)>::empty());
        assert(encode_values(cvalues(spec_decode_headers(hs), name)) =~= Seq::<Seq<u8>>::empty());
    } else {
        let pre = hs.drop_last();
        let h = hs.last();
        assert(headers_decodable(pre)) by {
            assert(forall|i: int| 0 <= i < pre.len() ==> pre[i] == hs[i]);
        }
        lemma_decode_values(pre, name);
        let dec = spec_decode_headers(hs);
        let dpre = spec_decode_headers(pre);
        let dh = (h.0, decode_utf8(h.1));
        assert(dec.drop_last() =~= dpre);
        assert(dec.last() == dh);
        if h.0 == name {
            assert(valid_utf8(h.1)) by {
                assert(hs[hs.len() - 1] == h);
            }
            vstd::utf8::decode_utf8_encode_utf8(h.1);
            assert(cvalues(dec, name) == cvalues(dpre, name).push(dh.1));
            assert((cvalues(dpre, name).push(dh.1)).drop_last() =~= cvalues(dpre, name));
            assert((cvalues(dpre, name).push(dh.1)).last() == dh.1);
            assert(encode_values(cvalues(dec, name)) == encode_values(cvalues(dpre, name)).push(
                sbytes(dh.1),
            ));
            assert(header_values(hs, name) == header_values(pre, name).push(h.1));
        } else {
            assert(cvalues(dec, name) == cvalues(dpre, name));
            assert(header_values(hs, name) == header_values(pre, name));
        }
    }
}

/// A request the codec round-trips: well-formed URI components, body
/// within the ceiling, and UTF-8 header values.
pub open spec fn wf_request(r: HttpRequestView) -> bool {
    &&& wf_uri(r)
    &&& r.body.len() <= MAX_BODY_SIZE
    &&& headers_decodable(r.headers)
}

/// A response the codec round-trips: body within the ceiling and UTF-8
/// header values.
pub open spec fn wf_response(r: HttpResponseView) -> bool {
    &&& r.body.len() <= MAX_BODY_SIZE
    &&& headers_decodable(r.headers)
}

/// Round trip of a request through its stored form: every URI component,
/// the body, and, per header name, the ordered list of values are
/// recovered exactly; the method is recovered up to ASCII case.
pub proof fn lemma_request_round_trip(r: HttpRequestView)
    requires
        wf_request(r),
    ensures
        ({
            let b = spec_stored_to_request(spec_request_to_stored(r));
            &&& sbytes(b.method) == spec_canon_method(sbytes(r.method))
            &&& b.path == r.path
            &&& b.query == r.query
            &&& b.scheme == r.scheme
            &&& b.authority == r.authority
            &&& b.body == r.body
            &&& forall|name: Seq<char>|
                header_values(b.headers, name) == header_values(r.headers, name)
        }),
{
    broadcast use encode_utf8_valid_utf8;

    let s = spec_request_to_stored(r);
    let b = spec_stored_to_request(s);
    lemma_parse_full_uri(r);
    // URI components decode back to the original strings.
    vstd::utf8::encode_utf8_decode_utf8(r.path);
    match r.query {
        Some(q) => {
            vstd::utf8::encode_utf8_decode_utf8(q);
        },
        None => {},
    }
    match r.scheme {
        Some(sc) => {
            vstd::utf8::encode_utf8_decode_utf8(sc);
        },
        None => {},
    }
    match r.authority {
        Some(a) => {
            vstd::utf8::encode_utf8_decode_utf8(a);
        },
        None => {},
    }
    // The method: its stored bytes are the canonical bytes.
    assert(valid_utf8(spec_canon_method(sbytes(r.method)))) by {
        if all_ascii(sbytes(r.method)) {
            assert(all_ascii(upper_bytes(sbytes(r.method))));
            lemma_ascii_valid_utf8(upper_bytes(sbytes(r.method)));
        }
    }
    vstd::utf8::decode_utf8_encode_utf8(spec_canon_method(sbytes(r.method)));
    // The headers: group then ungroup keeps each name's value list.
    let dec = spec_decode_headers(r.headers);
    lemma_group_distinct(dec);
    assert forall|name: Seq<char>|
        header_values(b.headers, name) == header_values(r.headers, name) by {
        lemma_ungroup_values(spec_group(dec), name);
        lemma_group_values(dec, name);
        lemma_decode_values(r.headers, name);
    }
}

/// Round trip of a response through its stored form: the status, the
/// body, and, per header name, the ordered list of values are recovered
/// exactly.
pub proof fn lemma_response_round_trip(r: HttpResponseView)
    requires
        wf_response(r),
    ensures
        ({
            let b = spec_stored_to_response(spec_response_to_stored(r));
            &&& b.status == r.status
            &&& b.body == r.body
            &&& forall|name: Seq<char>|
                header_values(b.headers, name) == header_values(r.headers, name)
        }),
{
    let b = spec_stored_to_response(spec_response_to_stored(r));
    let dec = spec_decode_headers(r.headers);
    lemma_group_distinct(dec);
    assert forall|name: Seq<char>|
        header_values(b.headers, name) == header_values(r.headers, name) by {
        lemma_ungroup_values(spec_group(dec), name);
        lemma_group_values(dec, name);
        lemma_decode_values(r.headers, name);
    }
}

/// Reconstructs a live response from its stored form.
pub fn stored_to_response(stored: &StoredResponse) -> (r: HttpResponse)
    ensures
        r@ == spec_stored_to_response(stored@),
{
    let headers = ungroup_headers(&stored.headers);
    let body = bytes_to_vec(stored.body.as_slice());
    let r = HttpResponse { status: stored.status, headers, body };
    proof {
        assert(r@ =~~= spec_stored_to_response(stored@));
    }
    r
}

} // verus!
