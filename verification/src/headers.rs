//! Header discipline at the proxy boundary: hop-by-hop headers and
//! session-selection headers, and the filters that drop them.

use vstd::prelude::*;
use crate::text::{bytes_eq, bytes_to_vec, lower_bytes, lower_bytes_vec, sbytes, starts_with_bytes};

verus! {

/// Whether `name` is one of the hop-by-hop header names, compared
/// case-insensitively.
pub open spec fn spec_is_hop_by_hop(name: Seq<char>) -> bool {
    let l = lower_bytes(sbytes(name));
    ||| l == sbytes("connection"@)
    ||| l == sbytes("keep-alive"@)
    ||| l == sbytes("proxy-authenticate"@)
    ||| l == sbytes("proxy-authorization"@)
    ||| l == sbytes("te"@)
    ||| l == sbytes("trailer"@)
    ||| l == sbytes("transfer-encoding"@)
    ||| l == sbytes("upgrade"@)
}

/// Whether `name` lowercases to a string beginning with `x-session`.
pub open spec fn spec_is_session_header(name: Seq<char>) -> bool {
    let l = lower_bytes(sbytes(name));
    let p = sbytes("x-session"@);
    l.len() >= p.len() && l.subrange(0, p.len() as int) == p
}

/// Whether a request header may be forwarded upstream: neither hop-by-hop
/// nor a session-selection header.
pub open spec fn spec_forwardable(name: Seq<char>) -> bool {
    !spec_is_hop_by_hop(name) && !spec_is_session_header(name)
}

/// Checks whether a header name is hop-by-hop, case-insensitively.
pub fn is_hop_by_hop_header(header: &str) -> (r: bool)
    ensures
        r == spec_is_hop_by_hop(header@),
{
    let l = lower_bytes_vec(header.as_bytes());
    bytes_eq(l.as_slice(), "connection".as_bytes()) || bytes_eq(
        l.as_slice(),
        "keep-alive".as_bytes(),
    ) || bytes_eq(l.as_slice(), "proxy-authenticate".as_bytes()) || bytes_eq(
        l.as_slice(),
        "proxy-authorization".as_bytes(),
    ) || bytes_eq(l.as_slice(), "te".as_bytes()) || bytes_eq(l.as_slice(), "trailer".as_bytes())
        || bytes_eq(l.as_slice(), "transfer-encoding".as_bytes()) || bytes_eq(
        l.as_slice(),
        "upgrade".as_bytes(),
    )
}

/// Checks whether a header name selects a session, case-insensitively.
pub fn is_session_header(header: &str) -> (r: bool)
    ensures
        r == spec_is_session_header(header@),
{
    let l = lower_bytes_vec(header.as_bytes());
    starts_with_bytes(l.as_slice(), "x-session".as_bytes())
}

/// The sublist of request headers that may be forwarded upstream, in
/// their original order.
pub open spec fn spec_sanitize(hs: Seq<(Seq<char>, Seq<u8>)>) -> Seq<(Seq<char>, Seq<u8>)> {
    hs.filter(|h: (Seq<char>, Seq<u8>)| spec_forwardable(h.0))
}

/// The sublist of response headers that are not hop-by-hop, in their
/// original order.
pub open spec fn spec_strip_hop(hs: Seq<(Seq<char>, Seq<u8>)>) -> Seq<(Seq<char>, Seq<u8>)> {
    hs.filter(|h: (Seq<char>, Seq<u8>)| !spec_is_hop_by_hop(h.0))
}

/// Drops hop-by-hop and session-selection headers from a request header
/// list, keeping everything else in order.
pub fn sanitize_headers(headers: &Vec<(String, Vec<u8>)>) -> (r: Vec<(String, Vec<u8>)>)
    ensures
        r.deep_view() == spec_sanitize(headers.deep_view()),
{
    let pred = Ghost(|h: (Seq<char>, Seq<u8>)| spec_forwardable(h.0));
    let mut out: Vec<(String, Vec<u8>)> = Vec::new();
    let n = headers.len();
    let mut i: usize = 0;
    proof {
        assert(headers.deep_view().subrange(0, 0).filter(pred@) =~= Seq::empty());
    }
    while i < n
        invariant
            n == headers.len(),
            0 <= i <= n,
            headers.deep_view().len() == n,
            out.deep_view() == headers.deep_view().subrange(0, i as int).filter(pred@),
            pred@ == (|h: (Seq<char>, Seq<u8>)| spec_forwardable(h.0)),
        decreases n - i,
    {
        let h = &headers[i];
        proof {
            let pre = headers.deep_view().subrange(0, i as int);
            let ext = headers.deep_view().subrange(0, i + 1 as int);
            assert(ext.drop_last() =~= pre);
            assert(ext.last() == headers.deep_view()[i as int]);
            reveal(Seq::filter);
        }
        if !is_hop_by_hop_header(h.0.as_str()) && !is_session_header(h.0.as_str()) {
            out.push((h.0.clone(), bytes_to_vec(h.1.as_slice())));
            proof {
                let stepped = headers.deep_view().subrange(0, i as int).filter(pred@).push(
                    headers.deep_view()[i as int],
                );
                assert(out.deep_view() =~= stepped);
            }
        }
        i += 1;
    }
    proof {
        assert(headers.deep_view().subrange(0, n as int) =~= headers.deep_view());
    }
    out
}

/// Drops hop-by-hop headers from a response header list, keeping
/// everything else in order.
pub fn strip_hop_headers(headers: &Vec<(String, Vec<u8>)>) -> (r: Vec<(String, Vec<u8>)>)
    ensures
        r.deep_view() == spec_strip_hop(headers.deep_view()),
{
    let pred = Ghost(|h: (Seq<char>, Seq<u8>)| !spec_is_hop_by_hop(h.0));
    let mut out: Vec<(String, Vec<u8>)> = Vec::new();
    let n = headers.len();
    let mut i: usize = 0;
    proof {
        assert(headers.deep_view().subrange(0, 0).filter(pred@) =~= Seq::empty());
    }
    while i < n
        invariant
            n == headers.len(),
            0 <= i <= n,
            headers.deep_view().len() == n,
            out.deep_view() == headers.deep_view().subrange(0, i as int).filter(pred@),
            pred@ == (|h: (Seq<char>, Seq<u8>)| !spec_is_hop_by_hop(h.0)),
        decreases n - i,
    {
        let h = &headers[i];
        proof {
            let pre = headers.deep_view().subrange(0, i as int);
            let ext = headers.deep_view().subrange(0, i + 1 as int);
            assert(ext.drop_last() =~= pre);
            assert(ext.last() == headers.deep_view()[i as int]);
            reveal(Seq::filter);
        }
        if !is_hop_by_hop_header(h.0.as_str()) {
            out.push((h.0.clone(), bytes_to_vec(h.1.as_slice())));
            proof {
                let stepped = headers.deep_view().subrange(0, i as int).filter(pred@).push(
                    headers.deep_view()[i as int],
                );
                assert(out.deep_view() =~= stepped);
            }
        }
        i += 1;
    }
    proof {
        assert(headers.deep_view().subrange(0, n as int) =~= headers.deep_view());
    }
    out
}

/// No header of a sanitized request header list is hop-by-hop.
pub proof fn lemma_sanitized_no_hop_by_hop(hs: Seq<(Seq<char>, Seq<u8>)>)
    ensures
        forall|i: int|
            0 <= i < spec_sanitize(hs).len() ==> !spec_is_hop_by_hop(
                #[trigger] spec_sanitize(hs)[i].0,
            ),
{
    let pred = |h: (Seq<char>, Seq<u8>)| spec_forwardable(h.0);
    assert forall|i: int| 0 <= i < spec_sanitize(hs).len() implies !spec_is_hop_by_hop(
        #[trigger] spec_sanitize(hs)[i].0,
    ) by {
        hs.lemma_filter_pred(pred, i);
    }
}

/// No header of a sanitized request header list is a session-selection
/// header.
pub proof fn lemma_sanitized_no_session_header(hs: Seq<(Seq<char>, Seq<u8>)>)
    ensures
        forall|i: int|
            0 <= i < spec_sanitize(hs).len() ==> !spec_is_session_header(
                #[trigger] spec_sanitize(hs)[i].0,
            ),
{
    let pred = |h: (Seq<char>, Seq<u8>)| spec_forwardable(h.0);
    assert forall|i: int| 0 <= i < spec_sanitize(hs).len() implies !spec_is_session_header(
        #[trigger] spec_sanitize(hs)[i].0,
    ) by {
        hs.lemma_filter_pred(pred, i);
    }
}

} // verus!
