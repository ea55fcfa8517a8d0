use vstd::prelude::*;
use crate::config::IpAddress;
use crate::prefix_match::{is_best_key, lookup_post, matches_key, PrefixMatcher};
use crate::request_meta::{RequestMetadata, RequestType};

verus! {

// ---------------------------------------------------------------------------
// Classification: a request URI path is sorted by suffix/substring rules, in
// a fixed precedence order.
// ---------------------------------------------------------------------------

/// The package-file suffix: ".rpm".
pub open spec fn rpm_suffix() -> Seq<u8> {
    seq![46u8, 114u8, 112u8, 109u8]
}

/// The repository-metadata path marker: "repodata".
pub open spec fn repodata_marker() -> Seq<u8> {
    seq![114u8, 101u8, 112u8, 111u8, 100u8, 97u8, 116u8, 97u8]
}

/// The metalink path marker: "metalink".
pub open spec fn metalink_marker() -> Seq<u8> {
    seq![109u8, 101u8, 116u8, 97u8, 108u8, 105u8, 110u8, 107u8]
}

/// `needle` closes `hay`.
pub open spec fn is_suffix(hay: Seq<u8>, needle: Seq<u8>) -> bool {
    needle.len() <= hay.len() && hay.subrange(
        hay.len() - needle.len(),
        hay.len() as int,
    ) == needle
}

/// `needle` occurs in `hay` at position `i`.
pub open spec fn occurs_at(hay: Seq<u8>, needle: Seq<u8>, i: int) -> bool {
    0 <= i && i + needle.len() <= hay.len() && hay.subrange(i, i + needle.len()) == needle
}

/// `needle` occurs somewhere in `hay`.
pub open spec fn contains_seq(hay: Seq<u8>, needle: Seq<u8>) -> bool {
    exists|i: int| occurs_at(hay, needle, i)
}

/// How a request URI path is classified, in precedence order: a path ending
/// in the package suffix is a package, whatever else it contains; then the
/// repository-metadata marker; then the metalink marker; anything else is
/// unknown.  No rule produces `Mirrorlist`.
pub open spec fn spec_classify(path: Seq<u8>) -> RequestType {
    if is_suffix(path, rpm_suffix()) {
        RequestType::Package
    } else if contains_seq(path, repodata_marker()) {
        RequestType::Repodata
    } else if contains_seq(path, metalink_marker()) {
        RequestType::Metalink
    } else {
        RequestType::Unknown
    }
}

/// Law: the package rule precedes the marker rules — a path with the package
/// suffix classifies as a package even when a marker also occurs in it.
pub proof fn lemma_package_precedence(path: Seq<u8>)
    requires
        is_suffix(path, rpm_suffix()),
    ensures
        spec_classify(path) == RequestType::Package,
{
}

/// Law: a path without the package suffix but with the repository-metadata
/// marker classifies as repository metadata.
pub proof fn lemma_repodata_when_not_package(path: Seq<u8>)
    requires
        !is_suffix(path, rpm_suffix()),
        contains_seq(path, repodata_marker()),
    ensures
        spec_classify(path) == RequestType::Repodata,
{
}

/// Does `needle` occur in `hay` starting at `i`?
fn matches_at(hay: &[u8], needle: &[u8], i: usize) -> (r: bool)
    requires
        i + needle@.len() <= hay@.len(),
    ensures
        r == occurs_at(hay@, needle@, i as int),
{
    let n = needle.len();
    let hl = hay.len();
    let mut j: usize = 0;
    while j < n
        invariant
            j <= n,
            n == needle@.len(),
            hl == hay@.len(),
            i + n <= hay@.len(),
            forall|j2: int| 0 <= j2 < j ==> hay@[i + j2] == needle@[j2],
        decreases n - j,
    {
        if hay[i + j] != needle[j] {
            assert(hay@.subrange(i as int, i + needle@.len())[j as int] != needle@[j as int]);
            return false;
        }
        j = j + 1;
    }
    assert(hay@.subrange(i as int, i + needle@.len()) =~= needle@);
    true
}

/// Does `hay` end with `needle`?
fn ends_with(hay: &[u8], needle: &[u8]) -> (r: bool)
    ensures
        r == is_suffix(hay@, needle@),
{
    if needle.len() > hay.len() {
        return false;
    }
    matches_at(hay, needle, hay.len() - needle.len())
}

/// Does `needle` occur anywhere in `hay`?
fn contains_subslice(hay: &[u8], needle: &[u8]) -> (r: bool)
    ensures
        r == contains_seq(hay@, needle@),
{
    if needle.len() > hay.len() {
        assert(forall|i: int| !occurs_at(hay@, needle@, i));
        return false;
    }
    if needle.len() == 0 {
        assert(hay@.subrange(0, 0) =~= needle@);
        assert(occurs_at(hay@, needle@, 0));
        return true;
    }
    let hl = hay.len();
    let last = hl - needle.len();
    let mut i: usize = 0;
    loop
        invariant
            i <= last + 1,
            hl == hay@.len(),
            last == hay@.len() - needle@.len(),
            1 <= needle@.len() <= hay@.len(),
            forall|i2: int| 0 <= i2 < i ==> !occurs_at(hay@, needle@, i2),
        decreases last + 1 - i,
    {
        if i > last {
            assert(forall|i2: int| i2 > last ==> !occurs_at(hay@, needle@, i2));
            return false;
        }
        if matches_at(hay, needle, i) {
            return true;
        }
        i = i + 1;
    }
}

/// Classify a request URI path.
pub fn classify(path: &[u8]) -> (r: RequestType)
    ensures
        r == spec_classify(path@),
{
    let rpm: [u8; 4] = [46u8, 114u8, 112u8, 109u8];
    let repodata: [u8; 8] = [114u8, 101u8, 112u8, 111u8, 100u8, 97u8, 116u8, 97u8];
    let metalink: [u8; 8] = [109u8, 101u8, 116u8, 97u8, 108u8, 105u8, 110u8, 107u8];
    proof {
        assert(rpm@ =~= rpm_suffix());
        assert(repodata@ =~= repodata_marker());
        assert(metalink@ =~= metalink_marker());
    }
    if ends_with(path, rpm.as_slice()) {
        RequestType::Package
    } else if contains_subslice(path, repodata.as_slice()) {
        RequestType::Repodata
    } else if contains_subslice(path, metalink.as_slice()) {
        RequestType::Metalink
    } else {
        RequestType::Unknown
    }
}

// ---------------------------------------------------------------------------
// The per-exchange decisions of the interception pipeline.
// ---------------------------------------------------------------------------

/// What a lookup through the matcher may say for a client address.
pub open spec fn route_post(matcher: PrefixMatcher, client: IpAddress, r: Option<Seq<char>>) -> bool {
    match client {
        IpAddress::V4(a) => lookup_post(32, matcher.map4(), a as u128, r),
        IpAddress::V6(a) => lookup_post(128, matcher.map6(), a, r),
    }
}

/// What the proxy does with one intercepted request.
pub enum RequestPlan {
    /// A CONNECT request: let the tunnel establish, intercept nothing here.
    Tunnel,
    /// The client's address matched no configured view: answer HTTP 403 with
    /// an empty body and contact no upstream.
    Reject,
    /// Forward the request upstream unmodified and keep this record for the
    /// response phase.
    Forward(RequestMetadata),
}

/// Everything the request phase may decide: a CONNECT tunnels; a rejection
/// stands exactly on a routing miss; a forward carries the resolved view, the
/// original URI and the path's classification.
pub open spec fn request_plan_post(
    matcher: PrefixMatcher,
    is_connect: bool,
    client: IpAddress,
    uri: Seq<char>,
    path: Seq<u8>,
    r: RequestPlan,
) -> bool {
    match r {
        RequestPlan::Tunnel => is_connect,
        RequestPlan::Reject => !is_connect && route_post(matcher, client, None),
        RequestPlan::Forward(m) => {
            &&& !is_connect
            &&& route_post(matcher, client, Some(m.view_name@))
            &&& m.uri@ == uri
            &&& m.request_type == spec_classify(path)
        },
    }
}

/// Law: a non-tunnel request from an address that no configured prefix
/// contains can only be answered by the rejection plan — the HTTP 403 with an
/// empty body — whatever else the request says; no metadata is forwarded.
pub proof fn lemma_unrouted_request_rejected(
    matcher: PrefixMatcher,
    is_connect: bool,
    client: IpAddress,
    uri: Seq<char>,
    path: Seq<u8>,
    r: RequestPlan,
)
    requires
        !is_connect,
        route_post(matcher, client, None),
        request_plan_post(matcher, is_connect, client, uri, path, r),
    ensures
        r is Reject,
{
    match r {
        RequestPlan::Tunnel => {},
        RequestPlan::Reject => {},
        RequestPlan::Forward(m) => {
            match client {
                IpAddress::V4(a) => {
                    let k = choose|k: (u32, u128)|
                        is_best_key(32, matcher.map4(), a as u128, k) && matcher.map4()[k]
                            == m.view_name@;
                    assert(matcher.map4().dom().contains(k) && matches_key(32, k, a as u128));
                },
                IpAddress::V6(a) => {
                    let k = choose|k: (u32, u128)|
                        is_best_key(128, matcher.map6(), a, k) && matcher.map6()[k]
                            == m.view_name@;
                    assert(matcher.map6().dom().contains(k) && matches_key(128, k, a));
                },
            }
        },
    }
}

/// Decide the request phase of one exchange: CONNECT requests tunnel through;
/// otherwise the client's source address picks a view (no view: reject with
/// 403), the URI path is classified, and the metadata record for the response
/// phase is assembled.
pub fn plan_request(
    matcher: &PrefixMatcher,
    is_connect: bool,
    client: IpAddress,
    uri: String,
    path: &[u8],
) -> (r: RequestPlan)
    requires
        matcher.wf(),
    ensures
        request_plan_post(*matcher, is_connect, client, uri@, path@, r),
{
    if is_connect {
        return RequestPlan::Tunnel;
    }
    match matcher.lookup(client) {
        None => RequestPlan::Reject,
        Some(view_name) => {
            let request_type = classify(path);
            RequestPlan::Forward(RequestMetadata { uri, request_type, view_name })
        },
    }
}

/// What the proxy does with one intercepted response.
#[derive(Clone, Copy, Debug, PartialEq, Eq, Structural)]
pub enum ResponseAction {
    /// Return the response unmodified.
    PassThrough,
    /// Hand the response body to the metalink rewriter first.
    RewriteMetalink,
}

/// A response arrived with no metadata record from its request phase: an
/// internal-consistency defect of the pipeline, fatal for this exchange only.
#[derive(Clone, Copy, Debug, PartialEq, Eq, Structural)]
pub enum PipelineError {
    MissingMetadata,
}

/// Decide the response phase of one exchange: the record built in the request
/// phase must be present, and only metalink responses are rewritten.
pub fn plan_response(meta: Option<&RequestMetadata>) -> (r: Result<ResponseAction, PipelineError>)
    ensures
        match r {
            Ok(a) => meta is Some && (a == ResponseAction::RewriteMetalink <==> meta->0.request_type
                == RequestType::Metalink),
            Err(e) => meta is None && e == PipelineError::MissingMetadata,
        },
{
    match meta {
        None => Err(PipelineError::MissingMetadata),
        Some(m) => {
            if m.request_type == RequestType::Metalink {
                Ok(ResponseAction::RewriteMetalink)
            } else {
                Ok(ResponseAction::PassThrough)
            }
        },
    }
}

} // verus!
