use repo_proxy::config::{IpAddress, IpPrefix, View};
use repo_proxy::prefix_match::PrefixMatcher;
use repo_proxy::proxy::{classify, plan_request, plan_response, PipelineError, RequestPlan, ResponseAction};
use repo_proxy::request_meta::{MissingField, RequestMetadata, RequestMetadataBuilder, RequestType};

fn matcher() -> PrefixMatcher {
    PrefixMatcher::try_new(vec![View {
        name: String::from("corp"),
        source: vec![IpPrefix::V4 { bits: 0x0A00_0000, len: 8 }],
    }])
}

#[test]
fn classify_package_by_suffix() {
    assert_eq!(classify(b"/fedora/Packages/bash-5.2.rpm"), RequestType::Package);
}

#[test]
fn classify_package_wins_over_repodata_marker() {
    // Precedence: the package suffix decides even with "repodata" in the path.
    assert_eq!(classify(b"/mirror/repodata/bash.rpm"), RequestType::Package);
}

#[test]
fn classify_repodata_without_package_suffix() {
    assert_eq!(classify(b"/fedora/repodata/repomd.xml"), RequestType::Repodata);
}

#[test]
fn classify_metalink() {
    assert_eq!(classify(b"/metalink?repo=fedora-40"), RequestType::Metalink);
}

#[test]
fn classify_unknown() {
    assert_eq!(classify(b"/index.html"), RequestType::Unknown);
    assert_eq!(classify(b""), RequestType::Unknown);
}

#[test]
fn plan_request_tunnels_connect() {
    let m = matcher();
    let plan = plan_request(&m, true, IpAddress::V4(0x0A00_0001), String::from("example:443"), b"");
    assert!(matches!(plan, RequestPlan::Tunnel));
}

#[test]
fn plan_request_rejects_unrouted_client() {
    // An address outside every configured view is answered 403, no upstream.
    let m = matcher();
    let plan = plan_request(
        &m,
        false,
        IpAddress::V4(0xC0A8_0101),
        String::from("http://mirror/x.rpm"),
        b"/x.rpm",
    );
    assert!(matches!(plan, RequestPlan::Reject));
}

#[test]
fn plan_request_forwards_with_metadata() {
    let m = matcher();
    let plan = plan_request(
        &m,
        false,
        IpAddress::V4(0x0A01_0203),
        String::from("http://mirror/repodata/repomd.xml"),
        b"/repodata/repomd.xml",
    );
    match plan {
        RequestPlan::Forward(meta) => {
            assert_eq!(meta.uri, String::from("http://mirror/repodata/repomd.xml"));
            assert_eq!(meta.request_type, RequestType::Repodata);
            assert_eq!(meta.view_name, String::from("corp"));
        },
        _ => panic!("expected a forward plan"),
    }
}

#[test]
fn plan_response_requires_metadata() {
    assert_eq!(plan_response(None), Err(PipelineError::MissingMetadata));
}

#[test]
fn plan_response_rewrites_only_metalink() {
    let meta = RequestMetadata {
        uri: String::from("http://mirror/metalink"),
        request_type: RequestType::Metalink,
        view_name: String::from("corp"),
    };
    assert_eq!(plan_response(Some(&meta)), Ok(ResponseAction::RewriteMetalink));
    let meta2 = RequestMetadata { request_type: RequestType::Package, ..meta };
    assert_eq!(plan_response(Some(&meta2)), Ok(ResponseAction::PassThrough));
}

#[test]
fn builder_succeeds_with_all_fields() {
    let mut b = RequestMetadataBuilder::new();
    b.uri(String::from("http://m/x.rpm"));
    b.request_type(RequestType::Package);
    b.view_name(String::from("corp"));
    let meta = b.build().expect("all fields were set");
    assert_eq!(meta.uri, String::from("http://m/x.rpm"));
    assert_eq!(meta.request_type, RequestType::Package);
    assert_eq!(meta.view_name, String::from("corp"));
}

#[test]
fn builder_reports_missing_uri() {
    let mut b = RequestMetadataBuilder::new();
    b.request_type(RequestType::Package);
    b.view_name(String::from("corp"));
    assert_eq!(b.build().unwrap_err(), MissingField::Uri);
}

#[test]
fn builder_reports_missing_request_type() {
    let mut b = RequestMetadataBuilder::new();
    b.uri(String::from("http://m/x.rpm"));
    b.view_name(String::from("corp"));
    assert_eq!(b.build().unwrap_err(), MissingField::RequestType);
}

#[test]
fn builder_reports_missing_view_name() {
    let mut b = RequestMetadataBuilder::new();
    b.uri(String::from("http://m/x.rpm"));
    b.request_type(RequestType::Package);
    assert_eq!(b.build().unwrap_err(), MissingField::ViewName);
}
