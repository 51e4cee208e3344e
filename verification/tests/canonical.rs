use irontraffic_http::authority::Authority;
use irontraffic_http::canonical::{CanonicalRequest, CanonicalRequestBuilder, CanonicalResponse};
use irontraffic_http::error::RejectReason;
use irontraffic_http::framing::RequestFraming;
use irontraffic_http::limits::{ClampedLimits, Limits};
use irontraffic_http::net::IpAddr;
use irontraffic_http::path::{NormalizedPath, PathPolicy, RawQuery};
use irontraffic_http::peer::{IdentitySource, PeerIdentity};
use irontraffic_http::response::ResponseFraming;
use irontraffic_http::scalar::{Method, Scheme, StatusCode, WireVersion};
use irontraffic_http::section::{FieldSection, FieldSectionBuilder};
use bytes::BytesMut;

fn status(code: u16) -> StatusCode {
    StatusCode::from_u16(code).expect("a status in range")
}

fn clamped() -> ClampedLimits {
    Limits::default().clamped()
}

fn valid_authority() -> Authority {
    let limits = clamped();
    let mut out = BytesMut::new();
    Authority::parse_into(b"example.com", Scheme::Https, &limits, &mut out)
        .expect("well formed authority")
}

fn valid_path() -> (NormalizedPath, Option<RawQuery>) {
    let limits = clamped();
    let mut out = BytesMut::new();
    NormalizedPath::parse_into(b"/a/b", &PathPolicy::default(), &limits, &mut out)
        .expect("well formed path")
}

fn parsed_path(raw: &[u8]) -> (NormalizedPath, Option<RawQuery>) {
    let limits = clamped();
    let mut out = BytesMut::new();
    NormalizedPath::parse_into(raw, &PathPolicy::default(), &limits, &mut out)
        .expect("well formed path")
}

fn valid_headers() -> FieldSection {
    let limits = clamped();
    let mut arena = BytesMut::new();
    let mut builder = FieldSectionBuilder::new(&arena, &limits);
    builder
        .push(&mut arena, b"host", b"example.com")
        .expect("valid field");
    builder
        .push(&mut arena, b"x-custom", b"v")
        .expect("valid field");
    builder.finish(&mut arena)
}

fn headers_with(name: &[u8], value: &[u8]) -> FieldSection {
    let limits = clamped();
    let mut arena = BytesMut::new();
    let mut builder = FieldSectionBuilder::new(&arena, &limits);
    builder.push(&mut arena, name, value).expect("valid field");
    builder.finish(&mut arena)
}

fn valid_peer() -> PeerIdentity {
    PeerIdentity {
        client: IpAddr::v4(203, 0, 113, 9),
        client_port: Some(54321),
        source: IdentitySource::Socket,
        forwarded_proto: None,
        trusted_hops: 0,
        peer_trusted: false,
    }
}

fn valid_builder() -> CanonicalRequestBuilder {
    let (path, query) = valid_path();
    CanonicalRequestBuilder::new()
        .method(Method::Get)
        .scheme(Scheme::Https)
        .authority(valid_authority())
        .path(path, query)
        .headers(valid_headers())
        .framing(RequestFraming::Empty)
        .version(WireVersion::Http11)
        .peer(valid_peer())
}

fn builder_omitting(
    skip: usize,
    authority: &Authority,
    path: &(NormalizedPath, Option<RawQuery>),
    headers: &FieldSection,
    peer: PeerIdentity,
) -> CanonicalRequestBuilder {
    let mut b = CanonicalRequestBuilder::new();
    if skip != 0 {
        b = b.method(Method::Get);
    }
    if skip != 1 {
        b = b.scheme(Scheme::Https);
    }
    if skip != 2 {
        b = b.authority(authority.clone());
    }
    if skip != 3 {
        b = b.path(path.0.clone(), path.1.clone());
    }
    if skip != 4 {
        b = b.headers(headers.clone());
    }
    if skip != 5 {
        b = b.framing(RequestFraming::Empty);
    }
    if skip != 6 {
        b = b.version(WireVersion::Http11);
    }
    if skip != 7 {
        b = b.peer(peer);
    }
    b
}

#[test]
fn builder_requires_every_part() {
    let path = valid_path();
    let headers = valid_headers();
    let peer = valid_peer();
    let authority = valid_authority();

    for skip in 0..8 {
        let result = builder_omitting(skip, &authority, &path, &headers, peer).build();
        assert!(
            matches!(result, Err(RejectReason::RequestLineMalformed)),
            "omitting part {skip} must give RequestLineMalformed, got {result:?}"
        );
    }

    assert!(valid_builder().build().is_ok());
}

#[test]
fn i2_is_enforced() {
    for (name, value) in [
        (&b"content-length"[..], &b"5"[..]),
        (b"transfer-encoding", b"chunked"),
        (b"connection", b"close"),
        (b"keep-alive", b"timeout=5"),
        (b"x-forwarded-for", b"1.2.3.4"),
        (b"forwarded", b"for=1.2.3.4"),
        (b"x-irontraffic-a", b"1"),
    ] {
        let result = valid_builder().headers(headers_with(name, value)).build();
        assert!(
            matches!(result, Err(RejectReason::ConnectionSpecificField)),
            "{name:?} must be refused, got {result:?}"
        );
    }

    let ok = valid_builder()
        .headers(headers_with(b"te", b"trailers"))
        .build();
    assert!(ok.is_ok(), "te: trailers must build, got {ok:?}");
}

#[test]
fn framing_consistency() {
    let streamed_on_10 = valid_builder()
        .framing(RequestFraming::Streamed)
        .version(WireVersion::Http10)
        .build();
    assert!(matches!(
        streamed_on_10,
        Err(RejectReason::TransferEncodingOnHttp10)
    ));

    let empty_on_10 = valid_builder().version(WireVersion::Http10).build();
    assert!(empty_on_10.is_ok());

    let body_on_connect = valid_builder()
        .method(Method::Connect)
        .framing(RequestFraming::Exact { len: 5 })
        .build();
    assert!(matches!(
        body_on_connect,
        Err(RejectReason::BodyNotAllowedForMethod)
    ));

    let empty_on_connect = valid_builder()
        .method(Method::Connect)
        .framing(RequestFraming::Empty)
        .build()
        .expect("Empty framing on CONNECT must build");
    assert!(!empty_on_connect.has_body());

    let body_on_get = valid_builder()
        .framing(RequestFraming::Exact { len: 5 })
        .build()
        .expect("non-Empty framing on a non-CONNECT method must build");
    assert!(body_on_get.has_body());
}

#[test]
fn write_target_and_len_agree() {
    let (path, query) = parsed_path(b"/path");
    let req = valid_builder().path(path, query).build().unwrap();
    let mut out = BytesMut::new();
    let written = req.write_target(&mut out);
    assert_eq!(&out[..], b"/path");
    assert_eq!(written, 5);
    assert_eq!(req.target_len(), written);

    let (path, query) = parsed_path(b"/path?");
    let req = valid_builder().path(path, query).build().unwrap();
    let mut out = BytesMut::new();
    let written = req.write_target(&mut out);
    assert_eq!(&out[..], b"/path?");
    assert_eq!(written, 6);
    assert_eq!(req.target_len(), written);

    let (path, query) = parsed_path(b"/path?a=1");
    let req = valid_builder().path(path, query).build().unwrap();
    let mut out = BytesMut::new();
    let written = req.write_target(&mut out);
    assert_eq!(&out[..], b"/path?a=1");
    assert_eq!(written, 9);
    assert_eq!(req.target_len(), written);
}

#[test]
fn no_raw_target_field() {
    let req = valid_builder().build().expect("valid request builds");
    let CanonicalRequest {
        method: _,
        scheme: _,
        authority: _,
        path,
        query: _,
        headers: _,
        framing: _,
        version: _,
        peer: _,
    } = req;
    assert_eq!(path.as_bytes(), b"/a/b");
}

#[test]
fn response_strip_is_enforced() {
    let limits = clamped();

    for (name, value) in [
        (&b"content-length"[..], &b"5"[..]),
        (b"connection", b"close"),
        (b"x-irontraffic-a", b"1"),
    ] {
        let mut arena = BytesMut::new();
        let mut builder = FieldSectionBuilder::new(&arena, &limits);
        builder.push(&mut arena, name, value).expect("valid field");
        let headers = builder.finish(&mut arena);
        let result = CanonicalResponse::new(
            status(200),
            headers,
            ResponseFraming::Empty,
            WireVersion::Http11,
        );
        assert!(
            matches!(result, Err(RejectReason::ConnectionSpecificField)),
            "{name:?} must be refused"
        );
    }

    let mut arena = BytesMut::new();
    let mut builder = FieldSectionBuilder::new(&arena, &limits);
    builder
        .push(&mut arena, b"x-envoy-attempt-count", b"1")
        .expect("valid field");
    let headers = builder.finish(&mut arena);
    let result = CanonicalResponse::new(
        status(200),
        headers,
        ResponseFraming::Empty,
        WireVersion::Http11,
    );
    assert!(result.is_ok(), "x-envoy-* must survive, got {result:?}");
}
