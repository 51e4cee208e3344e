use irontraffic_http::authority::Authority;
use irontraffic_http::canonical::{CanonicalRequest, CanonicalRequestBuilder, CanonicalResponse};
use irontraffic_http::error::RejectReason;
use irontraffic_http::field::UnderscorePolicy;
use irontraffic_http::framing::{OtherCodings, RequestFraming};
use irontraffic_http::h1::canonicalize::{canonicalize_request, H1Context};
use irontraffic_http::h1::parser::H1Parser;
use irontraffic_http::h1::serialize::{canonical_reason, serialize_request_head, serialize_request_head_len, serialize_response_head, serialize_response_head_len, BodySource, ChunkedEncoder, ConnectionMode};
use irontraffic_http::limits::{ClampedLimits, Limits};
use irontraffic_http::net::{IpAddr, SocketAddr};
use irontraffic_http::path::{NormalizedPath, PathPolicy, RawQuery, TargetForm};
use irontraffic_http::peer::{ForwardEmit, IdentitySource, PeerIdentity, TrustPolicy};
use irontraffic_http::response::ResponseFraming;
use irontraffic_http::scalar::{Method, ParseStatus, Scheme, StatusCode, WireVersion};
use irontraffic_http::section::{FieldSection, FieldSectionBuilder};
use bytes::BytesMut;

fn status(code: u16) -> StatusCode {
    StatusCode::from_u16(code).expect("a status in range")
}

const DEFAULT_TRUST: TrustPolicy = TrustPolicy::Nobody;

fn clamped() -> ClampedLimits {
    Limits::default().clamped()
}

fn authority(host: &[u8]) -> Authority {
    let limits = clamped();
    let mut out = BytesMut::new();
    Authority::parse_into(host, Scheme::Https, &limits, &mut out).expect("valid authority")
}

fn path_query(raw: &[u8]) -> (NormalizedPath, Option<RawQuery>) {
    let limits = clamped();
    let mut out = BytesMut::new();
    NormalizedPath::parse_into(raw, &PathPolicy::default(), &limits, &mut out)
        .expect("valid path")
}

fn peer_v4() -> PeerIdentity {
    PeerIdentity {
        client: IpAddr::v4(203, 0, 113, 9),
        client_port: Some(54321),
        source: IdentitySource::Socket,
        forwarded_proto: None,
        trusted_hops: 0,
        peer_trusted: false,
    }
}

fn peer_v6() -> PeerIdentity {
    PeerIdentity {
        client: IpAddr::v6([0x2001, 0x0db8, 0, 0, 0, 0, 0, 1]),
        client_port: Some(443),
        source: IdentitySource::Socket,
        forwarded_proto: None,
        trusted_hops: 0,
        peer_trusted: false,
    }
}

fn peer_no_port() -> PeerIdentity {
    PeerIdentity {
        client_port: None,
        ..peer_v4()
    }
}

fn local_addr() -> SocketAddr {
    SocketAddr { ip: IpAddr::v4(10, 0, 0, 1), port: 8080 }
}

fn fields_with(pairs: &[(&[u8], &[u8])]) -> FieldSection {
    let limits = clamped();
    let mut arena = BytesMut::new();
    let mut builder = FieldSectionBuilder::new(&arena, &limits);
    for (name, value) in pairs {
        builder.push(&mut arena, name, value).expect("valid field");
    }
    builder.finish(&mut arena)
}

fn no_emit() -> ForwardEmit {
    ForwardEmit {
        emit_forwarded: false,
        emit_x_forwarded: false,
    }
}

fn both_emit() -> ForwardEmit {
    ForwardEmit {
        emit_forwarded: true,
        emit_x_forwarded: true,
    }
}

fn request_with(
    method: Method,
    host: &[u8],
    raw_path: &[u8],
    headers: FieldSection,
    framing: RequestFraming,
    version: WireVersion,
    peer: PeerIdentity,
) -> CanonicalRequest {
    let (path, query) = path_query(raw_path);
    CanonicalRequestBuilder::new()
        .method(method)
        .scheme(Scheme::Https)
        .authority(authority(host))
        .path(path, query)
        .headers(headers)
        .framing(framing)
        .version(version)
        .peer(peer)
        .build()
        .expect("valid request")
}

fn get_request(headers: FieldSection) -> CanonicalRequest {
    request_with(
        Method::Get,
        b"example.com",
        b"/a",
        headers,
        RequestFraming::Empty,
        WireVersion::Http11,
        peer_v4(),
    )
}

fn request_with_raw_headers(headers: FieldSection) -> CanonicalRequest {
    let (path, query) = path_query(b"/a");
    CanonicalRequest {
        method: Method::Get,
        scheme: Scheme::Https,
        authority: authority(b"example.com"),
        path,
        query,
        headers,
        framing: RequestFraming::Empty,
        version: WireVersion::Http11,
        peer: peer_v4(),
    }
}

fn response_with_raw_headers(status: StatusCode, headers: FieldSection) -> CanonicalResponse {
    CanonicalResponse {
        status,
        headers,
        framing: ResponseFraming::Empty,
        version: WireVersion::Http11,
    }
}

fn response_with(status: StatusCode, headers: FieldSection) -> CanonicalResponse {
    CanonicalResponse::new(status, headers, ResponseFraming::Empty, WireVersion::Http11)
        .expect("valid response")
}

fn occurrences(haystack: &[u8], needle: &[u8]) -> usize {
    if needle.is_empty() || haystack.len() < needle.len() {
        return 0;
    }
    haystack
        .windows(needle.len())
        .filter(|w| *w == needle)
        .count()
}

fn contains(haystack: &[u8], needle: &[u8]) -> bool {
    occurrences(haystack, needle) > 0
}

fn occurrences_ci(haystack: &[u8], needle: &[u8]) -> usize {
    let lower_hay: Vec<u8> = haystack.iter().map(u8::to_ascii_lowercase).collect();
    let lower_needle: Vec<u8> = needle.iter().map(u8::to_ascii_lowercase).collect();
    occurrences(&lower_hay, &lower_needle)
}

fn absent_ci(haystack: &[u8], needle: &[u8]) -> bool {
    occurrences_ci(haystack, needle) == 0
}

#[test]
fn serialize_corpus_table() {
    let req = get_request(fields_with(&[(b"accept", b"*/*")]));

    let mut out = BytesMut::new();
    serialize_request_head(
        &req,
        TargetForm::Origin,
        BodySource::Empty,
        ConnectionMode::Close,
        no_emit(),
        local_addr(),
        &mut out,
    )
    .unwrap();
    assert!(absent_ci(&out, b"content-length"));
    assert!(absent_ci(&out, b"transfer-encoding"));

    let mut out = BytesMut::new();
    serialize_request_head(
        &req,
        TargetForm::Origin,
        BodySource::Exact { len: 0 },
        ConnectionMode::Close,
        no_emit(),
        local_addr(),
        &mut out,
    )
    .unwrap();
    assert!(contains(&out, b"Content-Length: 0\r\n"));

    let mut out = BytesMut::new();
    serialize_request_head(
        &req,
        TargetForm::Origin,
        BodySource::Exact { len: u64::MAX },
        ConnectionMode::Close,
        no_emit(),
        local_addr(),
        &mut out,
    )
    .unwrap();
    assert!(contains(
        &out,
        format!("Content-Length: {}\r\n", u64::MAX).as_bytes()
    ));

    let mut out = BytesMut::new();
    serialize_request_head(
        &req,
        TargetForm::Origin,
        BodySource::Streaming,
        ConnectionMode::Close,
        no_emit(),
        local_addr(),
        &mut out,
    )
    .unwrap();
    assert!(contains(&out, b"Transfer-Encoding: chunked\r\n"));
    assert!(absent_ci(&out, b"content-length"));

    let poisoned = request_with_raw_headers(fields_with(&[
        (b"content-length", b"5"),
        (b"accept", b"*/*"),
    ]));
    let mut out = BytesMut::new();
    let result = serialize_request_head(
        &poisoned,
        TargetForm::Origin,
        BodySource::Exact { len: 5 },
        ConnectionMode::Close,
        no_emit(),
        local_addr(),
        &mut out,
    );
    assert!(matches!(result, Err(RejectReason::ConnectionSpecificField)));
    assert!(out.is_empty());

    let mut out = BytesMut::new();
    serialize_request_head(
        &req,
        TargetForm::Origin,
        BodySource::Empty,
        ConnectionMode::Close,
        no_emit(),
        local_addr(),
        &mut out,
    )
    .unwrap();
    assert_eq!(occurrences_ci(&out, b"host:"), 1, "out: {out:?}");

    let no_query = get_request(fields_with(&[]));
    let mut out = BytesMut::new();
    serialize_request_head(
        &no_query,
        TargetForm::Origin,
        BodySource::Empty,
        ConnectionMode::Close,
        no_emit(),
        local_addr(),
        &mut out,
    )
    .unwrap();
    assert!(out.starts_with(b"GET /a HTTP/1.1\r\n"), "out: {out:?}");

    let empty_query = request_with(
        Method::Get,
        b"example.com",
        b"/a?",
        fields_with(&[]),
        RequestFraming::Empty,
        WireVersion::Http11,
        peer_v4(),
    );
    let mut out = BytesMut::new();
    serialize_request_head(
        &empty_query,
        TargetForm::Origin,
        BodySource::Empty,
        ConnectionMode::Close,
        no_emit(),
        local_addr(),
        &mut out,
    )
    .unwrap();
    assert!(out.starts_with(b"GET /a? HTTP/1.1\r\n"), "out: {out:?}");

    let mut out = BytesMut::new();
    serialize_request_head(
        &req,
        TargetForm::Asterisk,
        BodySource::Empty,
        ConnectionMode::Close,
        no_emit(),
        local_addr(),
        &mut out,
    )
    .unwrap();
    assert!(out.starts_with(b"GET * HTTP/1.1\r\n"), "out: {out:?}");

    let connect_req = request_with(
        Method::Connect,
        b"example.com",
        b"/",
        fields_with(&[]),
        RequestFraming::Empty,
        WireVersion::Http11,
        peer_v4(),
    );
    let mut out = BytesMut::new();
    serialize_request_head(
        &connect_req,
        TargetForm::Authority,
        BodySource::Empty,
        ConnectionMode::Close,
        no_emit(),
        local_addr(),
        &mut out,
    )
    .unwrap();
    assert!(
        out.starts_with(b"CONNECT example.com:443 HTTP/1.1\r\n"),
        "out: {out:?}"
    );

    let mut out = BytesMut::new();
    let result = serialize_request_head(
        &req,
        TargetForm::Absolute,
        BodySource::Empty,
        ConnectionMode::Close,
        no_emit(),
        local_addr(),
        &mut out,
    );
    assert!(matches!(result, Err(RejectReason::TargetFormInvalid)));
    assert!(out.is_empty());

    let http10 = request_with(
        Method::Get,
        b"example.com",
        b"/a",
        fields_with(&[]),
        RequestFraming::Empty,
        WireVersion::Http10,
        peer_v4(),
    );
    let mut out = BytesMut::new();
    serialize_request_head(
        &http10,
        TargetForm::Origin,
        BodySource::Empty,
        ConnectionMode::KeepAlive,
        no_emit(),
        local_addr(),
        &mut out,
    )
    .unwrap();
    assert!(out.starts_with(b"GET /a HTTP/1.1\r\n"), "out: {out:?}");
    assert!(!contains(&out, b"HTTP/1.0"));

    let mut out = BytesMut::new();
    serialize_request_head(
        &req,
        TargetForm::Origin,
        BodySource::Empty,
        ConnectionMode::Close,
        no_emit(),
        local_addr(),
        &mut out,
    )
    .unwrap();
    assert!(!contains(&out, b"orwarded"));

    let no_port_req = request_with(
        Method::Get,
        b"example.com",
        b"/a",
        fields_with(&[]),
        RequestFraming::Empty,
        WireVersion::Http11,
        peer_no_port(),
    );
    let mut out = BytesMut::new();
    serialize_request_head(
        &no_port_req,
        TargetForm::Origin,
        BodySource::Empty,
        ConnectionMode::Close,
        both_emit(),
        local_addr(),
        &mut out,
    )
    .unwrap();
    assert!(contains(&out, b"X-Forwarded-For:"));
    assert!(!contains(&out, b"X-Forwarded-Port:"));

    let req_ok = request_with_raw_headers(fields_with(&[(b"x-a", b"good")]));
    let mut out = BytesMut::new();
    serialize_request_head(
        &req_ok,
        TargetForm::Origin,
        BodySource::Empty,
        ConnectionMode::Close,
        no_emit(),
        local_addr(),
        &mut out,
    )
    .unwrap();
    assert!(contains(&out, b"x-a: good\r\n"));
}

#[test]
fn framing_comes_only_from_body() {
    let req = request_with(
        Method::Post,
        b"example.com",
        b"/a",
        fields_with(&[(b"accept", b"*/*")]),
        RequestFraming::Exact { len: 5 },
        WireVersion::Http11,
        peer_v4(),
    );

    let mut out = BytesMut::new();
    serialize_request_head(
        &req,
        TargetForm::Origin,
        BodySource::Streaming,
        ConnectionMode::Close,
        no_emit(),
        local_addr(),
        &mut out,
    )
    .unwrap();
    assert!(contains(&out, b"Transfer-Encoding: chunked\r\n"));
    assert!(absent_ci(&out, b"content-length"));
    assert!(!contains(&out, b"Content-Length: 5"));

    let mut out = BytesMut::new();
    serialize_request_head(
        &req,
        TargetForm::Origin,
        BodySource::Exact { len: 9 },
        ConnectionMode::Close,
        no_emit(),
        local_addr(),
        &mut out,
    )
    .unwrap();
    assert!(contains(&out, b"Content-Length: 9\r\n"));
    assert!(absent_ci(&out, b"transfer-encoding"));
    assert!(!contains(&out, b": 5\r\n"), "the inbound value 5 leaked");
}

#[test]
fn at_most_one_framing_field() {
    let req = get_request(fields_with(&[]));
    for body in [
        BodySource::Empty,
        BodySource::Exact { len: 3 },
        BodySource::Streaming,
    ] {
        let mut out = BytesMut::new();
        serialize_request_head(
            &req,
            TargetForm::Origin,
            body,
            ConnectionMode::Close,
            no_emit(),
            local_addr(),
            &mut out,
        )
        .unwrap();
        let cl = occurrences_ci(&out, b"content-length:");
        let te = occurrences_ci(&out, b"transfer-encoding:");
        assert!(
            cl <= 1,
            "{body:?}: content-length appeared {cl} times, out: {out:?}"
        );
        assert!(
            te <= 1,
            "{body:?}: transfer-encoding appeared {te} times, out: {out:?}"
        );
        assert!(
            cl == 0 || te == 0,
            "{body:?}: both content-length and transfer-encoding present, out: {out:?}"
        );
    }
}

#[test]
fn host_is_generated() {
    let with_host = get_request(fields_with(&[
        (b"host", b"example.com"),
        (b"accept", b"*/*"),
    ]));
    let mut out = BytesMut::new();
    serialize_request_head(
        &with_host,
        TargetForm::Origin,
        BodySource::Empty,
        ConnectionMode::Close,
        no_emit(),
        local_addr(),
        &mut out,
    )
    .unwrap();
    assert_eq!(occurrences_ci(&out, b"host:"), 1, "out: {out:?}");
    assert!(contains(&out, b"Host: example.com\r\n"), "out: {out:?}");

    let without_host = get_request(fields_with(&[(b"accept", b"*/*")]));
    let mut out = BytesMut::new();
    serialize_request_head(
        &without_host,
        TargetForm::Origin,
        BodySource::Empty,
        ConnectionMode::Close,
        no_emit(),
        local_addr(),
        &mut out,
    )
    .unwrap();
    assert_eq!(occurrences_ci(&out, b"host:"), 1, "out: {out:?}");
}

#[test]
fn always_http_11_upstream() {
    let http10 = request_with(
        Method::Post,
        b"example.com",
        b"/a",
        fields_with(&[]),
        RequestFraming::Empty,
        WireVersion::Http10,
        peer_v4(),
    );
    let mut out = BytesMut::new();
    serialize_request_head(
        &http10,
        TargetForm::Origin,
        BodySource::Streaming,
        ConnectionMode::KeepAlive,
        no_emit(),
        local_addr(),
        &mut out,
    )
    .unwrap();
    assert!(out.starts_with(b"POST /a HTTP/1.1\r\n"), "out: {out:?}");
    assert!(!contains(&out, b"HTTP/1.0"));
    assert!(!contains(&out, b"Connection: keep-alive"));
}

#[test]
fn len_matches_written() {
    let bodies = [
        BodySource::Empty,
        BodySource::Exact { len: 7 },
        BodySource::Streaming,
    ];
    let forms = [
        TargetForm::Origin,
        TargetForm::Asterisk,
        TargetForm::Authority,
    ];
    let emits = [no_emit(), both_emit()];
    let peers = [peer_v4(), peer_v6()];

    let mut checked = 0_usize;
    let mut mismatches = Vec::new();
    for &body in &bodies {
        for &form in &forms {
            for &emit in &emits {
                for peer in &peers {
                    let method = if matches!(form, TargetForm::Authority) {
                        Method::Connect
                    } else {
                        Method::Get
                    };
                    let req = request_with(
                        method,
                        b"example.com",
                        b"/a",
                        fields_with(&[(b"x-a", b"v")]),
                        RequestFraming::Empty,
                        WireVersion::Http11,
                        *peer,
                    );
                    let predicted = serialize_request_head_len(
                        &req,
                        form,
                        body,
                        ConnectionMode::KeepAlive,
                        emit,
                        local_addr(),
                    )
                    .unwrap();
                    let mut out = BytesMut::new();
                    let written = serialize_request_head(
                        &req,
                        form,
                        body,
                        ConnectionMode::KeepAlive,
                        emit,
                        local_addr(),
                        &mut out,
                    )
                    .unwrap();
                    checked += 1;
                    if predicted != written || written != out.len() {
                        mismatches.push(format!(
                            "body={body:?} form={form:?} emit={emit:?} peer={:?}: \
                             predicted={predicted} written={written} out.len()={} \
                             (delta {})",
                            peer.client,
                            out.len(),
                            i64::try_from(written).unwrap_or(i64::MAX)
                                - i64::try_from(predicted).unwrap_or(i64::MAX)
                        ));
                    }
                }
            }
        }
    }
    assert_eq!(checked, 36, "expected exactly 36 combinations");
    assert!(
        mismatches.is_empty(),
        "{} of {checked} combinations disagree:\n{}",
        mismatches.len(),
        mismatches.join("\n")
    );
}

#[test]
fn out_is_truncated_on_error() {
    let poisoned = request_with_raw_headers(fields_with(&[
        (b"accept", b"*/*"),
        (b"connection", b"upgrade"),
    ]));
    let mut out = BytesMut::new();
    out.extend_from_slice(b"prior data");
    let recorded_len = out.len();
    let result = serialize_request_head(
        &poisoned,
        TargetForm::Origin,
        BodySource::Empty,
        ConnectionMode::Close,
        no_emit(),
        local_addr(),
        &mut out,
    );
    assert!(matches!(result, Err(RejectReason::ConnectionSpecificField)));
    assert_eq!(out.len(), recorded_len, "out must be truncated on error");
    assert_eq!(&out[..], b"prior data");
}

#[test]
fn hop_by_hop_never_reaches_the_wire() {
    let static_strip: &[(&[u8], &[u8])] = &[
        (b"connection", b"close"),
        (b"proxy-connection", b"close"),
        (b"keep-alive", b"timeout=5"),
        (b"transfer-encoding", b"chunked"),
        (b"content-length", b"5"),
        (b"upgrade", b"h2c"),
        (b"http2-settings", b"AAMAAABkAAQAAP__"),
        (b"trailer", b"x-checksum"),
        (b"proxy-authenticate", b"Basic"),
        (b"proxy-authorization", b"Basic abc"),
    ];

    for (name, value) in static_strip {
        let req = request_with_raw_headers(fields_with(&[(b"accept", b"*/*"), (name, value)]));
        let mut out = BytesMut::new();
        let result = serialize_request_head(
            &req,
            TargetForm::Origin,
            BodySource::Empty,
            ConnectionMode::Close,
            no_emit(),
            local_addr(),
            &mut out,
        );
        assert!(
            matches!(result, Err(RejectReason::ConnectionSpecificField)),
            "{name:?} must be refused, got {result:?}"
        );
        assert!(out.is_empty(), "{name:?}: out must stay empty");
    }

    let h2c = request_with_raw_headers(fields_with(&[
        (b"connection", b"upgrade"),
        (b"upgrade", b"h2c"),
    ]));
    let mut out = BytesMut::new();
    let result = serialize_request_head(
        &h2c,
        TargetForm::Origin,
        BodySource::Empty,
        ConnectionMode::Close,
        no_emit(),
        local_addr(),
        &mut out,
    );
    assert!(matches!(result, Err(RejectReason::ConnectionSpecificField)));
    assert!(out.is_empty());

    let te = request_with_raw_headers(fields_with(&[(b"te", b"trailers")]));
    let mut out = BytesMut::new();
    let result = serialize_request_head(
        &te,
        TargetForm::Origin,
        BodySource::Empty,
        ConnectionMode::Close,
        no_emit(),
        local_addr(),
        &mut out,
    );
    assert!(
        result.is_ok(),
        "te: trailers must serialize, got {result:?}"
    );
}

#[test]
fn chunked_encoder() {
    let mut enc = ChunkedEncoder::new();
    let mut out = BytesMut::new();
    assert_eq!(enc.write_chunk(b"", &mut out), 0);
    assert!(out.is_empty());

    let mut enc = ChunkedEncoder::new();
    let mut out = BytesMut::new();
    let written = enc.write_chunk(b"X", &mut out);
    assert_eq!(written, 6);
    assert_eq!(&out[..], b"1\r\nX\r\n");

    let mut enc = ChunkedEncoder::new();
    let mut out = BytesMut::new();
    let data = vec![b'A'; 4096];
    enc.write_chunk(&data, &mut out);
    assert!(out.starts_with(b"1000\r\n"));
    assert!(out.ends_with(b"\r\n"));
    assert_eq!(&out[6..6 + 4096], &data[..]);

    let mut enc = ChunkedEncoder::new();
    let mut out = BytesMut::new();
    enc.write_chunk(b"AAAA", &mut out);
    enc.write_chunk(b"", &mut out);
    enc.write_chunk(b"BBBB", &mut out);
    assert_eq!(&out[..], b"4\r\nAAAA\r\n4\r\nBBBB\r\n");

    let mut enc = ChunkedEncoder::new();
    let mut out = BytesMut::new();
    let empty_trailers = fields_with(&[]);
    let written = enc.finish(&empty_trailers, &mut out).unwrap();
    assert_eq!(written, 5);
    assert_eq!(&out[..], b"0\r\n\r\n");

    let mut enc = ChunkedEncoder::new();
    let mut out = BytesMut::new();
    let one_trailer = fields_with(&[(b"x-checksum", b"abc")]);
    enc.finish(&one_trailer, &mut out).unwrap();
    assert_eq!(&out[..], b"0\r\nx-checksum: abc\r\n\r\n");

    let mut enc = ChunkedEncoder::new();
    let mut out = BytesMut::new();
    let denied_trailer = fields_with(&[(b"content-length", b"5")]);
    let result = enc.finish(&denied_trailer, &mut out);
    assert!(matches!(result, Err(RejectReason::TrailerFieldForbidden)));
    assert!(out.is_empty());

    let mut enc = ChunkedEncoder::new();
    let mut out = BytesMut::new();
    let first = enc.finish(&empty_trailers, &mut out).unwrap();
    let after_first = out.len();
    let second = enc.finish(&empty_trailers, &mut out).unwrap();
    assert_eq!(first, 5);
    assert_eq!(second, 0);
    assert_eq!(
        out.len(),
        after_first,
        "finish must write nothing the second time"
    );
    assert!(enc.is_finished());

    let mut enc = ChunkedEncoder::new();
    let mut out = BytesMut::new();
    enc.finish(&empty_trailers, &mut out).unwrap();
    let before = out.len();
    let n = enc.write_chunk(b"late", &mut out);
    assert_eq!(n, 0);
    assert_eq!(
        out.len(),
        before,
        "write_chunk after finish must write nothing"
    );

    let mut enc = ChunkedEncoder::new();
    let mut out = BytesMut::new();
    let hundred = vec![b'z'; 100];
    enc.write_chunk(&hundred, &mut out);
    assert_eq!(
        occurrences(&out, b"\r\n"),
        2,
        "exactly one chunk boundary pair"
    );
    assert!(out.starts_with(b"64\r\n"));
}

fn ctx() -> H1Context<'static> {
    H1Context {
        limits: Limits::default().clamped(),
        path_policy: PathPolicy::default(),
        codings: OtherCodings::Reject,
        underscores: UnderscorePolicy::Reject,
        scheme: Scheme::Https,
        socket_peer: SocketAddr { ip: IpAddr::v4(127, 0, 0, 1), port: 12345 },
        proxy_proto: None,
        trust: &DEFAULT_TRUST,
        default_authority: None,
        forward_proxy: false,
        will_buffer_body: false,
    }
}

#[test]
fn prop_roundtrip() {
    let methods = [
        Method::Get,
        Method::Post,
        Method::Put,
        Method::Delete,
        Method::Options,
    ];
    let hosts: [&[u8]; 4] = [
        b"example.com",
        b"a.example.org",
        b"192.0.2.1",
        b"example.com:8080",
    ];
    let names: [&[u8]; 10] = [
        b"x-a", b"x-b", b"x-c", b"x-d", b"x-e", b"x-f", b"x-g", b"x-h", b"x-i", b"x-j",
    ];
    let mut state = 0x7777_1234_9999_5678_u64;
    let mut below = move |n: usize| -> usize {
        state ^= state << 13;
        state ^= state >> 7;
        state ^= state << 17;
        (state % n as u64) as usize
    };
    let mut served = 0;
    for _ in 0..1000 {
        let method = methods[below(5)];
        let host = hosts[below(4)];
        let mut raw_path = String::new();
        for _ in 0..below(4) {
            raw_path.push('/');
            for _ in 0..1 + below(6) {
                raw_path.push((b'a' + below(26) as u8) as char);
            }
        }
        if raw_path.is_empty() {
            raw_path.push('/');
        }
        if below(2) == 0 {
            raw_path.push('?');
            for _ in 0..1 + below(6) {
                raw_path.push((b'a' + below(26) as u8) as char);
            }
        }

        let limits = clamped();
        let mut arena = BytesMut::new();
        let mut builder = FieldSectionBuilder::new(&arena, &limits);
        builder
            .push(&mut arena, b"host", host)
            .expect("valid field");
        for _ in 0..below(13) {
            let value: Vec<u8> = (0..below(33)).map(|_| 0x21 + below(0x5e) as u8).collect();
            builder
                .push(&mut arena, names[below(10)], &value)
                .expect("valid field");
        }
        let headers = builder.finish(&mut arena);
        let (path, query) = path_query(raw_path.as_bytes());
        let (req_framing, body) = match below(3) {
            0 => (RequestFraming::Empty, BodySource::Empty),
            1 => {
                let len = 1 + below(4096) as u64;
                (RequestFraming::Exact { len }, BodySource::Exact { len })
            }
            _ => (RequestFraming::Streamed, BodySource::Streaming),
        };
        let req = CanonicalRequestBuilder::new()
            .method(method)
            .scheme(Scheme::Https)
            .authority(authority(host))
            .path(path, query)
            .headers(headers)
            .framing(req_framing)
            .version(WireVersion::Http11)
            .peer(peer_v4())
            .build()
            .expect("valid request");

        let mut out = BytesMut::new();
        let written = serialize_request_head(
            &req,
            TargetForm::Origin,
            body,
            ConnectionMode::Close,
            no_emit(),
            local_addr(),
            &mut out,
        )
        .expect("serializable");
        assert_eq!(written, out.len());

        let parser = H1Parser::new(&limits, UnderscorePolicy::Reject);
        let raw = match parser.parse_request_head(&out) {
            Ok(ParseStatus::Complete { value, .. }) => value,
            other => panic!("our own head refused at parse: {other:?} out={out:?}"),
        };
        let mut arena2 = BytesMut::new();
        let (req2, _, _) =
            canonicalize_request(&raw, &ctx(), &mut arena2).expect("our own head is accepted");
        assert_eq!(req2.method, req.method);
        assert_eq!(req2.authority, req.authority);
        assert_eq!(req2.path.as_bytes(), req.path.as_bytes());
        assert_eq!(
            req2.query.as_ref().map(RawQuery::as_bytes),
            req.query.as_ref().map(RawQuery::as_bytes)
        );
        assert_eq!(req2.framing, req.framing);
        served += 1;
    }
    assert_eq!(served, 1000);
}

#[test]
fn response_bodyless_rules() {
    let no_content = response_with(status(204), fields_with(&[]));
    let mut out = BytesMut::new();
    serialize_response_head(&no_content, Method::Get, BodySource::Empty, true, &mut out)
        .unwrap();
    assert!(absent_ci(&out, b"content-length"));
    assert!(absent_ci(&out, b"transfer-encoding"));

    let mut out = BytesMut::new();
    serialize_response_head(
        &no_content,
        Method::Get,
        BodySource::Exact { len: 5 },
        true,
        &mut out,
    )
    .unwrap();
    assert!(absent_ci(&out, b"content-length"), "the status wins");

    let not_modified = response_with(status(304), fields_with(&[]));
    let mut out = BytesMut::new();
    serialize_response_head(&not_modified, Method::Get, BodySource::Empty, true, &mut out)
        .unwrap();
    assert!(absent_ci(&out, b"transfer-encoding"));
    assert!(absent_ci(&out, b"content-length"));

    let ok = response_with(status(200), fields_with(&[]));
    let mut out = BytesMut::new();
    serialize_response_head(
        &ok,
        Method::Head,
        BodySource::Exact { len: 4096 },
        true,
        &mut out,
    )
    .unwrap();
    assert!(contains(&out, b"Content-Length: 4096\r\n"));
    assert!(absent_ci(&out, b"transfer-encoding"));

    let mut out = BytesMut::new();
    serialize_response_head(&ok, Method::Head, BodySource::Empty, true, &mut out).unwrap();
    assert!(absent_ci(&out, b"content-length"));
    assert!(absent_ci(&out, b"transfer-encoding"));

    let unknown = response_with(
        StatusCode::from_u16(599).expect("599 in range"),
        fields_with(&[]),
    );
    let mut out = BytesMut::new();
    serialize_response_head(&unknown, Method::Get, BodySource::Empty, true, &mut out).unwrap();
    assert!(out.starts_with(b"HTTP/1.1 599 \r\n"), "out: {out:?}");
}

#[test]
fn reason_phrase_table_matches_37() {
    let rows: &[(u16, &[u8])] = &[
        (100, b"Continue"),
        (101, b"Switching Protocols"),
        (103, b"Early Hints"),
        (200, b"OK"),
        (201, b"Created"),
        (202, b"Accepted"),
        (203, b"Non-Authoritative Information"),
        (204, b"No Content"),
        (205, b"Reset Content"),
        (206, b"Partial Content"),
        (300, b"Multiple Choices"),
        (301, b"Moved Permanently"),
        (302, b"Found"),
        (303, b"See Other"),
        (304, b"Not Modified"),
        (305, b"Use Proxy"),
        (307, b"Temporary Redirect"),
        (308, b"Permanent Redirect"),
        (400, b"Bad Request"),
        (401, b"Unauthorized"),
        (402, b"Payment Required"),
        (403, b"Forbidden"),
        (404, b"Not Found"),
        (405, b"Method Not Allowed"),
        (406, b"Not Acceptable"),
        (407, b"Proxy Authentication Required"),
        (408, b"Request Timeout"),
        (409, b"Conflict"),
        (410, b"Gone"),
        (411, b"Length Required"),
        (412, b"Precondition Failed"),
        (413, b"Content Too Large"),
        (414, b"URI Too Long"),
        (415, b"Unsupported Media Type"),
        (416, b"Range Not Satisfiable"),
        (417, b"Expectation Failed"),
        (421, b"Misdirected Request"),
        (422, b"Unprocessable Content"),
        (426, b"Upgrade Required"),
        (429, b"Too Many Requests"),
        (431, b"Request Header Fields Too Large"),
        (451, b"Unavailable For Legal Reasons"),
        (500, b"Internal Server Error"),
        (501, b"Not Implemented"),
        (502, b"Bad Gateway"),
        (503, b"Service Unavailable"),
        (504, b"Gateway Timeout"),
        (505, b"HTTP Version Not Supported"),
        (511, b"Network Authentication Required"),
    ];
    assert_eq!(rows.len(), 49, "#37 lists exactly 49 arms");
    for (code, phrase) in rows {
        assert_eq!(
            canonical_reason(*code),
            *phrase,
            "canonical_reason({code}) mismatch"
        );
    }
    for code in [418_u16, 510, 599] {
        assert_eq!(
            canonical_reason(code),
            b"",
            "canonical_reason({code}) must be empty"
        );
    }
}

#[test]
fn response_egress_validates_and_keeps_x_envoy() {
    let res = response_with(
        status(200),
        fields_with(&[(b"x-envoy-attempt-count", b"1"), (b"x-a", b"v")]),
    );
    let mut out = BytesMut::new();
    serialize_response_head(&res, Method::Get, BodySource::Empty, true, &mut out).unwrap();
    assert!(
        contains(&out, b"x-envoy-attempt-count: 1\r\n"),
        "x-envoy-* must survive on a response, out: {out:?}"
    );

    let poisoned =
        response_with_raw_headers(status(200), fields_with(&[(b"connection", b"close")]));
    let mut out = BytesMut::new();
    let result =
        serialize_response_head(&poisoned, Method::Get, BodySource::Empty, true, &mut out);
    assert!(matches!(result, Err(RejectReason::ConnectionSpecificField)));
    assert!(out.is_empty());
}

#[test]
fn response_length_is_predicted() {
    for (code, body, keep_alive) in [
        (200, BodySource::Exact { len: 12 }, true),
        (204, BodySource::Empty, false),
        (599, BodySource::Streaming, true),
    ] {
        let res = response_with(status(code), fields_with(&[(b"x-a", b"1"), (b"te", b"trailers")]));
        let mut out = BytesMut::new();
        let written =
            serialize_response_head(&res, Method::Get, body, keep_alive, &mut out).unwrap();
        assert_eq!(written, out.len());
        assert_eq!(
            serialize_response_head_len(&res, Method::Get, body, keep_alive),
            Ok(written)
        );
    }
}

#[test]
fn exact_request_head() {
    let req = request_with(
        Method::Post,
        b"Example.com:8443",
        b"/a/./b?q",
        fields_with(&[(b"host", b"ignored"), (b"accept", b"*/*")]),
        RequestFraming::Exact { len: 3 },
        WireVersion::Http11,
        peer_v6(),
    );
    let mut out = BytesMut::from(&b"held"[..]);
    let written = serialize_request_head(
        &req,
        TargetForm::Origin,
        BodySource::Exact { len: 3 },
        ConnectionMode::Close,
        both_emit(),
        local_addr(),
        &mut out,
    )
    .unwrap();
    let expected: &[u8] = b"heldPOST /a/b?q HTTP/1.1\r\n\
Host: example.com:8443\r\n\
Content-Length: 3\r\n\
Connection: close\r\n\
Forwarded: for=\"[2001:db8::1]:443\";by=\"10.0.0.1:8080\";proto=https;host=\"example.com:8443\"\r\n\
X-Forwarded-For: [2001:db8::1]\r\n\
X-Forwarded-Proto: https\r\n\
X-Forwarded-Host: example.com:8443\r\n\
X-Forwarded-Port: 443\r\n\
accept: */*\r\n\r\n";
    assert_eq!(&out[..], expected);
    assert_eq!(written + 4, expected.len());
}
