use bytes::BytesMut;
use irontraffic_http::addr_text::parse_addr;
use irontraffic_http::authority::Authority;
use irontraffic_http::canonical::{CanonicalRequest, CanonicalResponse};
use irontraffic_http::cidr::IpCidr;
use irontraffic_http::error::RejectReason;
use irontraffic_http::field::UnderscorePolicy;
use irontraffic_http::forwarded::{ForwardedChain, NodeName};
use irontraffic_http::framing::{
    parse_content_length, tokenize_transfer_encoding, OtherCodings,
};
use irontraffic_http::h1::canonicalize::{canonicalize_request, canonicalize_response, H1Context};
use irontraffic_http::h1::chunked::{trailer_denied, ChunkedDecoder, ChunkedEvent};
use irontraffic_http::h1::parser::{H1Parser, HeadScanBudget, Span};
use irontraffic_http::h1::serialize::{serialize_response_head, BodySource, ChunkedEncoder};
use irontraffic_http::known::{classify, KnownHeader};
use irontraffic_http::limits::Limits;
use irontraffic_http::net::{segments, IpAddr, SocketAddr};
use irontraffic_http::path::{
    classify_target, EncodedSlash, NormalizedPath, PathPolicy, RawQuery, TargetForm,
};
use irontraffic_http::peer::{resolve_identity, IdentitySource, TrustPolicy};
use irontraffic_http::response::{resolve_response_framing, ResponseFraming};
use irontraffic_http::scalar::{is_tchar, Method, ParseStatus, Scheme, StatusCode, WireVersion};
use irontraffic_http::section::{FieldSection, FieldSectionBuilder};
use irontraffic_http::strip::{
    is_hop_by_hop, is_identity_field, is_reserved_prefix, strip_ingress, strip_response,
};

fn ip(s: &str) -> IpAddr {
    parse_addr(s.as_bytes()).expect("valid address in a test fixture")
}

fn section(fields: &[(&[u8], &[u8])]) -> FieldSection {
    let limits = Limits::default().clamped();
    let mut arena = BytesMut::new();
    let mut builder = FieldSectionBuilder::new(&arena, &limits);
    for (name, value) in fields {
        builder.push(&mut arena, name, value).expect("valid field");
    }
    builder.finish(&mut arena)
}

fn names(fields: &FieldSection) -> Vec<Vec<u8>> {
    (0..fields.len())
        .map(|i| fields.name_at(i).expect("in range").to_vec())
        .collect()
}

fn path(raw: &[u8]) -> Result<(Vec<u8>, Option<Vec<u8>>), RejectReason> {
    let mut out = BytesMut::from(&b"held"[..]);
    let r = NormalizedPath::parse_into(
        raw,
        &PathPolicy::default(),
        &Limits::default().clamped(),
        &mut out,
    );
    assert_eq!(&out[..], b"held");
    r.map(|(p, q)| {
        assert_eq!(p.len(), p.as_bytes().len());
        (
            p.as_bytes().to_vec(),
            q.as_ref().map(RawQuery::as_bytes).map(<[u8]>::to_vec),
        )
    })
}

// ---- methods, statuses, limits ----

#[test]
fn methods_are_case_sensitive() {
    let limits = Limits::default().clamped();
    assert_eq!(Method::parse(b"GET", &limits), Ok(Method::Get));
    let lower = Method::parse(b"get", &limits).expect("an extension method");
    assert!(matches!(lower, Method::Extension(_)));
    assert_eq!(lower.as_bytes(), b"get");
    assert_eq!(
        Method::parse(b"", &limits),
        Err(RejectReason::MethodInvalid)
    );
    assert_eq!(
        Method::parse(b"GE T", &limits),
        Err(RejectReason::MethodInvalid)
    );
    assert!(Method::parse(&[b'A'; 32], &limits).is_ok());
    assert_eq!(
        Method::parse(&[b'A'; 33], &limits),
        Err(RejectReason::MethodTooLong)
    );
    for m in [
        Method::Get,
        Method::Head,
        Method::Post,
        Method::Put,
        Method::Delete,
        Method::Connect,
        Method::Options,
        Method::Trace,
        Method::Patch,
    ] {
        assert_eq!(Method::parse(m.as_bytes(), &limits), Ok(m));
    }
}

#[test]
fn status_codes_are_100_to_599() {
    assert!(StatusCode::from_u16(99).is_none());
    assert_eq!(StatusCode::from_u16(100).map(StatusCode::as_u16), Some(100));
    assert_eq!(StatusCode::from_u16(599).map(StatusCode::as_u16), Some(599));
    assert!(StatusCode::from_u16(600).is_none());
}

#[test]
fn token_bytes_are_77() {
    assert_eq!((0..=255u8).filter(|&b| is_tchar(b)).count(), 77);
}

#[test]
fn limits_are_cut_down_to_their_ceilings() {
    let huge = Limits {
        max_authority_bytes: u32::MAX,
        max_field_count: 7,
        ..Limits::default()
    }
    .clamped();
    assert_eq!(
        huge.get().max_authority_bytes,
        Limits::ceiling().max_authority_bytes
    );
    assert_eq!(huge.get().max_field_count, 7);
    assert!(Limits::ceiling().max_authority_bytes < u32::from(u16::MAX));
}

// ---- known fields ----

#[test]
fn known_names_are_classified() {
    assert_eq!(classify(b"host"), KnownHeader::Host);
    assert_eq!(classify(b"if-unmodified-since"), KnownHeader::IfUnmodifiedSince);
    assert_eq!(classify(b"Host"), KnownHeader::Unknown);
    assert_eq!(classify(b""), KnownHeader::Unknown);
    assert_eq!(classify(b"x-custom"), KnownHeader::Unknown);
    for k in [
        KnownHeader::Connection,
        KnownHeader::ContentLength,
        KnownHeader::TransferEncoding,
        KnownHeader::Te,
        KnownHeader::XForwardedFor,
        KnownHeader::Http2Settings,
    ] {
        assert_eq!(classify(k.as_bytes()), k);
    }
    assert!(KnownHeader::Unknown.as_bytes().is_empty());
}

#[test]
fn denied_trailers_are_18() {
    let denied = [
        "transfer-encoding",
        "content-length",
        "host",
        "expect",
        "max-forwards",
        "cache-control",
        "if-match",
        "if-none-match",
        "if-modified-since",
        "if-unmodified-since",
        "if-range",
        "range",
        "te",
        "authorization",
        "proxy-authorization",
        "cookie",
        "set-cookie",
        "trailer",
    ];
    for name in denied {
        assert!(trailer_denied(classify(name.as_bytes())), "{name}");
    }
    for name in ["connection", "upgrade", "forwarded", "x-checksum"] {
        assert!(!trailer_denied(classify(name.as_bytes())), "{name}");
    }
}

// ---- sections ----

#[test]
fn sections_keep_fields_in_order() {
    let s = section(&[(b"x-a", b"1"), (b"cookie", b"a"), (b"x-a", b"2")]);
    assert_eq!(s.len(), 3);
    assert!(!s.is_empty());
    assert_eq!(s.value_at(2), Some(&b"2"[..]));
    assert_eq!(s.value_at(3), None);
    assert!(s.get_unique(b"x-a").is_err());
    assert_eq!(s.get_unique(b"cookie"), Ok(Some(&b"a"[..])));
    assert_eq!(s.get_unique(b"x-b"), Ok(None));
    assert_eq!(s.count_known(KnownHeader::Cookie), 1);
    assert!(s.contains_known(KnownHeader::Cookie));
    assert_eq!(
        s.get_unique_known(KnownHeader::Cookie),
        Ok(Some(&b"a"[..]))
    );
    let mut t = s.clone();
    t.remove_known(KnownHeader::Cookie);
    assert_eq!(names(&t), vec![b"x-a".to_vec(), b"x-a".to_vec()]);
    assert_eq!(s.len(), 3);
}

#[test]
fn refused_fields_are_not_written() {
    let limits = Limits {
        max_field_count: 2,
        ..Limits::default()
    }
    .clamped();
    let mut arena = BytesMut::from(&b"held"[..]);
    let mut builder = FieldSectionBuilder::new(&arena, &limits);
    builder.push(&mut arena, b"x-a", b"1").expect("first");
    let len = arena.len();
    for (name, value, reason) in [
        (&b""[..], &b"v"[..], RejectReason::FieldNameEmpty),
        (b"X-B", b"v", RejectReason::FieldNameUppercase),
        (b"x_b", b"v", RejectReason::FieldNameUnderscore),
        (b"x:b", b"v", RejectReason::FieldNameInvalidByte),
        (b"x-b", b"v\n", RejectReason::FieldValueInvalidByte),
        (b"x-b", b" v", RejectReason::FieldValueLeadingWhitespace),
        (b"x-b", b"v ", RejectReason::FieldValueTrailingWhitespace),
    ] {
        assert_eq!(builder.push(&mut arena, name, value), Err(reason));
        assert_eq!(arena.len(), len);
    }
    builder.push(&mut arena, b"x-b", b"2").expect("second");
    assert_eq!(
        builder.push(&mut arena, b"x-c", b"3"),
        Err(RejectReason::FieldCountExceeded)
    );
    let s = builder.finish(&mut arena);
    assert_eq!(names(&s), vec![b"x-a".to_vec(), b"x-b".to_vec()]);
    assert_eq!(&arena[..], b"held");
}

#[test]
fn two_wire_names_for_one_field_are_refused() {
    let limits = Limits::default().clamped();
    let mut arena = BytesMut::new();
    let mut builder = FieldSectionBuilder::new(&arena, &limits);
    let policy = UnderscorePolicy::MapToHyphen;
    let version = WireVersion::Http11;
    builder
        .push_normalized(&mut arena, b"X_A", policy, b"1", version)
        .expect("mapped");
    builder
        .push_normalized(&mut arena, b"x_a", policy, b"2", version)
        .expect("the same name in another case");
    assert_eq!(
        builder.push_normalized(&mut arena, b"X-A", policy, b"3", version),
        Err(RejectReason::FieldNameUnderscore)
    );
    let s = builder.finish(&mut arena);
    assert_eq!(names(&s), vec![b"x-a".to_vec(), b"x-a".to_vec()]);
}

// ---- paths ----

#[test]
fn paths_are_normalized() {
    for (raw, expected) in [
        (&b"/"[..], &b"/"[..]),
        (b"/a/b", b"/a/b"),
        (b"/a/../b", b"/b"),
        (b"/a/./b", b"/a/b"),
        (b"/a/b/..", b"/a/"),
        (b"/a/b/.", b"/a/b/"),
        (b"/a//b", b"/a//b"),
        (b"/a/%41", b"/a/%41"),
        (b"/...", b"/..."),
    ] {
        assert_eq!(path(raw), Ok((expected.to_vec(), None)), "{raw:?}");
        assert_eq!(path(expected), Ok((expected.to_vec(), None)));
    }
    assert_eq!(path(b"/a?"), Ok((b"/a".to_vec(), Some(Vec::new()))));
    assert_eq!(
        path(b"/a/../b?c=/../d?"),
        Ok((b"/b".to_vec(), Some(b"c=/../d?".to_vec())))
    );
}

#[test]
fn bad_paths_are_refused() {
    for (raw, reason) in [
        (&b""[..], RejectReason::PathEmpty),
        (b"?q", RejectReason::PathEmpty),
        (b"a", RejectReason::PathInvalidByte),
        (b"/a b", RejectReason::PathInvalidByte),
        (b"/a\x80", RejectReason::PathInvalidByte),
        (b"/%4", RejectReason::PathPercentTruncated),
        (b"/%", RejectReason::PathPercentTruncated),
        (b"/%4g", RejectReason::PathPercentInvalidHex),
        (b"/%00", RejectReason::PathEncodedNul),
        (b"/%2e%2E/a", RejectReason::PathEncodedDot),
        (b"/a%2Fb", RejectReason::PathEncodedSlash),
        (b"/..", RejectReason::PathTraversalAboveRoot),
        (b"/a/../../b", RejectReason::PathTraversalAboveRoot),
        (b"/a?b c", RejectReason::QueryInvalidByte),
        (b"/a?b#c", RejectReason::QueryInvalidByte),
    ] {
        assert_eq!(path(raw), Err(reason), "{raw:?}");
    }
    let mut long = vec![b'/'];
    long.resize(8193, b'a');
    assert_eq!(path(&long), Err(RejectReason::PathTooLong));
    long.pop();
    assert!(path(&long).is_ok());
}

#[test]
fn an_encoded_slash_can_be_kept() {
    let mut out = BytesMut::new();
    let policy = PathPolicy {
        encoded_slash: EncodedSlash::Keep,
    };
    let (p, _) =
        NormalizedPath::parse_into(b"/a%2fb", &policy, &Limits::default().clamped(), &mut out)
            .expect("kept");
    assert_eq!(p.as_bytes(), b"/a%2fb");
}

#[test]
fn targets_have_four_forms() {
    for (target, method, form) in [
        (&b"/a"[..], Method::Get, Ok(TargetForm::Origin)),
        (b"*", Method::Options, Ok(TargetForm::Asterisk)),
        (b"*", Method::Get, Err(RejectReason::TargetFormInvalid)),
        (b"a:1", Method::Connect, Ok(TargetForm::Authority)),
        (b"http://a/", Method::Get, Ok(TargetForm::Absolute)),
        (b"a/b", Method::Get, Err(RejectReason::TargetFormInvalid)),
        (b"", Method::Get, Err(RejectReason::TargetFormInvalid)),
    ] {
        assert_eq!(classify_target(target, &method), form, "{target:?}");
    }
}

// ---- addresses and peers ----

#[test]
fn addresses_are_read() {
    assert_eq!(ip("1.2.3.4"), IpAddr::v4(1, 2, 3, 4));
    assert_eq!(ip("::1"), IpAddr::v6([0, 0, 0, 0, 0, 0, 0, 1]));
    assert_eq!(ip("::"), IpAddr::v6([0; 8]));
    assert_eq!(
        ip("2001:DB8::a:0:1"),
        IpAddr::v6([0x2001, 0xdb8, 0, 0, 0, 0xa, 0, 1])
    );
    assert_eq!(
        ip("::ffff:1.2.3.4"),
        IpAddr::v6([0, 0, 0, 0, 0, 0xffff, 0x102, 0x304])
    );
    assert_eq!(
        ip("1:2:3:4:5:6:7::"),
        IpAddr::v6([1, 2, 3, 4, 5, 6, 7, 0])
    );
    for bad in [
        "", "1.2.3", "1.2.3.4.5", "01.2.3.4", "256.1.1.1", "1.2.3.", "1.2.3.4 ", ":", ":::",
        "1::2::3", "1:2:3:4:5:6:7:8:9", "1:2:3:4:5:6:7:8::", "12345::", "1.2.3.4::", "::1.2.3.4:5",
        "1:2:3:4:5:6:7:1.2.3.4", "g::", "[::1]", "::1%eth0",
    ] {
        assert_eq!(parse_addr(bad.as_bytes()), None, "{bad:?}");
    }
    if let IpAddr::V6(v) = ip("2001:db8::1") {
        assert_eq!(segments(v), [0x2001, 0xdb8, 0, 0, 0, 0, 0, 1]);
    } else {
        panic!("an IPv6 address");
    }
}

fn chain(xff: &[u8]) -> ForwardedChain {
    let mut out = BytesMut::new();
    ForwardedChain::parse_into(&[], &[xff], &[b"https"], &Limits::default().clamped(), &mut out)
        .expect("well formed")
}

#[test]
fn the_chain_is_walked_from_its_end() {
    let peer = SocketAddr {
        ip: ip("10.0.0.9"),
        port: 99,
    };
    let c = chain(b"6.6.6.6, 1.1.1.1, 10.0.0.1");

    let nobody = resolve_identity(peer, None, &c, &TrustPolicy::Nobody);
    assert_eq!(nobody.client, peer.ip);
    assert_eq!(nobody.client_port, Some(99));
    assert_eq!(nobody.source, IdentitySource::Socket);
    assert!(!nobody.peer_trusted);

    let one = resolve_identity(peer, None, &c, &TrustPolicy::HopCount(1));
    assert_eq!(one.client, ip("10.0.0.1"));
    assert_eq!(one.trusted_hops, 1);
    assert_eq!(one.forwarded_proto, Some(Scheme::Https));
    assert_eq!(one.source, IdentitySource::ForwardedChain);

    let many = resolve_identity(peer, None, &c, &TrustPolicy::HopCount(9));
    assert_eq!(many.client, ip("6.6.6.6"));
    assert_eq!(many.trusted_hops, 3);

    let trusted = TrustPolicy::TrustedCidrs(vec![
        IpCidr::new(ip("192.168.0.0"), 16).expect("valid"),
        IpCidr::new(ip("10.0.0.0"), 8).expect("valid"),
    ]);
    let walked = resolve_identity(peer, None, &c, &trusted);
    assert_eq!(walked.client, ip("1.1.1.1"));
    assert!(walked.peer_trusted);

    let proxied = SocketAddr {
        ip: ip("8.8.8.8"),
        port: 1,
    };
    let outside = resolve_identity(peer, Some(proxied), &c, &trusted);
    assert_eq!(outside.client, ip("8.8.8.8"));
    assert_eq!(outside.source, IdentitySource::ProxyProtocol);
    assert!(!outside.peer_trusted);
}

#[test]
fn an_unknown_node_ends_the_walk() {
    let peer = SocketAddr {
        ip: ip("10.0.0.9"),
        port: 99,
    };
    let c = chain(b"6.6.6.6, unknown, 10.0.0.1");
    let id = resolve_identity(peer, None, &c, &TrustPolicy::HopCount(9));
    assert_eq!(id.client, ip("10.0.0.1"));
    assert_eq!(id.trusted_hops, 1);
}

// ---- stripping ----

#[test]
fn hop_by_hop_fields_are_ten() {
    let stripped = [
        "connection",
        "proxy-connection",
        "keep-alive",
        "transfer-encoding",
        "content-length",
        "upgrade",
        "http2-settings",
        "trailer",
        "proxy-authenticate",
        "proxy-authorization",
    ];
    for name in stripped {
        assert!(is_hop_by_hop(classify(name.as_bytes())), "{name}");
    }
    for name in ["te", "host", "expect", "x-a", "forwarded"] {
        assert!(!is_hop_by_hop(classify(name.as_bytes())), "{name}");
    }
    for name in ["forwarded", "x-forwarded-for", "x-forwarded-proto", "x-real-ip"] {
        assert!(is_identity_field(classify(name.as_bytes())), "{name}");
    }
    assert!(is_reserved_prefix(b"x-irontraffic-a"));
    assert!(is_reserved_prefix(b"x-envoy-a"));
    assert!(is_reserved_prefix(b"x-forwarded-port"));
    assert!(!is_reserved_prefix(b"x-other"));
}

#[test]
fn a_request_keeps_only_its_end_to_end_fields() {
    let mut s = section(&[
        (b"host", b"a"),
        (b"connection", b"close, X-Mine"),
        (b"x-mine", b"1"),
        (b"x-forwarded-for", b"1.2.3.4"),
        (b"x-envoy-a", b"1"),
        (b"te", b"trailers"),
        (b"accept", b"*/*"),
    ]);
    strip_ingress(&mut s);
    assert_eq!(
        names(&s),
        vec![b"host".to_vec(), b"te".to_vec(), b"accept".to_vec()]
    );

    let mut t = section(&[(b"te", b"gzip"), (b"x-a", b"1")]);
    strip_ingress(&mut t);
    assert_eq!(names(&t), vec![b"x-a".to_vec()]);
}

#[test]
fn a_response_keeps_its_envoy_fields() {
    let mut s = section(&[
        (b"x-envoy-a", b"1"),
        (b"x-irontraffic-a", b"1"),
        (b"connection", b"x-gone"),
        (b"x-gone", b"1"),
        (b"content-length", b"5"),
    ]);
    strip_response(&mut s);
    assert_eq!(names(&s), vec![b"x-envoy-a".to_vec()]);
}

// ---- responses ----

#[test]
fn response_framings() {
    let frame = |code: u16, method: Method, version: WireVersion, fields: &[(&[u8], &[u8])]| {
        resolve_response_framing(
            StatusCode::from_u16(code).expect("in range"),
            &method,
            version,
            &section(fields),
            OtherCodings::Reject,
        )
    };
    let v11 = WireVersion::Http11;
    let cl: (&[u8], &[u8]) = (b"content-length", b"5");
    let te: (&[u8], &[u8]) = (b"transfer-encoding", b"chunked");
    assert_eq!(
        frame(200, Method::Get, v11, &[cl]),
        Ok(ResponseFraming::Exact { len: 5 })
    );
    assert_eq!(
        frame(200, Method::Get, v11, &[te]),
        Ok(ResponseFraming::Streamed)
    );
    assert_eq!(
        frame(200, Method::Get, v11, &[]),
        Ok(ResponseFraming::UntilClose)
    );
    assert_eq!(
        frame(200, Method::Get, WireVersion::H2, &[]),
        Ok(ResponseFraming::Streamed)
    );
    for (code, method) in [
        (100, Method::Get),
        (204, Method::Get),
        (304, Method::Get),
        (200, Method::Head),
        (200, Method::Connect),
    ] {
        assert_eq!(frame(code, method, v11, &[cl]), Ok(ResponseFraming::Empty));
    }
    assert_eq!(
        frame(200, Method::Get, v11, &[cl, te]),
        Err(RejectReason::TransferEncodingWithContentLength)
    );
    assert_eq!(
        frame(200, Method::Get, v11, &[cl, cl]),
        Err(RejectReason::ContentLengthDuplicate)
    );
    assert_eq!(
        frame(200, Method::Get, WireVersion::Http10, &[te]),
        Err(RejectReason::TransferEncodingOnHttp10)
    );
    assert_eq!(
        frame(200, Method::Get, WireVersion::H3, &[te]),
        Err(RejectReason::ConnectionSpecificField)
    );
    assert_eq!(
        frame(200, Method::Get, v11, &[(b"content-length", b"x")]),
        Err(RejectReason::ContentLengthInvalid)
    );
}

// ---- spans and budgets ----

#[test]
fn spans_out_of_range_cover_nothing() {
    assert_eq!(Span { start: 1, end: 3 }.of(b"abcd"), Some(&b"bc"[..]));
    assert_eq!(Span { start: 1, end: 5 }.of(b"abcd"), None);
    assert_eq!(Span { start: 3, end: 1 }.of(b"abcd"), None);
    assert_eq!(Span { start: 3, end: 1 }.len(), 0);
}

#[test]
fn a_passed_scan_budget_stays_passed() {
    let mut b = HeadScanBudget::default();
    assert_eq!(b.charge(4_194_304), Ok(()));
    assert_eq!(b.charge(1), Err(RejectReason::HeaderListTooLarge));
    assert_eq!(b.charge(0), Err(RejectReason::HeaderListTooLarge));
    assert_eq!(b.scanned(), 4_194_305);
    b.reset();
    assert_eq!(b.charge(1), Ok(()));
}

// ---- chunked bodies, there and back ----

#[test]
fn a_written_body_is_read_back() {
    let chunks: [&[u8]; 4] = [b"hello", b"", b" ", &[0xff; 300]];
    let mut wire = BytesMut::new();
    let mut encoder = ChunkedEncoder::new();
    let mut expected = Vec::new();
    for c in chunks {
        encoder.write_chunk(c, &mut wire);
        expected.extend_from_slice(c);
    }
    encoder
        .finish(&section(&[(b"x-checksum", b"abc")]), &mut wire)
        .expect("an allowed trailer");
    wire.extend_from_slice(b"next");

    let mut decoder =
        ChunkedDecoder::new(&Limits::default().clamped(), UnderscorePolicy::Reject);
    let mut arena = BytesMut::from(&b"held"[..]);
    let mut body = Vec::new();
    let mut pos = 0;
    loop {
        match decoder.decode(&wire[pos..], &mut arena).expect("well formed") {
            ChunkedEvent::Data { offset, len } => {
                body.extend_from_slice(&wire[pos + offset..pos + offset + len]);
                pos += decoder.consumed_this_call();
            }
            ChunkedEvent::NeedMore => panic!("the body is complete"),
            ChunkedEvent::Done { consumed } => {
                pos += consumed;
                break;
            }
        }
    }
    assert_eq!(body, expected);
    assert_eq!(decoder.delivered(), expected.len() as u64);
    assert_eq!(&wire[pos..], b"next");
    assert_eq!(&arena[..], b"held");
    let trailers = decoder.trailers().expect("done");
    assert_eq!(trailers.get_unique(b"x-checksum"), Ok(Some(&b"abc"[..])));
    assert_eq!(
        decoder.decode(b"more", &mut arena),
        Ok(ChunkedEvent::Done { consumed: 0 })
    );
}

// ---- canonical forms ----

fn context<'a>(trust: &'a TrustPolicy, default_authority: Option<&'a Authority>) -> H1Context<'a> {
    H1Context {
        limits: Limits::default().clamped(),
        path_policy: PathPolicy::default(),
        codings: OtherCodings::Reject,
        underscores: UnderscorePolicy::Reject,
        scheme: Scheme::Http,
        socket_peer: SocketAddr {
            ip: IpAddr::v4(127, 0, 0, 1),
            port: 1,
        },
        proxy_proto: None,
        trust,
        default_authority,
        forward_proxy: true,
        will_buffer_body: false,
    }
}

fn canonical(head: &[u8], ctx: &H1Context<'_>) -> Result<CanonicalRequest, RejectReason> {
    let parser = H1Parser::new(&ctx.limits, ctx.underscores);
    match parser.parse_request_head(head)? {
        ParseStatus::Complete { value, .. } => {
            let mut arena = BytesMut::from(&b"held"[..]);
            let (req, _, _) = canonicalize_request(&value, ctx, &mut arena)?;
            assert_eq!(&arena[..], b"held");
            Ok(req)
        }
        ParseStatus::Partial => panic!("a complete head"),
    }
}

#[test]
fn the_default_authority_is_for_http10() {
    let mut out = BytesMut::new();
    let default = Authority::parse_into(
        b"default.example",
        Scheme::Http,
        &Limits::default().clamped(),
        &mut out,
    )
    .expect("well formed");
    let trust = TrustPolicy::Nobody;
    let ctx = context(&trust, Some(&default));
    let old = canonical(b"GET / HTTP/1.0\r\n\r\n", &ctx).expect("accepted");
    assert_eq!(old.authority.host(), b"default.example");
    assert!(matches!(
        canonical(b"GET / HTTP/1.1\r\n\r\n", &ctx),
        Err(RejectReason::HostMissing)
    ));
}

#[test]
fn absolute_targets_are_split() {
    let trust = TrustPolicy::Nobody;
    let ctx = context(&trust, None);
    let bare = canonical(b"GET http://a.example:81 HTTP/1.1\r\n\r\n", &ctx).expect("accepted");
    assert_eq!(bare.path.as_bytes(), b"/");
    assert_eq!(bare.authority.port(), Some(81));
    let query = canonical(b"GET http://a.example?x HTTP/1.1\r\n\r\n", &ctx);
    assert!(matches!(query, Err(RejectReason::PathEmpty)));
    let full =
        canonical(b"GET http://a.example/p/../q?x HTTP/1.1\r\n\r\n", &ctx).expect("accepted");
    assert_eq!(full.path.as_bytes(), b"/q");
    assert_eq!(full.query.as_ref().map(RawQuery::as_bytes), Some(&b"x"[..]));
    assert_eq!(full.target_len(), 4);
    assert!(!full.has_body());
    assert_eq!(full.clone().authority, full.authority);
}

#[test]
fn a_response_is_brought_into_canonical_form() {
    let trust = TrustPolicy::Nobody;
    let ctx = context(&trust, None);
    let parser = H1Parser::new(&ctx.limits, ctx.underscores);
    let head = b"HTTP/1.1 200 OK\r\nContent-Length: 7\r\nConnection: x-a\r\nX-A: 1\r\nX-B: 2\r\n\r\n";
    let raw = parser
        .parse_response_head(head)
        .expect("well formed")
        .into_complete()
        .expect("complete");
    assert_eq!(raw.1, head.len());
    let mut arena = BytesMut::new();
    let (res, declared) =
        canonicalize_response(&raw.0, &Method::Get, &ctx, &mut arena).expect("accepted");
    assert_eq!(declared, Some(7));
    assert_eq!(res.framing, ResponseFraming::Exact { len: 7 });
    assert_eq!(names(&res.headers), vec![b"x-b".to_vec()]);
    assert_eq!(res.status.as_u16(), 200);
}

#[test]
fn a_written_response_is_read_back() {
    let trust = TrustPolicy::Nobody;
    let ctx = context(&trust, None);
    for (code, method, body, framing, declared) in [
        (
            200,
            Method::Get,
            BodySource::Exact { len: 12 },
            ResponseFraming::Exact { len: 12 },
            Some(12),
        ),
        (
            200,
            Method::Get,
            BodySource::Exact { len: 0 },
            ResponseFraming::Empty,
            Some(0),
        ),
        (
            404,
            Method::Post,
            BodySource::Streaming,
            ResponseFraming::Streamed,
            None,
        ),
        (
            299,
            Method::Get,
            BodySource::Empty,
            ResponseFraming::UntilClose,
            None,
        ),
        (
            200,
            Method::Head,
            BodySource::Exact { len: 7 },
            ResponseFraming::Empty,
            Some(7),
        ),
        (
            204,
            Method::Get,
            BodySource::Empty,
            ResponseFraming::Empty,
            None,
        ),
    ] {
        let res = CanonicalResponse::new(
            StatusCode::from_u16(code).expect("in range"),
            section(&[(b"x-a", b"1"), (b"server", b"s")]),
            framing,
            WireVersion::Http11,
        )
        .expect("a valid response");
        let mut out = BytesMut::new();
        let n = serialize_response_head(&res, method.clone(), body, false, &mut out)
            .expect("may be sent");
        assert_eq!(n, out.len());
        let parser = H1Parser::new(&ctx.limits, ctx.underscores);
        let (raw, consumed) = parser
            .parse_response_head(&out)
            .expect("well formed")
            .into_complete()
            .expect("complete");
        assert_eq!(consumed, out.len());
        let mut arena = BytesMut::new();
        let (again, length) =
            canonicalize_response(&raw, &method, &ctx, &mut arena).expect("accepted");
        assert_eq!(again.status.as_u16(), code);
        assert_eq!(again.framing, framing);
        assert_eq!(length, declared);
        assert_eq!(
            names(&again.headers),
            vec![b"x-a".to_vec(), b"server".to_vec()]
        );
    }
}

#[test]
fn a_refused_call_has_got_to_what_it_refuses() {
    for (wire, consumed) in [
        (&b"zz"[..], 0),
        (b"12z\r\n", 0),
        (b"5\nhello", 1),
        (b"\r\n", 0),
        (b"5;a\x01", 2),
        (b"5\rx", 2),
        (b"0\r\nx-a: 1\r\nbad\r\n", 11),
    ] {
        let mut decoder =
            ChunkedDecoder::new(&Limits::default().clamped(), UnderscorePolicy::Reject);
        let mut arena = BytesMut::new();
        assert!(decoder.decode(wire, &mut arena).is_err(), "{wire:?}");
        assert_eq!(decoder.consumed_this_call(), consumed, "{wire:?}");
        assert_eq!(decoder.delivered(), 0);
        assert!(!decoder.is_done());
        assert!(decoder.trailers().is_none());
    }
}

#[test]
fn a_refused_field_line_leaves_those_before_it_behind() {
    let trust = TrustPolicy::Nobody;
    let ctx = H1Context {
        underscores: UnderscorePolicy::MapToHyphen,
        ..context(&trust, None)
    };
    let parser = H1Parser::new(&ctx.limits, ctx.underscores);
    let head = b"GET / HTTP/1.1\r\nHost: a\r\nX-A: 1\r\nX_A: 2\r\n\r\n";
    let (raw, _) = parser
        .parse_request_head(head)
        .expect("well formed")
        .into_complete()
        .expect("complete");
    let mut arena = BytesMut::from(&b"held"[..]);
    assert!(matches!(
        canonicalize_request(&raw, &ctx, &mut arena),
        Err(RejectReason::FieldNameUnderscore)
    ));
    assert_eq!(&arena[..], b"heldhostax-a1");
}

#[test]
fn an_obfuscated_node_has_a_name_behind_its_underscore() {
    for (value, node) in [
        (&b"for=_hidden"[..], NodeName::Obfuscated),
        (b"for=_a.B-9_", NodeName::Obfuscated),
        (b"for=_", NodeName::Unknown),
        (b"for=\"_a b\"", NodeName::Unknown),
        (b"for=\"_@\"", NodeName::Unknown),
    ] {
        let mut out = BytesMut::new();
        let c = ForwardedChain::parse_into(
            &[value],
            &[],
            &[],
            &Limits::default().clamped(),
            &mut out,
        )
        .expect("well formed");
        assert_eq!(c.elements().len(), 1);
        assert_eq!(c.elements()[0].node, node, "{value:?}");
    }
}

#[test]
fn a_chain_is_split_outside_quotes_only() {
    let mut out = BytesMut::new();
    let c = ForwardedChain::parse_into(
        &[b"for=1.1.1.1;host=\"a,\\\"b;c\", for=2.2.2.2"],
        &[],
        &[],
        &Limits::default().clamped(),
        &mut out,
    )
    .expect("well formed");
    assert_eq!(c.elements().len(), 2);
    assert_eq!(c.host_claim(), Some(&b"a,\"b;c"[..]));
    let copy = c.clone();
    assert!(copy == c);
    assert_eq!(copy.host_claim(), c.host_claim());
    assert_eq!(copy.elements(), c.elements());
}

#[test]
fn a_long_length_that_is_no_number_is_invalid() {
    assert_eq!(
        parse_content_length(&[b'a'; 21]),
        Err(RejectReason::ContentLengthInvalid)
    );
    assert_eq!(
        parse_content_length(b"00000000000000000000x"),
        Err(RejectReason::ContentLengthInvalid)
    );
    assert_eq!(
        parse_content_length(&[b'0'; 21]),
        Err(RejectReason::ContentLengthOverflow)
    );
    assert_eq!(parse_content_length(&[b'0'; 20]), Ok(0));
    assert_eq!(
        parse_content_length(b"18446744073709551615"),
        Ok(u64::MAX)
    );
    assert_eq!(
        parse_content_length(b"18446744073709551616"),
        Err(RejectReason::ContentLengthOverflow)
    );
}

/// Shows the decoder ever longer fronts of the wire, `step` bytes at a time,
/// and one call for each.
fn arrive(wire: &[u8], step: usize, policy: UnderscorePolicy) -> Result<Arrived, RejectReason> {
    let mut decoder = ChunkedDecoder::new(&Limits::default().clamped(), policy);
    let mut arena = BytesMut::new();
    let mut body = Vec::new();
    let mut pos = 0;
    let mut shown = 0;
    loop {
        let all = shown == wire.len();
        shown = wire.len().min(shown + step);
        match decoder.decode(&wire[pos..shown], &mut arena)? {
            ChunkedEvent::Data { offset, len } => {
                body.extend_from_slice(&wire[pos + offset..pos + offset + len]);
                pos += decoder.consumed_this_call();
            }
            ChunkedEvent::NeedMore => {
                let taken = decoder.consumed_this_call();
                pos += taken;
                if all && taken == 0 {
                    return Ok((body, pos, None));
                }
            }
            ChunkedEvent::Done { consumed } => {
                let trailers = decoder.trailers().expect("done");
                let fields = (0..trailers.len())
                    .map(|i| {
                        (
                            trailers.name_at(i).expect("in range").to_vec(),
                            trailers.value_at(i).expect("in range").to_vec(),
                        )
                    })
                    .collect();
                return Ok((body, pos + consumed, Some(fields)));
            }
        }
    }
}

type Arrived = (Vec<u8>, usize, Option<Vec<(Vec<u8>, Vec<u8>)>>);

#[test]
fn how_a_body_arrives_makes_no_difference() {
    for wire in [
        &b"5\r\nhello\r\n6;a=\"x;y\"\r\n world\r\n0\r\nx-a: 1\r\nX-B:2 \r\n\r\nnext"[..],
        b"5\r\nhello\r\n0\r\nx-a: 1\r\n",
        b"5\r\nhelloX",
        b"g\r\n",
        b"1;\x01\r\n",
        b"0\r\nhost: a\r\n\r\n",
        b"0\r\nno colon\r\n\r\n",
    ] {
        for policy in [UnderscorePolicy::Reject, UnderscorePolicy::MapToHyphen] {
            let whole = arrive(wire, wire.len(), policy);
            for step in 1..wire.len() {
                assert_eq!(arrive(wire, step, policy), whole, "{step} {wire:?}");
            }
        }
    }
}

#[test]
fn trailers_read_back_under_either_policy() {
    let mut wire = BytesMut::new();
    let mut encoder = ChunkedEncoder::new();
    encoder.write_chunk(b"data", &mut wire);
    encoder
        .finish(&section(&[(b"x-a", b"1"), (b"x-b", b"")]), &mut wire)
        .expect("allowed");
    for policy in [UnderscorePolicy::Reject, UnderscorePolicy::MapToHyphen] {
        assert_eq!(
            arrive(&wire, wire.len(), policy),
            Ok((
                b"data".to_vec(),
                wire.len(),
                Some(vec![
                    (b"x-a".to_vec(), b"1".to_vec()),
                    (b"x-b".to_vec(), Vec::new())
                ])
            ))
        );
    }
}

#[test]
fn a_context_can_be_cloned() {
    let trust = TrustPolicy::Nobody;
    let ctx = context(&trust, None).clone();
    assert_eq!(ctx.scheme, Scheme::Http);
}

fn forwarded(lines: &[&[u8]], out: &mut BytesMut) -> Result<ForwardedChain, RejectReason> {
    ForwardedChain::parse_into(lines, &[], &[], &Limits::default().clamped(), out)
}

#[test]
fn superseded_hosts_tell_chains_apart() {
    let mut out = BytesMut::from(&b"held"[..]);
    let a = forwarded(&[b"host=a, host=b"], &mut out).expect("well formed");
    let x = forwarded(&[b"host=x, host=b"], &mut out).expect("well formed");
    let again = forwarded(&[b"host=a, host=\"b\""], &mut out).expect("well formed");
    assert_eq!(&out[..], b"held");
    assert_eq!(a.host_claim(), Some(&b"b"[..]));
    assert_eq!(x.host_claim(), a.host_claim());
    assert!(a != x);
    assert!(a.clone() == a);
    // The lines differ in length.
    assert!(again != a);
    let moved = forwarded(&[b"host=a,  host=b"], &mut out).expect("well formed");
    let other = forwarded(&[b"host=a  ,host=b"], &mut out).expect("well formed");
    assert!(moved == other);
    let none = forwarded(&[b"for=unknown"], &mut out).expect("well formed");
    assert_eq!(none.host_claim(), None);
    assert_eq!(&out[..], b"held");
}

#[test]
fn a_refused_chain_leaves_its_hosts_behind() {
    let mut out = BytesMut::from(&b"held"[..]);
    assert_eq!(
        forwarded(&[b"host=\"a\\b\", host=c", b"for=1.1.1.1, ;"], &mut out).err(),
        Some(RejectReason::ForwardedSyntax)
    );
    assert_eq!(&out[..], b"heldabc");

    let mut out = BytesMut::new();
    let limits = Limits::default().clamped();
    let refused = ForwardedChain::parse_into(&[b"host=a"], &[b"1.1.1.1,"], &[], &limits, &mut out);
    assert_eq!(refused.err(), Some(RejectReason::ForwardedSyntax));
    assert_eq!(&out[..], b"a");

    let trust = TrustPolicy::Nobody;
    let ctx = context(&trust, None);
    let parser = H1Parser::new(&ctx.limits, ctx.underscores);
    let head = b"GET / HTTP/1.1\r\nHost: a\r\nForwarded: host=h\r\nX-Forwarded-For: ,\r\n\r\n";
    let (raw, _) = parser
        .parse_request_head(head)
        .expect("well formed")
        .into_complete()
        .expect("complete");
    assert_eq!(raw.version(), WireVersion::Http11);
    let mut arena = BytesMut::from(&b"held"[..]);
    assert!(matches!(
        canonicalize_request(&raw, &ctx, &mut arena),
        Err(RejectReason::ForwardedSyntax)
    ));
    assert_eq!(&arena[..], b"heldh");
}

#[test]
fn lines_are_one_list() {
    let limits = Limits::default().clamped();
    let mut out = BytesMut::new();
    let lines: [&[u8]; 3] = [b"for=1.1.1.1;host=a", b"for=\"2.2.2.2\"", b"for=_x, for=3.3.3.3"];
    let joined = lines.join(&b',');
    let many = forwarded(&lines, &mut out).expect("well formed");
    let one = forwarded(&[&joined], &mut out).expect("well formed");
    assert_eq!(many.elements(), one.elements());
    assert_eq!(many.host_claim(), one.host_claim());
    assert_eq!(many.bytes() + 2, one.bytes());
    let xff: [&[u8]; 2] = [b"1.1.1.1, 2.2.2.2", b"3.3.3.3"];
    let many = ForwardedChain::parse_into(&[], &xff, &[b"http", b"https"], &limits, &mut out)
        .expect("well formed");
    let one = ForwardedChain::parse_into(
        &[],
        &[b"1.1.1.1, 2.2.2.2,3.3.3.3"],
        &[b"http,https"],
        &limits,
        &mut out,
    )
    .expect("well formed");
    assert_eq!(many.elements(), one.elements());

    let codings: [&[u8]; 2] = [b"gzip", b"chunked"];
    assert_eq!(
        tokenize_transfer_encoding(&codings, OtherCodings::Reject),
        tokenize_transfer_encoding(&[b"gzip,chunked"], OtherCodings::Reject)
    );
    assert_eq!(
        tokenize_transfer_encoding(&[b"chunked"], OtherCodings::Reject)
            .map(|c| c.token_count),
        Ok(1)
    );
}

#[test]
fn nothing_is_written_where_nothing_is_due() {
    let mut out = BytesMut::new();
    let mut encoder = ChunkedEncoder::new();
    assert_eq!(encoder.write_chunk(b"", &mut out), 0);
    encoder.finish(&section(&[]), &mut out).expect("no trailers");
    let len = out.len();
    assert_eq!(encoder.write_chunk(b"late", &mut out), 0);
    assert_eq!(encoder.finish(&section(&[]), &mut out), Ok(0));
    assert_eq!(out.len(), len);
}

#[test]
fn a_parsed_response_tells_its_status() {
    let limits = Limits::default().clamped();
    let parser = H1Parser::new(&limits, UnderscorePolicy::Reject);
    let (raw, _) = parser
        .parse_response_head(b"HTTP/1.0 404 Not Found\r\n\r\n")
        .expect("well formed")
        .into_complete()
        .expect("complete");
    assert_eq!(raw.status().as_u16(), 404);
    assert_eq!(raw.version(), WireVersion::Http10);
}
