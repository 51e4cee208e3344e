use irontraffic_http::authority::Authority;
use irontraffic_http::error::RejectReason;
use irontraffic_http::expect::ExpectAction;
use irontraffic_http::field::UnderscorePolicy;
use irontraffic_http::framing::{OtherCodings, RequestFraming};
use irontraffic_http::h1::canonicalize::{canonicalize_request, canonicalize_response, H1Context};
use irontraffic_http::h1::parser::{H1Parser, RawHead, RawResponseHead};
use irontraffic_http::limits::Limits;
use irontraffic_http::net::{IpAddr, SocketAddr};
use irontraffic_http::path::{PathPolicy, RawQuery, TargetForm};
use irontraffic_http::peer::{IdentitySource, TrustPolicy};
use irontraffic_http::response::ResponseFraming;
use irontraffic_http::scalar::{Method, ParseStatus, Scheme};
use bytes::BytesMut;

const DEFAULT_TRUST: TrustPolicy = TrustPolicy::Nobody;

fn parse_request_head(buf: &[u8], underscores: UnderscorePolicy) -> RawHead<'_> {
    let parser = H1Parser::new(&Limits::default().clamped(), underscores);
    match parser.parse_request_head(buf).unwrap() {
        ParseStatus::Complete { value, .. } => value,
        ParseStatus::Partial => panic!("unexpected partial request head"),
    }
}

fn try_parse_request_head(
    buf: &[u8],
    underscores: UnderscorePolicy,
) -> Result<RawHead<'_>, RejectReason> {
    let parser = H1Parser::new(&Limits::default().clamped(), underscores);
    match parser.parse_request_head(buf)? {
        ParseStatus::Complete { value, .. } => Ok(value),
        ParseStatus::Partial => panic!("unexpected partial request head"),
    }
}

fn parse_response_head(buf: &[u8], underscores: UnderscorePolicy) -> RawResponseHead<'_> {
    let parser = H1Parser::new(&Limits::default().clamped(), underscores);
    match parser.parse_response_head(buf).unwrap() {
        ParseStatus::Complete { value, .. } => value,
        ParseStatus::Partial => panic!("unexpected partial response head"),
    }
}

fn ctx_with(
    scheme: Scheme,
    forward_proxy: bool,
    will_buffer_body: bool,
    default_authority: Option<&'static Authority>,
    trust: &'static TrustPolicy,
    underscores: UnderscorePolicy,
) -> H1Context<'static> {
    H1Context {
        limits: Limits::default().clamped(),
        path_policy: PathPolicy::default(),
        codings: OtherCodings::Reject,
        underscores,
        scheme,
        socket_peer: SocketAddr { ip: IpAddr::v4(127, 0, 0, 1), port: 12345 },
        proxy_proto: None,
        trust,
        default_authority,
        forward_proxy,
        will_buffer_body,
    }
}

fn ctx() -> H1Context<'static> {
    ctx_with(
        Scheme::Http,
        false,
        false,
        None,
        &DEFAULT_TRUST,
        UnderscorePolicy::Reject,
    )
}

#[derive(Debug, Clone, PartialEq, Eq)]
enum Expected {
    Refused(RejectReason),
    Accepted {
        host: &'static [u8],
        path: &'static [u8],
        query: Option<&'static [u8]>,
        scheme: Scheme,
        framing: RequestFraming,
        form: TargetForm,
        expect: ExpectAction,
    },
}

#[test]
fn canonicalize_corpus_table() {
    let assert_case = |head: &[u8], ctx: &H1Context<'_>, expected: &Expected| {
        let raw = match try_parse_request_head(head, ctx.underscores) {
            Ok(raw) => raw,
            Err(reason) => {
                assert!(
                    matches!(expected, Expected::Refused(e) if *e == reason),
                    "for {head:?}: parser returned {reason:?}, expected {expected:?}"
                );
                return;
            }
        };
        let mut arena = BytesMut::new();
        let got = canonicalize_request(&raw, ctx, &mut arena);
        match (expected, got) {
            (Expected::Refused(reason), Err(got_reason)) => {
                assert_eq!(*reason, got_reason, "reject reason mismatch for {head:?}");
            }
            (
                Expected::Accepted {
                    host,
                    path,
                    query,
                    scheme,
                    framing,
                    form,
                    expect,
                },
                Ok((req, got_expect, got_form)),
            ) => {
                assert_eq!(req.authority.host(), *host, "host mismatch for {head:?}");
                assert_eq!(req.path.as_bytes(), *path, "path mismatch for {head:?}");
                assert_eq!(
                    req.query.as_ref().map(RawQuery::as_bytes),
                    *query,
                    "query mismatch for {head:?}"
                );
                assert_eq!(req.scheme, *scheme, "scheme mismatch for {head:?}");
                assert_eq!(req.framing, *framing, "framing mismatch for {head:?}");
                assert_eq!(got_form, *form, "target form mismatch for {head:?}");
                assert_eq!(got_expect, *expect, "expect action mismatch for {head:?}");
            }
            (expected, got) => panic!("for {head:?}: expected {expected:?}, got {got:?}"),
        }
    };

    let default_auth = Authority::parse_into(
        b"default.example.com",
        Scheme::Http,
        &Limits::default().clamped(),
        &mut BytesMut::new(),
    )
    .unwrap();
    let default_auth_ref: &'static Authority = Box::leak(Box::new(default_auth));

    let cases: &[(&[u8], H1Context<'static>, Expected)] = &[
        (
            b"GET / HTTP/1.1\r\n\r\n",
            ctx(),
            Expected::Refused(RejectReason::HostMissing),
        ),
        (
            b"GET / HTTP/1.1\r\nHost: a\r\nHost: a\r\n\r\n",
            ctx(),
            Expected::Refused(RejectReason::HostDuplicate),
        ),
        (
            b"GET / HTTP/1.1\r\nHost: a\r\nHost: b\r\n\r\n",
            ctx(),
            Expected::Refused(RejectReason::HostDuplicate),
        ),
        (
            b"GET / HTTP/1.0\r\n\r\n",
            ctx_with(Scheme::Http, false, false, Some(default_auth_ref), &DEFAULT_TRUST, UnderscorePolicy::Reject),
            Expected::Accepted {
                host: b"default.example.com",
                path: b"/",
                query: None,
                scheme: Scheme::Http,
                framing: RequestFraming::Empty,
                form: TargetForm::Origin,
                expect: ExpectAction::Absent,
            },
        ),
        (
            b"GET / HTTP/1.0\r\n\r\n",
            ctx(),
            Expected::Refused(RejectReason::HostMissing),
        ),
        (
            b"GET / HTTP/1.0\r\nHost: a\r\nHost: b\r\n\r\n",
            ctx(),
            Expected::Refused(RejectReason::HostDuplicate),
        ),
        (
            b"GET http://good.com/p HTTP/1.1\r\nHost: evil.com\r\n\r\n",
            ctx_with(Scheme::Http, true, false, None, &DEFAULT_TRUST, UnderscorePolicy::Reject),
            Expected::Refused(RejectReason::AuthorityMismatch),
        ),
        (
            b"GET http://good.com/p HTTP/1.1\r\nHost: good.com\r\n\r\n",
            ctx(),
            Expected::Refused(RejectReason::TargetFormInvalid),
        ),
        (
            b"GET ftp://internal/x HTTP/1.1\r\n\r\n",
            ctx_with(Scheme::Http, true, false, None, &DEFAULT_TRUST, UnderscorePolicy::Reject),
            Expected::Refused(RejectReason::TargetFormInvalid),
        ),
        (
            b"GET https://good.com/p HTTP/1.1\r\n\r\n",
            ctx_with(Scheme::Http, true, false, None, &DEFAULT_TRUST, UnderscorePolicy::Reject),
            Expected::Accepted {
                host: b"good.com",
                path: b"/p",
                query: None,
                scheme: Scheme::Http,
                framing: RequestFraming::Empty,
                form: TargetForm::Absolute,
                expect: ExpectAction::Absent,
            },
        ),
        (
            b"OPTIONS * HTTP/1.1\r\nHost: example.com\r\n\r\n",
            ctx(),
            Expected::Accepted {
                host: b"example.com",
                path: b"/",
                query: None,
                scheme: Scheme::Http,
                framing: RequestFraming::Empty,
                form: TargetForm::Asterisk,
                expect: ExpectAction::Absent,
            },
        ),
        (
            b"GET * HTTP/1.1\r\nHost: example.com\r\n\r\n",
            ctx(),
            Expected::Refused(RejectReason::TargetFormInvalid),
        ),
        (
            b"CONNECT host:443 HTTP/1.1\r\n\r\n",
            ctx(),
            Expected::Accepted {
                host: b"host",
                path: b"/",
                query: None,
                scheme: Scheme::Http,
                framing: RequestFraming::Empty,
                form: TargetForm::Authority,
                expect: ExpectAction::Absent,
            },
        ),
        (
            b"CONNECT host:443 HTTP/1.1\r\ncontent-length: 5\r\n\r\n",
            ctx(),
            Expected::Refused(RejectReason::BodyNotAllowedForMethod),
        ),
        (
            b"CONNECT /p HTTP/1.1\r\nHost: example.com\r\n\r\n",
            ctx(),
            Expected::Refused(RejectReason::TargetFormInvalid),
        ),
        (
            b"GET / HTTP/1.1\r\nHOST: EXAMPLE.COM\r\n\r\n",
            ctx(),
            Expected::Accepted {
                host: b"example.com",
                path: b"/",
                query: None,
                scheme: Scheme::Http,
                framing: RequestFraming::Empty,
                form: TargetForm::Origin,
                expect: ExpectAction::Absent,
            },
        ),
        (
            b"GET / HTTP/1.1\r\nHost: example.com\r\nX_Custom: v\r\n\r\n",
            ctx(),
            Expected::Refused(RejectReason::FieldNameUnderscore),
        ),
        (
            b"GET / HTTP/1.0\r\n\r\n",
            ctx_with(Scheme::Http, false, false, Some(default_auth_ref), &DEFAULT_TRUST, UnderscorePolicy::Reject),
            Expected::Accepted {
                host: b"default.example.com",
                path: b"/",
                query: None,
                scheme: Scheme::Http,
                framing: RequestFraming::Empty,
                form: TargetForm::Origin,
                expect: ExpectAction::Absent,
            },
        ),
        (
            &make_head_with_field_count(100),
            ctx(),
            Expected::Accepted {
                host: b"example.com",
                path: b"/",
                query: None,
                scheme: Scheme::Http,
                framing: RequestFraming::Empty,
                form: TargetForm::Origin,
                expect: ExpectAction::Absent,
            },
        ),
        (
            b"GET /a/../b HTTP/1.1\r\nHost: example.com\r\n\r\n",
            ctx(),
            Expected::Accepted {
                host: b"example.com",
                path: b"/b",
                query: None,
                scheme: Scheme::Http,
                framing: RequestFraming::Empty,
                form: TargetForm::Origin,
                expect: ExpectAction::Absent,
            },
        ),
        (
            b"GET /a/..%2fb HTTP/1.1\r\nHost: example.com\r\n\r\n",
            ctx(),
            Expected::Refused(RejectReason::PathEncodedSlash),
        ),
        (
            b"GET / HTTP/1.1\r\nHost: example.com\r\ntransfer-encoding: chunked\r\ncontent-length: 5\r\n\r\n",
            ctx(),
            Expected::Refused(RejectReason::TransferEncodingWithContentLength),
        ),
    ];

    for (head, ctx, expected) in cases {
        assert_case(head, ctx, expected);
    }
}

fn make_head_with_field_count(count: usize) -> Vec<u8> {
    let mut head = Vec::from(&b"GET / HTTP/1.1\r\nHost: example.com\r\n"[..]);
    for i in 0..count.saturating_sub(1) {
        head.extend_from_slice(format!("X-{i}: v\r\n").as_bytes());
    }
    head.extend_from_slice(b"\r\n");
    head
}

#[test]
fn host_rules() {
    let no_host = b"GET / HTTP/1.1\r\n\r\n";
    assert!(matches!(
        canonicalize_request(
            &parse_request_head(no_host, UnderscorePolicy::Reject),
            &ctx(),
            &mut BytesMut::new()
        ),
        Err(RejectReason::HostMissing)
    ));

    let dup_same = b"GET / HTTP/1.1\r\nHost: a\r\nHost: a\r\n\r\n";
    assert!(matches!(
        canonicalize_request(
            &parse_request_head(dup_same, UnderscorePolicy::Reject),
            &ctx(),
            &mut BytesMut::new()
        ),
        Err(RejectReason::HostDuplicate)
    ));

    let dup_diff = b"GET / HTTP/1.1\r\nHost: a\r\nHost: b\r\n\r\n";
    assert!(matches!(
        canonicalize_request(
            &parse_request_head(dup_diff, UnderscorePolicy::Reject),
            &ctx(),
            &mut BytesMut::new()
        ),
        Err(RejectReason::HostDuplicate)
    ));

    let default_auth = Authority::parse_into(
        b"default.example.com",
        Scheme::Http,
        &Limits::default().clamped(),
        &mut BytesMut::new(),
    )
    .unwrap();
    let default_auth_ref: &'static Authority = Box::leak(Box::new(default_auth));
    let http10_no_host_default = b"GET / HTTP/1.0\r\n\r\n";
    let ctx_default = ctx_with(
        Scheme::Http,
        false,
        false,
        Some(default_auth_ref),
        &DEFAULT_TRUST,
        UnderscorePolicy::Reject,
    );
    let (req, _, _) = canonicalize_request(
        &parse_request_head(http10_no_host_default, UnderscorePolicy::Reject),
        &ctx_default,
        &mut BytesMut::new(),
    )
    .unwrap();
    assert_eq!(req.authority.host(), b"default.example.com");

    let http10_no_host_no_default = b"GET / HTTP/1.0\r\n\r\n";
    assert!(matches!(
        canonicalize_request(
            &parse_request_head(http10_no_host_no_default, UnderscorePolicy::Reject),
            &ctx(),
            &mut BytesMut::new()
        ),
        Err(RejectReason::HostMissing)
    ));

    let http10_dup = b"GET / HTTP/1.0\r\nHost: a\r\nHost: b\r\n\r\n";
    assert!(matches!(
        canonicalize_request(
            &parse_request_head(http10_dup, UnderscorePolicy::Reject),
            &ctx(),
            &mut BytesMut::new()
        ),
        Err(RejectReason::HostDuplicate)
    ));
}

#[test]
fn target_forms() {
    let forward = ctx_with(
        Scheme::Http,
        true,
        false,
        None,
        &DEFAULT_TRUST,
        UnderscorePolicy::Reject,
    );

    let head = parse_request_head(
        b"GET http://good.com/p HTTP/1.1\r\nHost: evil.com\r\n\r\n",
        UnderscorePolicy::Reject,
    );
    assert!(matches!(
        canonicalize_request(&head, &forward, &mut BytesMut::new()),
        Err(RejectReason::AuthorityMismatch)
    ));

    let head = parse_request_head(
        b"GET http://good.com/p HTTP/1.1\r\nHost: good.com\r\n\r\n",
        UnderscorePolicy::Reject,
    );
    assert!(matches!(
        canonicalize_request(&head, &ctx(), &mut BytesMut::new()),
        Err(RejectReason::TargetFormInvalid)
    ));

    let head = parse_request_head(
        b"GET ftp://internal/x HTTP/1.1\r\n\r\n",
        UnderscorePolicy::Reject,
    );
    assert!(matches!(
        canonicalize_request(&head, &forward, &mut BytesMut::new()),
        Err(RejectReason::TargetFormInvalid)
    ));

    let head = parse_request_head(
        b"GET file:///etc/passwd HTTP/1.1\r\n\r\n",
        UnderscorePolicy::Reject,
    );
    assert!(matches!(
        canonicalize_request(&head, &forward, &mut BytesMut::new()),
        Err(RejectReason::TargetFormInvalid)
    ));

    let head = parse_request_head(
        b"GET HTTP://GOOD.COM/p HTTP/1.1\r\n\r\n",
        UnderscorePolicy::Reject,
    );
    let (req, _, form) = canonicalize_request(&head, &forward, &mut BytesMut::new()).unwrap();
    assert_eq!(form, TargetForm::Absolute);
    assert_eq!(req.scheme, Scheme::Http);
    assert_eq!(req.authority.host(), b"good.com");

    let head = parse_request_head(
        b"GET https://good.com/p HTTP/1.1\r\n\r\n",
        UnderscorePolicy::Reject,
    );
    let (req, _, form) = canonicalize_request(&head, &forward, &mut BytesMut::new()).unwrap();
    assert_eq!(form, TargetForm::Absolute);
    assert_eq!(req.scheme, Scheme::Http);

    let head = parse_request_head(
        b"OPTIONS * HTTP/1.1\r\nHost: example.com\r\n\r\n",
        UnderscorePolicy::Reject,
    );
    let (req, _, form) = canonicalize_request(&head, &ctx(), &mut BytesMut::new()).unwrap();
    assert_eq!(form, TargetForm::Asterisk);
    assert_eq!(req.path.as_bytes(), b"/");

    let head = parse_request_head(
        b"GET * HTTP/1.1\r\nHost: example.com\r\n\r\n",
        UnderscorePolicy::Reject,
    );
    assert!(matches!(
        canonicalize_request(&head, &ctx(), &mut BytesMut::new()),
        Err(RejectReason::TargetFormInvalid)
    ));

    let head = parse_request_head(
        b"CONNECT host:443 HTTP/1.1\r\n\r\n",
        UnderscorePolicy::Reject,
    );
    let (req, _, form) = canonicalize_request(&head, &ctx(), &mut BytesMut::new()).unwrap();
    assert_eq!(form, TargetForm::Authority);
    assert_eq!(req.path.as_bytes(), b"/");
    assert_eq!(req.framing, RequestFraming::Empty);

    let head = parse_request_head(
        b"CONNECT host:443 HTTP/1.1\r\ncontent-length: 5\r\n\r\n",
        UnderscorePolicy::Reject,
    );
    assert!(matches!(
        canonicalize_request(&head, &ctx(), &mut BytesMut::new()),
        Err(RejectReason::BodyNotAllowedForMethod)
    ));

    let head = parse_request_head(
        b"CONNECT /p HTTP/1.1\r\nHost: example.com\r\n\r\n",
        UnderscorePolicy::Reject,
    );
    assert!(matches!(
        canonicalize_request(&head, &ctx(), &mut BytesMut::new()),
        Err(RejectReason::TargetFormInvalid)
    ));
}

#[test]
fn step_order_is_observable() {
    let head = parse_request_head(
        b"GET / HTTP/1.1\r\nHost: example.com\r\ncontent-length: 5\r\nx-forwarded-for: 1.2.3.4\r\nexpect: 100-continue\r\n\r\n",
        UnderscorePolicy::Reject,
    );
    let trust: &'static TrustPolicy = Box::leak(Box::new(TrustPolicy::HopCount(1)));
    let ctx = ctx_with(
        Scheme::Http,
        false,
        false,
        None,
        trust,
        UnderscorePolicy::Reject,
    );
    let (req, action, _) = canonicalize_request(&head, &ctx, &mut BytesMut::new()).unwrap();

    assert_eq!(req.framing, RequestFraming::Exact { len: 5 });
    assert_eq!(req.peer.source, IdentitySource::ForwardedChain);
    assert_eq!(action, ExpectAction::ForwardToUpstream);
    assert!(matches!(
        req.headers.get_unique(b"content-length"),
        Ok(None)
    ));
    assert!(matches!(
        req.headers.get_unique(b"x-forwarded-for"),
        Ok(None)
    ));
    assert!(matches!(req.headers.get_unique(b"expect"), Ok(Some(v)) if v == b"100-continue"));
}

#[test]
fn underscore_variant_cannot_survive() {
    let head = parse_request_head(
        b"GET / HTTP/1.1\r\nHost: example.com\r\nX_Forwarded_For: 1.2.3.4\r\n\r\n",
        UnderscorePolicy::MapToHyphen,
    );
    let ctx = ctx_with(
        Scheme::Http,
        false,
        false,
        None,
        &DEFAULT_TRUST,
        UnderscorePolicy::MapToHyphen,
    );
    let (req, _, _) = canonicalize_request(&head, &ctx, &mut BytesMut::new()).unwrap();
    assert!(matches!(
        req.headers.get_unique(b"x-forwarded-for"),
        Ok(None)
    ));
}

#[test]
fn expect_removed_when_answered_locally() {
    let head = parse_request_head(
        b"GET / HTTP/1.1\r\nHost: example.com\r\nexpect: 100-continue\r\n\r\n",
        UnderscorePolicy::Reject,
    );
    let buffering_ctx = ctx_with(
        Scheme::Http,
        false,
        true,
        None,
        &DEFAULT_TRUST,
        UnderscorePolicy::Reject,
    );
    let (req, action, _) =
        canonicalize_request(&head, &buffering_ctx, &mut BytesMut::new()).unwrap();
    assert_eq!(action, ExpectAction::AnswerLocally);
    assert!(matches!(req.headers.get_unique(b"expect"), Ok(None)));

    let head = parse_request_head(
        b"GET / HTTP/1.1\r\nHost: example.com\r\nexpect: bogus\r\n\r\n",
        UnderscorePolicy::Reject,
    );
    assert!(matches!(
        canonicalize_request(&head, &ctx(), &mut BytesMut::new()),
        Err(RejectReason::ExpectUnsupported)
    ));
}

#[test]
fn arena_is_reused_across_pipelined_requests() {
    let buf = b"GET /a HTTP/1.1\r\nHost: a\r\n\r\nGET /b HTTP/1.1\r\nHost: b\r\n\r\n";
    let parser = H1Parser::new(&Limits::default().clamped(), UnderscorePolicy::Reject);
    let first = parser
        .parse_request_head(buf)
        .unwrap()
        .into_complete()
        .unwrap();
    let head1 = first.0;
    let consumed1 = first.1;
    let mut arena = BytesMut::new();
    let (req1, _, _) = canonicalize_request(&head1, &ctx(), &mut arena).unwrap();

    let head2 = parser
        .parse_request_head(&buf[consumed1..])
        .unwrap()
        .into_complete()
        .unwrap()
        .0;
    let (req2, _, _) = canonicalize_request(&head2, &ctx(), &mut arena).unwrap();

    assert_eq!(req1.authority.host(), b"a");
    assert_eq!(req2.authority.host(), b"b");
}

#[test]
fn long_name_lowercasing() {
    let name: Vec<u8> = std::iter::once(b'X')
        .chain((0..198).map(|i| b'a' + u8::try_from(i % 26).unwrap()))
        .collect();
    let mut head = Vec::from(&b"GET / HTTP/1.1\r\nHost: example.com\r\n"[..]);
    head.extend_from_slice(&name);
    head.extend_from_slice(b": v\r\n\r\n");
    let head = parse_request_head(&head, UnderscorePolicy::Reject);
    let (req, _, _) = canonicalize_request(&head, &ctx(), &mut BytesMut::new()).unwrap();
    let lowered: Vec<u8> = name.iter().map(u8::to_ascii_lowercase).collect();
    assert!(matches!(req.headers.get_unique(&lowered), Ok(Some(v)) if v == b"v"));
}

#[test]
fn request_does_not_borrow_the_read_buffer() {
    let (req, _, _) = {
        let buf = b"GET / HTTP/1.1\r\nHost: example.com\r\n\r\n".to_vec();
        let head = parse_request_head(&buf, UnderscorePolicy::Reject);
        let mut arena = BytesMut::new();
        canonicalize_request(&head, &ctx(), &mut arena).unwrap()
    };
    assert_eq!(req.authority.host(), b"example.com");
    assert_eq!(req.path.as_bytes(), b"/");
    assert!(matches!(req.headers.get_unique(b"host"), Ok(Some(v)) if v == b"example.com"));
}

#[test]
fn response_declared_length_survives_the_strip() {
    let check = |head: &[u8], expected_len: Option<u64>, expected_framing: ResponseFraming| {
        let raw = parse_response_head(head, UnderscorePolicy::Reject);
        let (resp, declared) =
            canonicalize_response(&raw, &Method::Head, &ctx(), &mut BytesMut::new()).unwrap();
        assert_eq!(declared, expected_len);
        assert_eq!(resp.framing, expected_framing);
        assert!(matches!(
            resp.headers.get_unique(b"content-length"),
            Ok(None)
        ));
    };

    check(
        b"HTTP/1.1 200 OK\r\ncontent-length: 4096\r\n\r\n",
        Some(4096),
        ResponseFraming::Empty,
    );
    check(
        b"HTTP/1.1 200 OK\r\ncontent-length: 0\r\n\r\n",
        Some(0),
        ResponseFraming::Empty,
    );
    check(b"HTTP/1.1 200 OK\r\n\r\n", None, ResponseFraming::Empty);

    let raw = parse_response_head(
        b"HTTP/1.1 200 OK\r\ntransfer-encoding: chunked\r\n\r\n",
        UnderscorePolicy::Reject,
    );
    let (resp, declared) =
        canonicalize_response(&raw, &Method::Get, &ctx(), &mut BytesMut::new()).unwrap();
    assert_eq!(declared, None);
    assert_eq!(resp.framing, ResponseFraming::Streamed);
    assert!(matches!(
        resp.headers.get_unique(b"content-length"),
        Ok(None)
    ));
    assert!(matches!(
        resp.headers.get_unique(b"transfer-encoding"),
        Ok(None)
    ));
}
