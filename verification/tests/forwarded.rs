use irontraffic_http::addr_text::parse_addr;
use irontraffic_http::error::RejectReason;
use irontraffic_http::forwarded::{ForwardedChain, ForwardedElement, NodeName};
use irontraffic_http::limits::Limits;
use irontraffic_http::net::IpAddr;
use irontraffic_http::scalar::Scheme;
use irontraffic_http::section::FieldSectionBuilder;
use bytes::BytesMut;

fn ip(s: &str) -> IpAddr {
    parse_addr(s.as_bytes()).expect("valid address in a test fixture")
}

fn xff_line(n: usize) -> Vec<u8> {
    let mut line = Vec::new();
    for i in 0..n {
        if i > 0 {
            line.extend_from_slice(b", ");
        }
        line.extend_from_slice(b"1.2.3.4");
    }
    line
}

fn huge_xff_with_trailing_empty_token() -> Vec<u8> {
    let mut line = Vec::with_capacity(800_001);
    for _ in 0..100_000 {
        line.extend_from_slice(b"1.2.3.4,");
    }
    line.push(b',');
    line
}

fn parse3<'a>(
    forwarded: &[&'a [u8]],
    xff: &[&'a [u8]],
    xfp: &[&'a [u8]],
) -> Result<ForwardedChain, RejectReason> {
    let mut out = BytesMut::new();
    ForwardedChain::parse_into(
        forwarded,
        xff,
        xfp,
        &Limits::default().clamped(),
        &mut out,
    )
}

fn el(node: NodeName, proto: Option<Scheme>, from_xff: bool) -> ForwardedElement {
    ForwardedElement {
        node,
        proto,
        from_xff,
    }
}

fn addr(ip: &str, port: Option<u16>) -> NodeName {
    NodeName::Addr {
        addr: parse_addr(ip.as_bytes()).expect("valid IP literal in a test fixture"),
        port,
    }
}

#[derive(Debug, Clone, PartialEq, Eq)]
enum Expected {
    Accepted {
        elements: Vec<ForwardedElement>,
        host_claim: Option<&'static [u8]>,
    },
    Refused(RejectReason),
}

fn ok(elements: Vec<ForwardedElement>) -> Expected {
    Expected::Accepted {
        elements,
        host_claim: None,
    }
}

fn ok_host(elements: Vec<ForwardedElement>, host_claim: &'static [u8]) -> Expected {
    Expected::Accepted {
        elements,
        host_claim: Some(host_claim),
    }
}

type CorpusCase = (
    &'static [&'static [u8]],
    &'static [&'static [u8]],
    &'static [&'static [u8]],
    Expected,
);

#[test]
fn forwarded_corpus_table() {
    let cases: &[CorpusCase] = &[
        (&[], &[], &[], ok(vec![])),
        (
            &[],
            &[b"1.2.3.4"],
            &[],
            ok(vec![el(addr("1.2.3.4", None), None, true)]),
        ),
        (
            &[],
            &[b"a, b", b"c"],
            &[],
            ok(vec![
                el(NodeName::Unknown, None, true),
                el(NodeName::Unknown, None, true),
                el(NodeName::Unknown, None, true),
            ]),
        ),
        (
            &[],
            &[b"1.2.3.4, 5.6.7.8", b"9.10.11.12"],
            &[],
            ok(vec![
                el(addr("1.2.3.4", None), None, true),
                el(addr("5.6.7.8", None), None, true),
                el(addr("9.10.11.12", None), None, true),
            ]),
        ),
        (
            &[],
            &[b""],
            &[],
            Expected::Refused(RejectReason::ForwardedSyntax),
        ),
        (
            &[],
            &[b"1.2.3.4,,5.6.7.8"],
            &[],
            Expected::Refused(RejectReason::ForwardedSyntax),
        ),
        (
            &[],
            &[b"1.2.3.4:8080"],
            &[],
            ok(vec![el(addr("1.2.3.4", Some(8080)), None, true)]),
        ),
        (
            &[],
            &[b"2001:db8::1"],
            &[],
            ok(vec![el(NodeName::Unknown, None, true)]),
        ),
        (
            &[],
            &[b"[2001:db8::1]"],
            &[],
            ok(vec![el(addr("2001:db8::1", None), None, true)]),
        ),
        (
            &[],
            &[b"1.2.3.4.5"],
            &[],
            ok(vec![el(NodeName::Unknown, None, true)]),
        ),
        (
            &[],
            &[b"01.02.03.04"],
            &[],
            ok(vec![el(NodeName::Unknown, None, true)]),
        ),
        (
            &[],
            &[b"1.2.3.4 "],
            &[],
            ok(vec![el(addr("1.2.3.4", None), None, true)]),
        ),
        (
            &[b"for=1.2.3.4"],
            &[],
            &[],
            ok(vec![el(addr("1.2.3.4", None), None, false)]),
        ),
        (
            &[b"For=1.2.3.4"],
            &[],
            &[],
            ok(vec![el(addr("1.2.3.4", None), None, false)]),
        ),
        (
            &[b"for=1.2.3.4;proto=https;host=a.example"],
            &[],
            &[],
            ok_host(
                vec![el(addr("1.2.3.4", None), Some(Scheme::Https), false)],
                b"a.example",
            ),
        ),
        (
            &[b"for=1.2.3.4;for=5.6.7.8"],
            &[],
            &[],
            Expected::Refused(RejectReason::ForwardedDuplicateParam),
        ),
        (
            &[b"for=1.2.3.4, for=5.6.7.8"],
            &[],
            &[],
            ok(vec![
                el(addr("1.2.3.4", None), None, false),
                el(addr("5.6.7.8", None), None, false),
            ]),
        ),
        (
            &[b"for=\"[2001:db8::1]:8080\""],
            &[],
            &[],
            ok(vec![el(addr("2001:db8::1", Some(8080)), None, false)]),
        ),
        (
            &[b"for=\"1.2.3.4, 5.6.7.8\""],
            &[],
            &[],
            ok(vec![el(NodeName::Unknown, None, false)]),
        ),
        (
            &[b"for=unknown"],
            &[],
            &[],
            ok(vec![el(NodeName::Unknown, None, false)]),
        ),
        (
            &[b"for=_hidden"],
            &[],
            &[],
            ok(vec![el(NodeName::Obfuscated, None, false)]),
        ),
        (
            &[b"for=UNKNOWN"],
            &[],
            &[],
            ok(vec![el(NodeName::Unknown, None, false)]),
        ),
        (
            &[b"proto=https"],
            &[],
            &[],
            ok(vec![el(NodeName::Absent, Some(Scheme::Https), false)]),
        ),
        (
            &[b"for=1.2.3.4;ext=whatever"],
            &[],
            &[],
            ok(vec![el(addr("1.2.3.4", None), None, false)]),
        ),
        (
            &[b"for=1.2.3.4;ext=\"a;b\""],
            &[],
            &[],
            ok(vec![el(addr("1.2.3.4", None), None, false)]),
        ),
        (
            &[b"for=1.2.3.4;ext=\"unterminated"],
            &[],
            &[],
            ok(vec![el(addr("1.2.3.4", None), None, false)]),
        ),
        (
            &[b"garbage"],
            &[],
            &[],
            Expected::Refused(RejectReason::ForwardedSyntax),
        ),
        (
            &[b"for=1.1.1.1"],
            &[],
            &[b"https"],
            ok(vec![el(addr("1.1.1.1", None), Some(Scheme::Https), false)]),
        ),
        (
            &[b"for=1.1.1.1"],
            &[],
            &[b"HTTPS"],
            ok(vec![el(addr("1.1.1.1", None), Some(Scheme::Https), false)]),
        ),
        (
            &[b"for=1.1.1.1"],
            &[],
            &[b"gopher"],
            ok(vec![el(addr("1.1.1.1", None), None, false)]),
        ),
        (
            &[b"for=1.1.1.1"],
            &[],
            &[b"http, https"],
            ok(vec![el(addr("1.1.1.1", None), Some(Scheme::Https), false)]),
        ),
        (
            &[b"for=1.1.1.1"],
            &[b"2.2.2.2"],
            &[],
            ok(vec![
                el(addr("1.1.1.1", None), None, false),
                el(addr("2.2.2.2", None), None, true),
            ]),
        ),
    ];

    for (forwarded, xff, xfp, expected) in cases {
        let got = parse3(forwarded, xff, xfp);
        match (expected, got) {
            (
                Expected::Accepted {
                    elements,
                    host_claim,
                },
                Ok(chain),
            ) => {
                assert_eq!(
                    chain.elements(),
                    elements.as_slice(),
                    "elements mismatch for forwarded={forwarded:?} xff={xff:?} xfp={xfp:?}"
                );
                assert_eq!(
                    chain.host_claim(),
                    *host_claim,
                    "host_claim mismatch for forwarded={forwarded:?} xff={xff:?} xfp={xfp:?}"
                );
            }
            (Expected::Refused(reason), Err(got_reason)) => {
                assert_eq!(
                    *reason, got_reason,
                    "reject reason mismatch for forwarded={forwarded:?} xff={xff:?} xfp={xfp:?}"
                );
            }
            (expected, got) => {
                panic!(
                    "for forwarded={forwarded:?} xff={xff:?} xfp={xfp:?}: expected \
                     {expected:?}, got {got:?}"
                );
            }
        }
    }

    let line32 = xff_line(32);
    let chain32 = parse3(&[], &[line32.as_slice()], &[])
        .expect("32 elements must be accepted at the default cap");
    assert_eq!(chain32.len(), 32);
    let line33 = xff_line(33);
    assert_eq!(
        parse3(&[], &[line33.as_slice()], &[]),
        Err(RejectReason::ForwardedElementLimit)
    );

    let huge = huge_xff_with_trailing_empty_token();
    assert_eq!(
        parse3(&[], &[huge.as_slice()], &[]),
        Err(RejectReason::ForwardedBytesLimit)
    );

    let too_long = vec![b'a'; 4097];
    assert_eq!(
        parse3(&[], &[too_long.as_slice()], &[]),
        Err(RejectReason::ForwardedBytesLimit)
    );
}

#[test]
fn multi_line_is_one_list() {
    let full = parse3(&[], &[b"a, b", b"c"], &[]).expect("well formed XFF chain");
    assert_eq!(full.len(), 3);
    for element in full.elements() {
        assert_eq!(element.node, NodeName::Unknown);
        assert!(element.from_xff);
    }

    let first_only = parse3(&[], &[b"a, b"], &[]).expect("well formed XFF chain");
    assert_eq!(first_only.len(), 2);

    let last_only = parse3(&[], &[b"c"], &[]).expect("well formed XFF chain");
    assert_eq!(last_only.len(), 1);

    let addrs =
        parse3(&[], &[b"1.2.3.4, 5.6.7.8", b"9.10.11.12"], &[]).expect("well formed XFF chain");
    assert_eq!(addrs.len(), 3);
    let want: [&str; 3] = ["1.2.3.4", "5.6.7.8", "9.10.11.12"];
    for (element, want_addr) in addrs.elements().iter().zip(want.iter()) {
        assert_eq!(
            element.node.addr(),
            Some(ip(want_addr))
        );
    }
}

#[test]
fn quoted_comma_is_not_a_separator() {
    let chain =
        parse3(&[b"for=\"1.2.3.4, 5.6.7.8\""], &[], &[]).expect("well formed, one element");
    assert_eq!(chain.len(), 1);
    assert_eq!(chain.elements()[0].node, NodeName::Unknown);

    let chain2 = parse3(&[b"for=1.1.1.1;x=\", for=9.9.9.9"], &[], &[])
        .expect("well formed, one element");
    assert_eq!(chain2.len(), 1);
    assert_eq!(
        chain2.elements()[0].node.addr(),
        Some(ip("1.1.1.1"))
    );
}

#[test]
fn x_real_ip_is_never_read() {
    let limits = Limits::default().clamped();
    let mut arena = BytesMut::new();
    let mut builder = FieldSectionBuilder::new(&arena, &limits);
    builder
        .push(&mut arena, b"x-real-ip", b"1.2.3.4")
        .expect("well formed field");
    let section = builder.finish(&mut arena);

    let mut out = BytesMut::new();
    let chain = ForwardedChain::from_section(&section, &limits, &mut out)
        .expect("a section with no Forwarded/XFF/XFP field parses to an empty chain");
    assert!(chain.is_empty());
    assert_eq!(chain.len(), 0);
}

#[test]
fn ipv6_unquoting() {
    let chain = parse3(&[b"for=\"[2001:db8::1]:8080\""], &[], &[]).expect("well formed");
    assert_eq!(chain.len(), 1);
    match chain.elements()[0].node {
        NodeName::Addr { addr, port } => {
            assert_eq!(addr, ip("2001:db8::1"));
            assert_eq!(port, Some(8080));
        }
        other => panic!("expected an address, got {other:?}"),
    }

    let bare = parse3(&[b"for=2001:db8::1"], &[], &[]).expect("well formed");
    assert_eq!(bare.elements()[0].node, NodeName::Unknown);
}

#[test]
fn duplicate_param_per_element() {
    assert_eq!(
        parse3(&[b"for=1.2.3.4;for=5.6.7.8"], &[], &[]),
        Err(RejectReason::ForwardedDuplicateParam)
    );
    let chain =
        parse3(&[b"for=1.2.3.4, for=5.6.7.8"], &[], &[]).expect("two distinct elements");
    assert_eq!(chain.len(), 2);

    assert_eq!(
        parse3(&[b"proto=http;proto=https"], &[], &[]),
        Err(RejectReason::ForwardedDuplicateParam)
    );
    assert_eq!(
        parse3(&[b"host=a;host=b"], &[], &[]),
        Err(RejectReason::ForwardedDuplicateParam)
    );
    assert_eq!(
        parse3(&[b"by=1.2.3.4;by=5.6.7.8"], &[], &[]),
        Err(RejectReason::ForwardedDuplicateParam)
    );
}

#[test]
fn non_addresses_terminate_the_walk() {
    let samples: [&[u8]; 5] = [
        b"for=unknown",
        b"for=_hidden",
        b"for=UNKNOWN",
        b"for=1.2.3.4.5",
        b"for=01.02.03.04",
    ];
    for raw in samples {
        let chain = parse3(&[raw], &[], &[])
            .unwrap_or_else(|e| panic!("{raw:?} should parse, got {e:?}"));
        let node = chain.elements()[0].node;
        assert!(
            node.terminates_walk(),
            "{raw:?} produced {node:?}, expected terminates_walk() == true"
        );
        assert_eq!(
            node.addr(),
            None,
            "{raw:?} produced {node:?}, expected no address"
        );
    }

    let absent = parse3(&[b"proto=https"], &[], &[]).expect("well formed");
    assert!(absent.elements()[0].node.terminates_walk());

    let real = parse3(&[b"for=1.2.3.4"], &[], &[]).expect("well formed");
    assert!(!real.elements()[0].node.terminates_walk());
    assert_eq!(
        real.elements()[0].node.addr(),
        Some(ip("1.2.3.4"))
    );
}

#[test]
fn caps_are_enforced_inside_the_loop() {
    let line32 = xff_line(32);
    let chain32 = parse3(&[], &[line32.as_slice()], &[])
        .expect("32 elements must be accepted at the default cap");
    assert_eq!(chain32.len(), 32);
    assert!(chain32.bytes() <= 4096);

    let line33 = xff_line(33);
    assert_eq!(
        parse3(&[], &[line33.as_slice()], &[]),
        Err(RejectReason::ForwardedElementLimit)
    );

    let too_long = vec![b'a'; 4097];
    assert_eq!(
        parse3(&[], &[too_long.as_slice()], &[]),
        Err(RejectReason::ForwardedBytesLimit)
    );

    let huge = huge_xff_with_trailing_empty_token();
    assert_eq!(
        parse3(&[], &[huge.as_slice()], &[]),
        Err(RejectReason::ForwardedBytesLimit)
    );

    let short_lines = [xff_line(10), xff_line(10), xff_line(10), xff_line(10)];
    let short_refs: Vec<&[u8]> = short_lines.iter().map(Vec::as_slice).collect();
    assert_eq!(
        parse3(&[], &short_refs, &[]),
        Err(RejectReason::ForwardedElementLimit)
    );
}

#[test]
fn xfp_last_token_wins() {
    let plain_https = parse3(&[b"for=1.1.1.1"], &[], &[b"https"]).expect("well formed");
    assert_eq!(plain_https.elements()[0].proto, Some(Scheme::Https));

    let upper_https = parse3(&[b"for=1.1.1.1"], &[], &[b"HTTPS"]).expect("well formed");
    assert_eq!(upper_https.elements()[0].proto, Some(Scheme::Https));

    let unknown_proto = parse3(&[b"for=1.1.1.1"], &[], &[b"gopher"]).expect("well formed");
    assert_eq!(unknown_proto.elements()[0].proto, None);

    let last_token = parse3(&[b"for=1.1.1.1"], &[], &[b"http, https"]).expect("well formed");
    assert_eq!(last_token.elements()[0].proto, Some(Scheme::Https));

    let forwarded_wins =
        parse3(&[b"for=1.1.1.1;proto=http"], &[], &[b"https"]).expect("well formed");
    assert_eq!(forwarded_wins.elements()[0].proto, Some(Scheme::Http));

    let still_empty = parse3(&[], &[], &[b"https"]).expect("well formed, still empty");
    assert!(still_empty.is_empty());
}

#[test]
fn forwarded_elements_precede_xff() {
    let chain = parse3(&[b"for=1.1.1.1"], &[b"2.2.2.2"], &[]).expect("well formed");
    assert_eq!(chain.len(), 2);
    assert!(!chain.elements()[0].from_xff);
    assert!(chain.elements()[1].from_xff);
    assert_eq!(
        chain.elements()[0].node.addr(),
        Some(ip("1.1.1.1"))
    );
    assert_eq!(
        chain.elements()[1].node.addr(),
        Some(ip("2.2.2.2"))
    );
}

#[test]
fn chain_accessors_reflect_the_parse() {
    let chain = parse3(&[b"for=1.2.3.4"], &[], &[]).expect("well formed");
    assert!(!chain.is_empty());
    assert_eq!(chain.len(), 1);

    assert_eq!(chain.bytes(), 11);
}

#[test]
fn from_section_parses_the_real_fields() {
    let limits = Limits::default().clamped();
    let mut arena = BytesMut::new();
    let mut builder = FieldSectionBuilder::new(&arena, &limits);
    builder
        .push(&mut arena, b"x-forwarded-for", b"203.0.113.7")
        .expect("well formed field");
    let section = builder.finish(&mut arena);

    let mut out = BytesMut::new();
    let chain = ForwardedChain::from_section(&section, &limits, &mut out)
        .expect("a section carrying a real X-Forwarded-For field must parse");
    assert_eq!(chain.len(), 1);
    assert!(chain.elements()[0].from_xff);
    assert_eq!(
        chain.elements()[0].node.addr(),
        Some(ip("203.0.113.7"))
    );
}

#[test]
fn byte_budget_boundary_is_exact() {
    let tight = Limits {
        max_forwarded_bytes: 8,
        ..Limits::default()
    }
    .clamped();

    let exactly_eight = vec![b'a'; 8];
    let mut out = BytesMut::new();
    let chain = ForwardedChain::parse_into(
        &[],
        &[exactly_eight.as_slice()],
        &[],
        &tight,
        &mut out,
    )
    .expect("a value landing exactly on the byte cap must be accepted");
    assert_eq!(chain.bytes(), 8);

    let nine = vec![b'a'; 9];
    let mut out2 = BytesMut::new();
    assert_eq!(
        ForwardedChain::parse_into(
            &[],
            &[nine.as_slice()],
            &[],
            &tight,
            &mut out2,
        ),
        Err(RejectReason::ForwardedBytesLimit)
    );
}

#[test]
fn unterminated_quote_is_never_silently_repaired() {
    let chain = parse3(&[br#"for="1.2.3.45"#], &[], &[]).expect("well formed, one element");
    assert_eq!(chain.len(), 1);
    assert_eq!(
        chain.elements()[0].node,
        NodeName::Unknown,
        "an unterminated quote must never be repaired into a shorter, different address"
    );
}

#[test]
fn quoted_proto_value_is_unquoted_and_compared() {
    let quoted_https =
        parse3(&[br#"for=1.1.1.1;proto="https""#], &[], &[]).expect("well formed");
    assert_eq!(quoted_https.elements()[0].proto, Some(Scheme::Https));

    let quoted_upper =
        parse3(&[br#"for=1.1.1.1;proto="HTTP""#], &[], &[]).expect("well formed");
    assert_eq!(quoted_upper.elements()[0].proto, Some(Scheme::Http));

    let quoted_unknown =
        parse3(&[br#"for=1.1.1.1;proto="gopher""#], &[], &[]).expect("well formed");
    assert_eq!(quoted_unknown.elements()[0].proto, None);

    let unterminated =
        parse3(&[br#"for=1.1.1.1;proto="https"#], &[], &[]).expect("well formed");
    assert_eq!(unterminated.elements()[0].proto, None);
}

#[test]
fn unescape_resolves_quoted_pair_escapes_in_for_value() {
    let chain = parse3(&[br#"for="1.2.3.\4""#], &[], &[]).expect("well formed");
    assert_eq!(
        chain.elements()[0].node.addr(),
        Some(ip("1.2.3.4"))
    );
}

#[test]
fn quoted_host_value_is_unquoted() {
    let chain = parse3(&[br#"for=1.2.3.4;host="a.example""#], &[], &[]).expect("well formed");
    assert_eq!(chain.host_claim(), Some(&b"a.example"[..]));

    let unterminated =
        parse3(&[br#"for=1.2.3.4;host="unterminated"#], &[], &[]).expect("well formed");
    assert_eq!(unterminated.host_claim(), Some(&br#""unterminated"#[..]));
}

#[test]
fn quoted_host_value_resolves_escapes() {
    let chain = parse3(&[br#"for=1.2.3.4;host="a\.example""#], &[], &[]).expect("well formed");
    assert_eq!(chain.host_claim(), Some(&b"a.example"[..]));
}

#[test]
fn top_level_split_quote_state_is_exact() {
    let escaped_quote_does_not_close =
        parse3(&[br#"for="a\"b, c""#], &[], &[]).expect("well formed, one element");
    assert_eq!(escaped_quote_does_not_close.len(), 1);
    assert_eq!(
        escaped_quote_does_not_close.elements()[0].node,
        NodeName::Unknown
    );

    let real_quote_closes_and_lets_the_next_param_through =
        parse3(&[br#"for=1.2.3.4;host="a.example";proto=https"#], &[], &[])
            .expect("well formed");
    assert_eq!(
        real_quote_closes_and_lets_the_next_param_through.host_claim(),
        Some(&b"a.example"[..])
    );
    assert_eq!(
        real_quote_closes_and_lets_the_next_param_through.elements()[0].proto,
        Some(Scheme::Https)
    );
}

const FUZZ_ALPHABET: [u8; 23] = *b"0123456789.:,;=\"[]_for ";
const _: () = assert!(FUZZ_ALPHABET.len() == 23);

#[test]
fn prop_bounded_and_total() {
    let mut state = 0x2468_ace0_1357_9bdf_u64;
    let mut step = move || {
        state ^= state << 13;
        state ^= state >> 7;
        state ^= state << 17;
        state
    };
    for _ in 0..3000 {
        let mut lines = || -> Vec<Vec<u8>> {
            let n = step() % 5;
            (0..n)
                .map(|_| {
                    let len = step() % 201;
                    (0..len)
                        .map(|_| FUZZ_ALPHABET[(step() % FUZZ_ALPHABET.len() as u64) as usize])
                        .collect()
                })
                .collect()
        };
        let forwarded_lines = lines();
        let xff_lines = lines();
        let forwarded: Vec<&[u8]> = forwarded_lines.iter().map(Vec::as_slice).collect();
        let xff: Vec<&[u8]> = xff_lines.iter().map(Vec::as_slice).collect();
        let limits = Limits::default().clamped();
        let mut out = BytesMut::new();
        let result = ForwardedChain::parse_into(&forwarded, &xff, &[], &limits, &mut out);
        if let Ok(chain) = result {
            assert!(chain.len() <= 32);
            assert!(chain.bytes() <= 4096);
        }
    }
}
