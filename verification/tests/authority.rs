use irontraffic_http::authority::{host_byte_ok, reconcile_authority, Authority};
use irontraffic_http::error::RejectReason;
use irontraffic_http::error::RejectReason::{AuthorityEmpty, AuthorityInvalidByte, AuthorityNonAscii, AuthorityPortInvalid, AuthorityTooLong};
use irontraffic_http::limits::Limits;
use irontraffic_http::scalar::{Scheme, WireVersion};
use bytes::BytesMut;

#[derive(Debug, Clone, PartialEq, Eq)]
enum Expected {
    Accepted(&'static [u8], Option<u16>),
    Refused(RejectReason),
}

fn parse(raw: &[u8], scheme: Scheme) -> Result<Authority, RejectReason> {
    let mut out = BytesMut::new();
    Authority::parse_into(raw, scheme, &Limits::default().clamped(), &mut out)
}

#[test]
fn authority_none_is_never_equal_to_authority_some() {
    assert_ne!(parse(b"a", Scheme::Http), parse(b"", Scheme::Http));
}

#[test]
fn authority_corpus_table() {
    let assert_case = |raw: &[u8], scheme: Scheme, expected: &Expected| {
        let got = parse(raw, scheme);
        match (expected, got) {
            (Expected::Accepted(host, port), Ok(authority)) => {
                assert_eq!(authority.host(), *host, "host mismatch for {raw:?}");
                assert_eq!(authority.port(), *port, "port mismatch for {raw:?}");
            }
            (Expected::Refused(reason), Err(got_reason)) => {
                assert_eq!(*reason, got_reason, "reject reason mismatch for {raw:?}");
            }
            (expected, got) => {
                panic!("for {raw:?}: expected {expected:?}, got {got:?}");
            }
        }
    };

    let cases: &[(&[u8], Scheme, Expected)] = &[
        (b"a", Scheme::Http, Expected::Accepted(b"a", None)),
        (b"", Scheme::Http, Expected::Refused(AuthorityEmpty)),
        (
            b"A.EXAMPLE.com",
            Scheme::Http,
            Expected::Accepted(b"a.example.com", None),
        ),
        (
            b"example.com.",
            Scheme::Http,
            Expected::Accepted(b"example.com.", None),
        ),
        (b".", Scheme::Http, Expected::Refused(AuthorityInvalidByte)),
        (b"a:80", Scheme::Http, Expected::Accepted(b"a", None)),
        (b"a:80", Scheme::Https, Expected::Accepted(b"a", Some(80))),
        (b"a:443", Scheme::Https, Expected::Accepted(b"a", None)),
        (b"a:8080", Scheme::Http, Expected::Accepted(b"a", Some(8080))),
        (b"a:0", Scheme::Http, Expected::Refused(AuthorityPortInvalid)),
        (
            b"a:99999",
            Scheme::Http,
            Expected::Refused(AuthorityPortInvalid),
        ),
        (b"a:65535", Scheme::Http, Expected::Accepted(b"a", Some(65535))),
        (
            b"a:65536",
            Scheme::Http,
            Expected::Refused(AuthorityPortInvalid),
        ),
        (b"a:-1", Scheme::Http, Expected::Refused(AuthorityPortInvalid)),
        (b"a:", Scheme::Http, Expected::Refused(AuthorityPortInvalid)),
        (
            b"a:8080:9090",
            Scheme::Http,
            Expected::Refused(AuthorityInvalidByte),
        ),
        (b"a b", Scheme::Http, Expected::Refused(AuthorityInvalidByte)),
        (b"a\tb", Scheme::Http, Expected::Refused(AuthorityInvalidByte)),
        (b"a\rb", Scheme::Http, Expected::Refused(AuthorityInvalidByte)),
        (b"a\nb", Scheme::Http, Expected::Refused(AuthorityInvalidByte)),
        (b"a\0b", Scheme::Http, Expected::Refused(AuthorityInvalidByte)),
        (b"a/b", Scheme::Http, Expected::Refused(AuthorityInvalidByte)),
        (b"a@b", Scheme::Http, Expected::Refused(AuthorityInvalidByte)),
        (b"a?b", Scheme::Http, Expected::Refused(AuthorityInvalidByte)),
        (b"a#b", Scheme::Http, Expected::Refused(AuthorityInvalidByte)),
        (
            b"xn--e1afmkfd.xn--p1ai",
            Scheme::Http,
            Expected::Accepted(b"xn--e1afmkfd.xn--p1ai", None),
        ),
        (
            "\u{43f}\u{440}\u{438}\u{43c}\u{435}\u{440}.\u{440}\u{444}".as_bytes(),
            Scheme::Http,
            Expected::Refused(AuthorityNonAscii),
        ),
        (b"[::1]", Scheme::Http, Expected::Accepted(b"[::1]", None)),
        (
            b"[::1]:8080",
            Scheme::Http,
            Expected::Accepted(b"[::1]", Some(8080)),
        ),
        (b"[::1", Scheme::Http, Expected::Refused(AuthorityInvalidByte)),
        (b"[::1]x", Scheme::Http, Expected::Refused(AuthorityInvalidByte)),
        (
            b"[::ffff:192.0.2.1]",
            Scheme::Http,
            Expected::Accepted(b"[::ffff:192.0.2.1]", None),
        ),
        (
            b"[zz::1]",
            Scheme::Http,
            Expected::Refused(AuthorityInvalidByte),
        ),
        (b"[]", Scheme::Http, Expected::Refused(AuthorityInvalidByte)),
        (b"a%2fb", Scheme::Http, Expected::Refused(AuthorityInvalidByte)),
        (b"a[b", Scheme::Http, Expected::Refused(AuthorityInvalidByte)),
        (b"a]b", Scheme::Http, Expected::Refused(AuthorityInvalidByte)),
    ];

    for (raw, scheme, expected) in cases {
        assert_case(raw, *scheme, expected);
    }

    let ok_255 = vec![b'a'; 255];
    assert_case(&ok_255, Scheme::Http, &Expected::Accepted(&[b'a'; 255], None));
    let too_long_256 = vec![b'a'; 256];
    assert_case(
        &too_long_256,
        Scheme::Http,
        &Expected::Refused(AuthorityTooLong),
    );
}

#[test]
fn lowercased_and_idempotent() {
    let authority = parse(b"A.EXAMPLE.com", Scheme::Http).expect("well formed");
    assert_eq!(authority.host(), b"a.example.com");

    let mut out = BytesMut::new();
    let written = authority.write_to(&mut out);
    assert_eq!(written, out.len());
    let bytes = out.freeze();

    let mut reparse_buf = BytesMut::new();
    let reparsed = Authority::parse_into(
        &bytes,
        Scheme::Http,
        &Limits::default().clamped(),
        &mut reparse_buf,
    )
    .expect("round trip must reparse");
    assert_eq!(reparsed, authority);

    let other = parse(b"b.example.com", Scheme::Http).expect("well formed");
    assert_ne!(other, authority);
}

#[test]
fn default_port_normalized_per_scheme() {
    let cases: [(&[u8], Scheme, Option<u16>); 6] = [
        (b"a", Scheme::Http, None),
        (b"a:80", Scheme::Http, None),
        (b"a:443", Scheme::Http, Some(443)),
        (b"a", Scheme::Https, None),
        (b"a:80", Scheme::Https, Some(80)),
        (b"a:443", Scheme::Https, None),
    ];
    for (raw, scheme, expected_port) in cases {
        let authority = parse(raw, scheme)
            .unwrap_or_else(|e| panic!("expected {raw:?} on {scheme:?} to parse, got {e:?}"));
        assert_eq!(authority.port(), expected_port, "{raw:?} on {scheme:?}");
        let expected_effective = expected_port.unwrap_or_else(|| scheme.default_port());
        assert_eq!(
            authority.effective_port(scheme),
            expected_effective,
            "{raw:?} on {scheme:?}"
        );
    }
}

#[test]
fn ipv6_literals() {
    let accepted: [&[u8]; 3] = [b"[::1]", b"[::1]:8080", b"[::ffff:192.0.2.1]"];
    for raw in accepted {
        let authority =
            parse(raw, Scheme::Http).unwrap_or_else(|e| panic!("{raw:?} rejected: {e:?}"));
        assert!(
            authority.is_ipv6_literal(),
            "{raw:?} must be recognized as an IPv6 literal"
        );
    }

    let refused: [&[u8]; 7] = [
        b"[::1",
        b"[::1]x",
        b"[zz::1]",
        b"[]",
        b"[1.2.3.4]",
        b"[fe80::1%25eth0]",
        b"[fe80::1%eth0]",
    ];
    for raw in refused {
        assert_eq!(
            parse(raw, Scheme::Http),
            Err(RejectReason::AuthorityInvalidByte),
            "{raw:?}"
        );
    }

    let plain = parse(b"example.com", Scheme::Http).expect("well formed");
    assert!(!plain.is_ipv6_literal());
}

#[test]
fn bytes_not_addresses() {
    let loopback_spellings: [&[u8]; 4] = [b"127.0.0.1", b"127.1", b"0177.0.0.1", b"2130706433"];
    let mut parsed = Vec::with_capacity(loopback_spellings.len());
    for raw in loopback_spellings {
        parsed.push(
            parse(raw, Scheme::Http)
                .unwrap_or_else(|e| panic!("{raw:?} must parse as a reg-name, got {e:?}")),
        );
    }
    for i in 0..parsed.len() {
        for j in (i.saturating_add(1))..parsed.len() {
            assert_ne!(
                parsed.get(i),
                parsed.get(j),
                "loopback spellings {:?} and {:?} must be distinct Authority values: \
                 this type canonicalizes bytes, not addresses",
                loopback_spellings.get(i),
                loopback_spellings.get(j),
            );
        }
    }

    let long_form = parse(b"[::1]", Scheme::Http).expect("well formed");
    let short_form = parse(b"[0:0:0:0:0:0:0:1]", Scheme::Http).expect("well formed");
    assert_ne!(
        long_form, short_form,
        "[::1] and [0:0:0:0:0:0:0:1] denote the same address and must still be two \
         distinct Authority values: address-matching policy parses an IpAddr, it does \
         not compare host() bytes"
    );
}

#[test]
fn non_ascii_is_refused_not_mapped() {
    let cyrillic = "\u{43f}\u{440}\u{438}\u{43c}\u{435}\u{440}.\u{440}\u{444}";
    assert_eq!(
        parse(cyrillic.as_bytes(), Scheme::Http),
        Err(RejectReason::AuthorityNonAscii)
    );

    let mut out = BytesMut::new();
    assert_eq!(
        Authority::parse_into(
            b"\xd0\xbf",
            Scheme::Http,
            &Limits::default().clamped(),
            &mut out
        ),
        Err(RejectReason::AuthorityNonAscii)
    );

    let a_label = parse(b"xn--e1afmkfd.xn--p1ai", Scheme::Http).expect("A-label must parse");
    assert_eq!(a_label.host(), b"xn--e1afmkfd.xn--p1ai");

    let precomposed = "caf\u{e9}"; // "café" with a single precomposed e-acute codepoint
    let decomposed = "cafe\u{301}"; // "cafe" plus a separate combining acute accent codepoint
    assert_ne!(precomposed.as_bytes(), decomposed.as_bytes());
    assert_eq!(
        parse(precomposed.as_bytes(), Scheme::Http),
        Err(RejectReason::AuthorityNonAscii)
    );
    assert_eq!(
        parse(decomposed.as_bytes(), Scheme::Http),
        Err(RejectReason::AuthorityNonAscii)
    );
}

#[test]
fn reconcile_matrix() {
    let mut out = BytesMut::new();

    out.clear();
    let a = reconcile_authority(
        Some(b"a"),
        None,
        Scheme::Http,
        WireVersion::Http11,
        &Limits::default().clamped(),
        &mut out,
    )
    .expect("Host alone on HTTP/1.1 must reconcile");
    assert_eq!(a.host(), b"a");

    out.clear();
    assert_eq!(
        reconcile_authority(
            None,
            None,
            Scheme::Http,
            WireVersion::Http11,
            &Limits::default().clamped(),
            &mut out,
        ),
        Err(RejectReason::HostMissing)
    );

    out.clear();
    assert_eq!(
        reconcile_authority(
            None,
            None,
            Scheme::Http,
            WireVersion::Http10,
            &Limits::default().clamped(),
            &mut out,
        ),
        Err(RejectReason::HostMissing)
    );

    out.clear();
    let a = reconcile_authority(
        None,
        Some(b"a"),
        Scheme::Https,
        WireVersion::H2,
        &Limits::default().clamped(),
        &mut out,
    )
    .expect(":authority alone on H2 must reconcile");
    assert_eq!(a.host(), b"a");

    out.clear();
    let a = reconcile_authority(
        Some(b"a"),
        None,
        Scheme::Https,
        WireVersion::H2,
        &Limits::default().clamped(),
        &mut out,
    )
    .expect("Host alone on H2 (no :authority) must reconcile");
    assert_eq!(a.host(), b"a");
    out.clear();
    assert_eq!(
        reconcile_authority(
            None,
            None,
            Scheme::Https,
            WireVersion::H2,
            &Limits::default().clamped(),
            &mut out,
        ),
        Err(RejectReason::PseudoHeaderMissing)
    );

    out.clear();
    assert_eq!(
        reconcile_authority(
            Some(b"evil.com"),
            Some(b"good.com"),
            Scheme::Https,
            WireVersion::H2,
            &Limits::default().clamped(),
            &mut out,
        ),
        Err(RejectReason::AuthorityMismatch)
    );

    out.clear();
    let a = reconcile_authority(
        Some(b"a:443"),
        Some(b"a"),
        Scheme::Https,
        WireVersion::H2,
        &Limits::default().clamped(),
        &mut out,
    )
    .expect("a:443 and a must agree on https after default-port normalization");
    assert_eq!(a.host(), b"a");

    out.clear();
    assert_eq!(
        reconcile_authority(
            Some(b"a:80"),
            Some(b"a"),
            Scheme::Https,
            WireVersion::H2,
            &Limits::default().clamped(),
            &mut out,
        ),
        Err(RejectReason::AuthorityMismatch)
    );

    out.clear();
    let a = reconcile_authority(
        Some(b"A"),
        Some(b"a"),
        Scheme::Https,
        WireVersion::H2,
        &Limits::default().clamped(),
        &mut out,
    )
    .expect("A and a must agree after lowercasing");
    assert_eq!(a.host(), b"a");

    out.clear();
    assert_eq!(
        reconcile_authority(
            Some(b"a"),
            Some(b"a"),
            Scheme::Http,
            WireVersion::Http11,
            &Limits::default().clamped(),
            &mut out,
        ),
        Err(RejectReason::AuthorityMismatch)
    );
}

#[test]
fn write_to_round_trips() {
    let inputs: [&[u8]; 4] = [b"a", b"a:8080", b"[::1]", b"[::1]:8080"];
    for raw in inputs {
        let authority = parse(raw, Scheme::Http).unwrap_or_else(|e| {
            panic!("{raw:?} must parse for this test's purpose, got {e:?}")
        });

        let mut out = BytesMut::new();
        let written = authority.write_to(&mut out);
        assert_eq!(
            written,
            authority.written_len(),
            "write_to's return value must match written_len() for {raw:?}"
        );
        assert_eq!(
            out.len(),
            written,
            "write_to must write exactly the bytes it reports for {raw:?}"
        );

        let mut reparse_buf = BytesMut::new();
        let reparsed = Authority::parse_into(
            &out,
            Scheme::Http,
            &Limits::default().clamped(),
            &mut reparse_buf,
        )
        .unwrap_or_else(|e| {
            panic!("re-parsing write_to's own output for {raw:?} failed: {e:?}")
        });
        assert_eq!(reparsed, authority);
    }
}

#[test]
fn limits() {
    let ok_255 = vec![b'a'; 255];
    assert!(parse(&ok_255, Scheme::Http).is_ok());

    let too_long_256 = vec![b'a'; 256];
    assert_eq!(
        parse(&too_long_256, Scheme::Http),
        Err(RejectReason::AuthorityTooLong)
    );

    let tight = Limits {
        max_authority_bytes: 4,
        ..Limits::default()
    }
    .clamped();
    let mut out = BytesMut::new();
    let exact = Authority::parse_into(b"abcd", Scheme::Http, &tight, &mut out)
        .expect("four bytes are within the limit");
    assert_eq!(exact.host(), b"abcd");
    assert_eq!(exact.port(), None);
    let mut out2 = BytesMut::new();
    assert_eq!(
        Authority::parse_into(b"abcde", Scheme::Http, &tight, &mut out2),
        Err(RejectReason::AuthorityTooLong)
    );
}

/// A small deterministic generator, so that every run sees the same inputs.
fn step(state: &mut u64) -> u64 {
    *state ^= *state << 13;
    *state ^= *state >> 7;
    *state ^= *state << 17;
    *state
}

#[test]
fn prop_parse_never_panics() {
    let alphabet = b"abcdefghijklmnopqrstuvwxyz...:::[]0123456789%ABC\xff ";
    let mut state = 0x1357_9bdf_0246_8ace_u64;
    for round in 0..6000 {
        let scheme = if round % 2 == 0 { Scheme::Https } else { Scheme::Http };
        let len = (step(&mut state) % 301) as usize;
        let len = if round % 3 == 0 { len % 12 } else { len };
        let v: Vec<u8> = (0..len)
            .map(|_| alphabet[(step(&mut state) % alphabet.len() as u64) as usize])
            .collect();
        let mut out = BytesMut::new();
        let result = Authority::parse_into(&v, scheme, &Limits::default().clamped(), &mut out);
        if let Ok(authority) = result {
            assert!(!authority.host().is_empty());
            assert!(authority.host().iter().all(|b| *b < 0x80));
            assert!(authority.host().iter().all(|b| !b.is_ascii_uppercase()));
            assert_ne!(authority.port(), Some(scheme.default_port()));
        }
    }
}

#[test]
fn host_bytes_are_81() {
    const HOST_BYTES: [u8; 81] =
        *b"!$%&'()*+,-.0123456789:;=ABCDEFGHIJKLMNOPQRSTUVWXYZ[]_abcdefghijklmnopqrstuvwxyz~";
    for b in 0..=255u8 {
        assert_eq!(host_byte_ok(b), HOST_BYTES.contains(&b), "byte {b:#04x}");
    }
}

#[test]
fn parsing_leaves_the_buffer_as_it_was() {
    let mut out = BytesMut::from(&b"held"[..]);
    let limits = Limits::default().clamped();
    let a = Authority::parse_into(b"Example.COM:8080", Scheme::Http, &limits, &mut out)
        .expect("well formed");
    assert_eq!(&out[..], b"held");
    assert_eq!(a.host(), b"example.com");
    assert_eq!(a.effective_port(Scheme::Http), 8080);
    assert_eq!(a.clone(), a);
}
