use irontraffic_http::error::RejectReason;
use irontraffic_http::framing::{parse_content_length, resolve_request_framing, tokenize_transfer_encoding, OtherCodings, RequestFraming, TeCodings};
use irontraffic_http::limits::Limits;
use irontraffic_http::scalar::{Method, WireVersion};
use irontraffic_http::section::FieldSectionBuilder;
use bytes::BytesMut;

const ALL_VERSIONS: [WireVersion; 4] = [
    WireVersion::Http10,
    WireVersion::Http11,
    WireVersion::H2,
    WireVersion::H3,
];
const ALL_METHODS: [Method; 3] = [Method::Get, Method::Post, Method::Connect];
const CL_STRATEGY_VALUES: [&str; 7] = ["0", "1", "5", "+5", "18446744073709551616", "", "abc"];
const TE_STRATEGY_VALUES: [&str; 6] = [
    "chunked",
    "identity",
    "gzip, chunked",
    "chunked, chunked",
    "",
    "chunkedX",
];

fn resolve(
    fields: &[(&[u8], &[u8])],
    method: Method,
    version: WireVersion,
) -> Result<RequestFraming, RejectReason> {
    resolve_with_policy(fields, method, version, OtherCodings::Reject)
}

fn resolve_with_policy(
    fields: &[(&[u8], &[u8])],
    method: Method,
    version: WireVersion,
    policy: OtherCodings,
) -> Result<RequestFraming, RejectReason> {
    let limits = Limits::default().clamped();
    let mut arena = BytesMut::new();
    let mut builder = FieldSectionBuilder::new(&arena, &limits);
    for (name, value) in fields {
        builder
            .push(&mut arena, name, value)
            .expect("test fixture fields must already be well formed field bytes");
    }
    let section = builder.finish(&mut arena);
    resolve_request_framing(&method, version, &section, policy)
}

#[test]
fn three_variants_only() {
    fn ordinal(f: RequestFraming) -> u8 {
        match f {
            RequestFraming::Empty => 0,
            RequestFraming::Exact { len: _ } => 1,
            RequestFraming::Streamed => 2,
        }
    }
    assert_eq!(ordinal(RequestFraming::Empty), 0);
    assert_eq!(ordinal(RequestFraming::Exact { len: 5 }), 1);
    assert_eq!(ordinal(RequestFraming::Streamed), 2);

    assert!(!RequestFraming::Empty.has_body());
    assert!(RequestFraming::Streamed.has_body());
    assert_eq!(RequestFraming::Exact { len: 5 }.known_len(), Some(5));
}

#[test]
fn no_fields_by_version() {
    assert_eq!(
        resolve(&[], Method::Get, WireVersion::Http10),
        Ok(RequestFraming::Empty)
    );
    assert_eq!(
        resolve(&[], Method::Get, WireVersion::Http11),
        Ok(RequestFraming::Empty)
    );
    assert_eq!(
        resolve(&[], Method::Get, WireVersion::H2),
        Ok(RequestFraming::Streamed)
    );
    assert_eq!(
        resolve(&[], Method::Get, WireVersion::H3),
        Ok(RequestFraming::Streamed)
    );
}

#[test]
fn content_length_values() {
    assert_eq!(
        resolve(
            &[(b"content-length", b"0")],
            Method::Get,
            WireVersion::Http11
        ),
        Ok(RequestFraming::Empty)
    );
    assert_eq!(
        resolve(
            &[(b"content-length", b"1")],
            Method::Get,
            WireVersion::Http11
        ),
        Ok(RequestFraming::Exact { len: 1 })
    );
    assert_eq!(
        resolve(
            &[(b"content-length", b"18446744073709551615")],
            Method::Get,
            WireVersion::Http11
        ),
        Ok(RequestFraming::Exact { len: u64::MAX })
    );
    assert_eq!(
        resolve(
            &[(b"content-length", b"007")],
            Method::Get,
            WireVersion::Http11
        ),
        Ok(RequestFraming::Exact { len: 7 })
    );
}

#[test]
fn content_length_rejects() {
    let invalid: [&[u8]; 9] = [
        b"", b"+5", b"-5", b"0x5", b"5, 5", b"5.0", b"five", b"5 ", b" 5",
    ];
    for case in invalid {
        assert_eq!(
            parse_content_length(case),
            Err(RejectReason::ContentLengthInvalid),
            "{case:?}"
        );
    }

    assert_eq!(
        parse_content_length(b"18446744073709551616"),
        Err(RejectReason::ContentLengthOverflow)
    );

    let mut too_many_digits = [b'0'; 21];
    if let Some(last) = too_many_digits.last_mut() {
        *last = b'5';
    }
    assert_eq!(
        parse_content_length(&too_many_digits),
        Err(RejectReason::ContentLengthOverflow)
    );
}

#[test]
fn duplicate_content_length_even_when_identical() {
    assert_eq!(
        resolve(
            &[(b"content-length", b"5"), (b"content-length", b"5")],
            Method::Get,
            WireVersion::Http11
        ),
        Err(RejectReason::ContentLengthDuplicate)
    );
    assert_eq!(
        resolve(
            &[(b"content-length", b"5"), (b"content-length", b"6")],
            Method::Get,
            WireVersion::Http11
        ),
        Err(RejectReason::ContentLengthDuplicate)
    );
}

#[test]
fn te_and_cl_together_is_rejected() {
    assert_eq!(
        resolve(
            &[
                (b"content-length", b"5"),
                (b"transfer-encoding", b"chunked"),
            ],
            Method::Post,
            WireVersion::Http11
        ),
        Err(RejectReason::TransferEncodingWithContentLength)
    );
    assert_eq!(
        resolve(
            &[
                (b"transfer-encoding", b"chunked"),
                (b"content-length", b"5"),
            ],
            Method::Post,
            WireVersion::Http11
        ),
        Err(RejectReason::TransferEncodingWithContentLength)
    );
}

#[test]
fn duplicate_cl_check_is_not_skipped_by_te() {
    assert_eq!(
        resolve(
            &[
                (b"content-length", b"5"),
                (b"content-length", b"6"),
                (b"transfer-encoding", b"chunked"),
            ],
            Method::Post,
            WireVersion::Http11
        ),
        Err(RejectReason::ContentLengthDuplicate)
    );
}

#[test]
fn chunked_resolves_streamed() {
    assert_eq!(
        resolve(
            &[(b"transfer-encoding", b"chunked")],
            Method::Post,
            WireVersion::Http11
        ),
        Ok(RequestFraming::Streamed)
    );
    assert_eq!(
        resolve(
            &[(b"transfer-encoding", b"CHUNKED")],
            Method::Post,
            WireVersion::Http11
        ),
        Ok(RequestFraming::Streamed)
    );
}

#[test]
fn te_obfuscation_corpus() {
    let cases: &[(&[&[u8]], RejectReason)] = &[
        (
            &[b"chunked, chunked"],
            RejectReason::TransferEncodingChunkedRepeated,
        ),
        (
            &[b"chunked", b"chunked"],
            RejectReason::TransferEncodingChunkedRepeated,
        ),
        (
            &[b"chunked", b"identity"],
            RejectReason::TransferEncodingFinalNotChunked,
        ),
        (&[b"gzip"], RejectReason::TransferEncodingFinalNotChunked),
        (
            &[b"chunkedX"],
            RejectReason::TransferEncodingFinalNotChunked,
        ),
        (
            &[b"xchunked"],
            RejectReason::TransferEncodingFinalNotChunked,
        ),
        (
            &[b"gzip, chunked"],
            RejectReason::TransferEncodingUnsupportedCoding,
        ),
        (&[b""], RejectReason::TransferEncodingEmptyToken),
        (&[b"chunked,"], RejectReason::TransferEncodingEmptyToken),
        (&[b",chunked"], RejectReason::TransferEncodingEmptyToken),
        (
            &[b"\x0bchunked"],
            RejectReason::TransferEncodingUnsupportedCoding,
        ),
        (
            &[b"chunked\x0c"],
            RejectReason::TransferEncodingUnsupportedCoding,
        ),
        (
            &[b"a, b, c, d, e, f, g, h, i"],
            RejectReason::TransferEncodingUnsupportedCoding,
        ),
    ];

    for (lines, expected) in cases {
        let got = tokenize_transfer_encoding(lines, OtherCodings::Reject);
        assert_eq!(got, Err(*expected), "{lines:?}");
    }
}

#[test]
fn eight_tokens_is_within_the_cap() {
    let got = tokenize_transfer_encoding(
        &[b"a, b, c, d, e, f, g, chunked".as_slice()],
        OtherCodings::DangerouslyAcceptNonChunkedCodings,
    );
    assert_eq!(
        got,
        Ok(TeCodings {
            token_count: 8,
            chunked_count: 1,
            final_is_chunked: true,
            has_other: true,
        })
    );
}

#[test]
fn dangerous_policy_accepts_gzip_chunked() {
    assert_eq!(
        resolve_with_policy(
            &[(b"transfer-encoding", b"gzip, chunked")],
            Method::Post,
            WireVersion::Http11,
            OtherCodings::DangerouslyAcceptNonChunkedCodings,
        ),
        Ok(RequestFraming::Streamed)
    );
    assert_eq!(
        resolve_with_policy(
            &[(b"transfer-encoding", b"gzip")],
            Method::Post,
            WireVersion::Http11,
            OtherCodings::DangerouslyAcceptNonChunkedCodings,
        ),
        Err(RejectReason::TransferEncodingFinalNotChunked)
    );
}

#[test]
fn te_on_http10() {
    assert_eq!(
        resolve(
            &[(b"transfer-encoding", b"chunked")],
            Method::Post,
            WireVersion::Http10
        ),
        Err(RejectReason::TransferEncodingOnHttp10)
    );
}

#[test]
fn te_on_multiplexed() {
    for version in [WireVersion::H2, WireVersion::H3] {
        assert_eq!(
            resolve(&[(b"transfer-encoding", b"chunked")], Method::Post, version),
            Err(RejectReason::ConnectionSpecificField),
            "{version:?}"
        );
    }
}

#[test]
fn connect_body_rules() {
    assert_eq!(
        resolve(
            &[(b"content-length", b"0")],
            Method::Connect,
            WireVersion::Http11
        ),
        Ok(RequestFraming::Empty)
    );
    assert_eq!(
        resolve(
            &[(b"content-length", b"1")],
            Method::Connect,
            WireVersion::Http11
        ),
        Err(RejectReason::BodyNotAllowedForMethod)
    );
    assert_eq!(
        resolve(
            &[(b"transfer-encoding", b"chunked")],
            Method::Connect,
            WireVersion::Http11
        ),
        Err(RejectReason::BodyNotAllowedForMethod)
    );
}

#[test]
fn get_with_body_is_allowed() {
    assert_eq!(
        resolve(
            &[(b"content-length", b"100")],
            Method::Get,
            WireVersion::Http11
        ),
        Ok(RequestFraming::Exact { len: 100 })
    );
    assert_eq!(
        resolve(
            &[(b"content-length", b"100")],
            Method::Head,
            WireVersion::Http11
        ),
        Ok(RequestFraming::Exact { len: 100 })
    );
}

#[test]
fn exact_is_never_zero() {
    let cases: [(&[u8], u64); 4] = [(b"0", 0), (b"1", 1), (b"2", 2), (b"1024", 1024)];
    for (raw, len) in cases {
        let expected = if len == 0 {
            RequestFraming::Empty
        } else {
            RequestFraming::Exact { len }
        };
        assert_eq!(
            resolve(
                &[(b"content-length", raw)],
                Method::Get,
                WireVersion::Http11
            ),
            Ok(expected),
            "{len}"
        );
    }
}

/// A small deterministic generator, so that every run sees the same inputs.
struct Inputs(u64);

impl Inputs {
    fn next(&mut self) -> u64 {
        self.0 ^= self.0 << 13;
        self.0 ^= self.0 >> 7;
        self.0 ^= self.0 << 17;
        self.0
    }

    fn below(&mut self, n: usize) -> usize {
        (self.next() % (n as u64)) as usize
    }

    fn bytes(&mut self, max_len: usize, alphabet: &[u8]) -> Vec<u8> {
        let len = self.below(max_len + 1);
        (0..len)
            .map(|_| {
                if alphabet.is_empty() {
                    self.next() as u8
                } else {
                    alphabet[self.below(alphabet.len())]
                }
            })
            .collect()
    }
}

#[test]
fn prop_framing_total() {
    let limits = Limits::default().clamped();
    let mut inputs = Inputs(0x5eed_5eed_5eed_5eed);
    for _ in 0..400 {
        let n_cl = inputs.below(4);
        let n_te = inputs.below(4);
        let cl_values: Vec<&str> = (0..n_cl).map(|_| CL_STRATEGY_VALUES[inputs.below(7)]).collect();
        let te_values: Vec<&str> = (0..n_te).map(|_| TE_STRATEGY_VALUES[inputs.below(6)]).collect();
        for version in ALL_VERSIONS {
            for method in ALL_METHODS {
                let mut arena = BytesMut::new();
                let mut builder = FieldSectionBuilder::new(&arena, &limits);
                for v in &cl_values {
                    builder
                        .push(&mut arena, b"content-length", v.as_bytes())
                        .expect("every candidate value is well formed field bytes");
                }
                for v in &te_values {
                    builder
                        .push(&mut arena, b"transfer-encoding", v.as_bytes())
                        .expect("every candidate value is well formed field bytes");
                }
                let section = builder.finish(&mut arena);
                let result =
                    resolve_request_framing(&method, version, &section, OtherCodings::Reject);
                match result {
                    Ok(RequestFraming::Streamed) => {
                        assert_eq!(cl_values.len(), 0, "{version:?} {method:?}: {result:?}");
                    }
                    Ok(RequestFraming::Exact { .. }) => {
                        assert_eq!(cl_values.len(), 1, "{version:?} {method:?}: {result:?}");
                    }
                    Ok(RequestFraming::Empty) | Err(_) => {}
                }
            }
        }
    }
}

#[test]
fn prop_parse_content_length_never_panics() {
    let mut inputs = Inputs(0x0bad_cafe_0bad_cafe);
    for round in 0..4000 {
        let v = if round % 2 == 0 {
            inputs.bytes(40, b"")
        } else {
            inputs.bytes(22, b"0123456789")
        };
        if let Ok(n) = parse_content_length(&v) {
            assert!(v.iter().all(u8::is_ascii_digit));
            let mut rendered_len = 1_usize;
            let mut remaining = n;
            while remaining >= 10 {
                remaining = remaining.checked_div(10).unwrap_or(0);
                rendered_len = rendered_len.saturating_add(1);
            }
            assert!(rendered_len <= v.len());
        }
    }
}
