use irontraffic_http::error::RejectReason;
use irontraffic_http::error::RejectReason::{BareCr, BareLf, FieldCountExceeded, FieldLineTooLong, FieldNameEmpty, FieldNameInvalidByte, FieldValueInvalidByte, HeaderListTooLarge, ObsFold, RequestLineMalformed, RequestLineTooLong, TargetFragment, VersionUnsupported, WhitespaceBeforeColon};
use irontraffic_http::field::UnderscorePolicy;
use irontraffic_http::h1::parser::{H1Parser, HeadScanBudget, Span};
use irontraffic_http::limits::Limits;
use irontraffic_http::scalar::{ParseStatus, StatusCode, WireVersion};

fn status(code: u16) -> StatusCode {
    StatusCode::from_u16(code).expect("a status in range")
}

fn parser(underscores: UnderscorePolicy) -> H1Parser {
    H1Parser::new(&Limits::default().clamped(), underscores)
}

fn default_parser() -> H1Parser {
    parser(UnderscorePolicy::Reject)
}

#[test]
fn span_len_and_is_empty() {
    let five = Span { start: 10, end: 15 };
    assert_eq!(five.len(), 5);
    assert!(!five.is_empty());

    let empty = Span { start: 7, end: 7 };
    assert_eq!(empty.len(), 0);
    assert!(empty.is_empty());
}

#[test]
fn head_scan_budget_max_bytes_is_4_mebibytes() {
    assert_eq!(HeadScanBudget::MAX_BYTES, 4_194_304);
}

#[derive(Debug, Clone, PartialEq, Eq)]
enum Expected {
    Partial,
    Complete {
        consumed: usize,
        field_count: usize,
        version: WireVersion,
    },
    Refused(RejectReason),
}

fn expect(parser: H1Parser, input: &[u8], expected: &Expected) {
    let got = parser.parse_request_head(input);
    match (expected, got) {
        (Expected::Partial, Ok(ParseStatus::Partial)) => {}
        (
            Expected::Complete {
                consumed,
                field_count,
                version,
            },
            Ok(ParseStatus::Complete {
                value,
                consumed: got_consumed,
            }),
        ) => {
            assert_eq!(got_consumed, *consumed, "consumed mismatch for {input:?}");
            assert_eq!(
                value.field_count(),
                *field_count,
                "field_count mismatch for {input:?}"
            );
            assert_eq!(value.version, *version, "version mismatch for {input:?}");
        }
        (Expected::Refused(reason), Err(got_reason)) => {
            assert_eq!(*reason, got_reason, "reject reason mismatch for {input:?}");
        }
        (expected, got) => {
            panic!("for {input:?}: expected {expected:?}, got {got:?}");
        }
    }
}

fn complete(consumed: usize, field_count: usize) -> Expected {
    Expected::Complete {
        consumed,
        field_count,
        version: WireVersion::Http11,
    }
}

#[test]
fn parser_corpus_table() {
    let p = default_parser();

    let cases: &[(&[u8], Expected)] = &[
        (b"", Expected::Partial),
        (b"GET", Expected::Partial),
        (b"GET / HTTP/1.1\r\nHost: a\r\n\r\n", complete(27, 1)),
        (b"\r\n\r\n", Expected::Refused(RequestLineMalformed)),
        (b"GET / HTTP/1.1\nHost: a\n\n", Expected::Refused(BareLf)),
        (
            b"GET / HTTP/1.1\r\nHost: a\rX: 1\r\n\r\n",
            Expected::Refused(BareCr),
        ),
        (
            b"GET / HTTP/1.1\r\nHost: a\r\n Continued\r\n\r\n",
            Expected::Refused(ObsFold),
        ),
        (
            b"GET / HTTP/1.1\r\nHost: a\r\n\tContinued\r\n\r\n",
            Expected::Refused(ObsFold),
        ),
        (
            b"GET / HTTP/1.1\r\n: novalue\r\nHost: a\r\n\r\n",
            Expected::Refused(FieldNameEmpty),
        ),
        (
            b"GET / HTTP/1.1\r\nHost : a\r\n\r\n",
            Expected::Refused(WhitespaceBeforeColon),
        ),
        (
            b"GET / HTTP/1.1\r\nHost\t: a\r\n\r\n",
            Expected::Refused(WhitespaceBeforeColon),
        ),
        (
            b"GET / HTTP/1.1\r\nHost: a\r\nX\x00Y: 1\r\n\r\n",
            Expected::Refused(FieldNameInvalidByte),
        ),
        (
            b"GET / HTTP/1.1\r\nHost: a\r\nX: va\x00lue\r\n\r\n",
            Expected::Refused(FieldValueInvalidByte),
        ),
        (
            b"GET / HTTP/1.1\r\nHost: a\r\nX: va\rlue\r\n\r\n",
            Expected::Refused(BareCr),
        ),
        (
            b"GET / HTTP/1.1\r\nHost: a\r\nX: va\nlue\r\n\r\n",
            Expected::Refused(BareLf),
        ),
        (
            b"GET / HTTP/1.1\r\nHost: a\r\nX\xffY: 1\r\n\r\n",
            Expected::Refused(FieldNameInvalidByte),
        ),
        (
            b"GET / HTTP/1.1\r\nHost: a\r\nHost: b\r\n\r\n",
            complete(36, 2),
        ),
        (
            b"GET  / HTTP/1.1\r\nHost: a\r\n\r\n",
            Expected::Refused(RequestLineMalformed),
        ),
        (
            b"GET / HTTP/1.1 \r\nHost: a\r\n\r\n",
            Expected::Refused(RequestLineMalformed),
        ),
        (
            b"GET\t/ HTTP/1.1\r\nHost: a\r\n\r\n",
            Expected::Refused(RequestLineMalformed),
        ),
        (
            b"GET / HTTP/1.2\r\nHost: a\r\n\r\n",
            Expected::Refused(VersionUnsupported),
        ),
        (
            b"GET / HTTP/0.9\r\nHost: a\r\n\r\n",
            Expected::Refused(VersionUnsupported),
        ),
        (
            b"GET /\r\nHost: a\r\n\r\n",
            Expected::Refused(RequestLineMalformed),
        ),
        (
            b"GET / HTTP/1.0\r\n\r\n",
            Expected::Complete {
                consumed: 18,
                field_count: 0,
                version: WireVersion::Http10,
            },
        ),
        (b"get / HTTP/1.1\r\nHost: a\r\n\r\n", complete(27, 1)),
        (
            b"GET /path#frag HTTP/1.1\r\nHost: a\r\n\r\n",
            Expected::Refused(TargetFragment),
        ),
        (b"GET / HTTP/1.1\r\nX-A:\r\n\r\n", complete(24, 1)),
        (
            b"GET / HTTP/1.1\r\nHostvalue\r\n\r\n",
            Expected::Refused(RequestLineMalformed),
        ),
        (
            b" / HTTP/1.1\r\nHost: a\r\n\r\n",
            Expected::Refused(RequestLineMalformed),
        ),
    ];

    for (input, expected) in cases {
        expect(p, input, expected);
    }

    expect(p, b"GET / HTTP/1.1\r\n\r\n", &complete(18, 0));

    let target_len: usize = 8192 - 4 - 9 - 2;
    let mut ok_line = Vec::new();
    ok_line.extend_from_slice(b"GET /");
    ok_line.extend(std::iter::repeat_n(b'a', target_len.saturating_sub(1)));
    ok_line.extend_from_slice(b" HTTP/1.1\r\nHost: a\r\n\r\n");
    let request_line_len = 4 + target_len + 9 + 2;
    assert_eq!(request_line_len, 8192);
    expect(p, &ok_line, &complete(ok_line.len(), 1));

    let mut too_long_line = Vec::new();
    too_long_line.extend_from_slice(b"GET /");
    too_long_line.extend(std::iter::repeat_n(b'a', target_len));
    too_long_line.extend_from_slice(b" HTTP/1.1\r\nHost: a\r\n\r\n");
    expect(p, &too_long_line, &Expected::Refused(RequestLineTooLong));

    let mut hundred = Vec::from(&b"GET / HTTP/1.1\r\n"[..]);
    for i in 0..100 {
        hundred.extend_from_slice(format!("X-{i}: v\r\n").as_bytes());
    }
    hundred.extend_from_slice(b"\r\n");
    expect(p, &hundred, &complete(hundred.len(), 100));

    let mut hundred_one = Vec::from(&b"GET / HTTP/1.1\r\n"[..]);
    for i in 0..101 {
        hundred_one.extend_from_slice(format!("X-{i}: v\r\n").as_bytes());
    }
    hundred_one.extend_from_slice(b"\r\n");
    expect(p, &hundred_one, &Expected::Refused(FieldCountExceeded));

    let name = b"X";
    let value_len = 8192 - name.len();
    let mut one_line = Vec::from(&b"GET / HTTP/1.1\r\n"[..]);
    one_line.extend_from_slice(name);
    one_line.extend_from_slice(b":");
    one_line.extend(std::iter::repeat_n(b'v', value_len));
    one_line.extend_from_slice(b"\r\n\r\n");
    expect(p, &one_line, &complete(one_line.len(), 1));

    let mut one_line_too_long = Vec::from(&b"GET / HTTP/1.1\r\n"[..]);
    one_line_too_long.extend_from_slice(name);
    one_line_too_long.extend_from_slice(b":");
    one_line_too_long.extend(std::iter::repeat_n(b'v', value_len.saturating_add(1)));
    one_line_too_long.extend_from_slice(b"\r\n\r\n");
    expect(p, &one_line_too_long, &Expected::Refused(FieldLineTooLong));

    let mut over_list = Vec::from(&b"GET / HTTP/1.1\r\n"[..]);
    for i in 0..100 {
        let value = "v".repeat(1000);
        over_list.extend_from_slice(format!("X{i:03}: {value}\r\n").as_bytes());
    }
    over_list.extend_from_slice(b"\r\n");
    expect(p, &over_list, &Expected::Refused(HeaderListTooLarge));

    let at_boundary = vec![b'a'; 73_730];
    expect(p, &at_boundary, &Expected::Partial);
    let over_boundary = vec![b'a'; 73_731];
    expect(p, &over_boundary, &Expected::Refused(HeaderListTooLarge));

    let mut forty = Vec::from(&b"GET / HTTP/1.1\r\n"[..]);
    for i in 0..40 {
        forty.extend_from_slice(format!("X-{i}: v\r\n").as_bytes());
    }
    forty.extend_from_slice(b"\r\n");
    let result = p.parse_request_head(&forty);
    match result {
        Ok(ParseStatus::Complete { value, consumed }) => {
            assert_eq!(consumed, forty.len());
            assert_eq!(value.field_count(), 40);
            for i in 0..40 {
                assert_eq!(value.field_name(i), Some(format!("X-{i}").as_bytes()));
                assert_eq!(value.field_value(i), Some(&b"v"[..]));
            }
        }
        other => panic!("expected a 40-field Complete, got {other:?}"),
    }
}

#[test]
fn field_value_of_empty_value_is_some_empty_slice() {
    let p = default_parser();
    let raw = b"GET / HTTP/1.1\r\nX-A:\r\n\r\n";
    match p.parse_request_head(raw) {
        Ok(ParseStatus::Complete { value, .. }) => {
            assert_eq!(value.field_count(), 1);
            assert_eq!(value.field_name(0), Some(&b"X-A"[..]));
            assert_eq!(value.field_value(0), Some(&[][..]));
            assert!(value.field_value(0).is_some_and(<[u8]>::is_empty));
            assert_eq!(value.field_value(1), None);
            assert_eq!(value.field_name(1), None);
        }
        other => panic!("expected Complete, got {other:?}"),
    }
}

#[test]
fn consumed_is_exact() {
    let p = default_parser();
    let raw = b"GET / HTTP/1.1\r\nHost: a\r\n\r\n";
    match p.parse_request_head(raw) {
        Ok(ParseStatus::Complete { value, consumed }) => {
            assert_eq!(consumed, 27);
            assert_eq!(value.method_bytes(), b"GET");
        }
        other => panic!("expected Complete, got {other:?}"),
    }

    let mut pipelined = raw.to_vec();
    pipelined.extend_from_slice(b"GET /x HTTP/1.1\r\n");
    match p.parse_request_head(&pipelined) {
        Ok(ParseStatus::Complete { consumed, .. }) => {
            assert_eq!(consumed, 27);
            assert!(
                pipelined
                    .get(consumed..)
                    .is_some_and(|rest| rest.starts_with(b"GET /x"))
            );
        }
        other => panic!("expected Complete, got {other:?}"),
    }
}

#[test]
fn resumption_at_every_split() {
    let p = default_parser();

    let mut twenty_fields = Vec::from(&b"GET / HTTP/1.1\r\n"[..]);
    for i in 0..20 {
        twenty_fields.extend_from_slice(format!("X-{i}: v\r\n").as_bytes());
    }
    twenty_fields.extend_from_slice(b"\r\n");

    let mut long_value = Vec::from(&b"GET / HTTP/1.1\r\n"[..]);
    long_value.extend_from_slice(b"X: ");
    long_value.extend(std::iter::repeat_n(b'v', 500));
    long_value.extend_from_slice(b"\r\n\r\n");

    let mut pipelined = Vec::from(&b"GET / HTTP/1.1\r\nHost: a\r\n\r\n"[..]);
    pipelined.extend_from_slice(b"GET /x HTTP/1.1\r\n");

    let inputs: [&[u8]; 4] = [
        b"GET / HTTP/1.1\r\nHost: a\r\n\r\n",
        &twenty_fields,
        &long_value,
        &pipelined,
    ];

    for full in inputs {
        let whole = match p.parse_request_head(full) {
            Ok(ParseStatus::Complete { value, consumed }) => (value.field_count(), consumed),
            other => panic!("expected a Complete for the full buffer, got {other:?}"),
        };
        let (whole_field_count, head_len) = whole;
        for n in 0..full.len() {
            let prefix = full.get(..n).expect("n <= full.len()");
            match p.parse_request_head(prefix) {
                Ok(ParseStatus::Partial) if n < head_len => {}
                Ok(ParseStatus::Complete { value, consumed }) if n >= head_len => {
                    assert_eq!(
                        (value.field_count(), consumed),
                        whole,
                        "prefix of length {n} disagreed with the full parse for {full:?}"
                    );
                }
                other => panic!(
                    "prefix of length {n} (head_len {head_len}) gave unexpected {other:?} \
                     for {full:?}"
                ),
            }
        }
        match p.parse_request_head(full) {
            Ok(ParseStatus::Complete { value, consumed }) => {
                assert_eq!((value.field_count(), consumed), whole);
                assert_eq!(value.field_count(), whole_field_count);
            }
            other => panic!("expected the full buffer to complete again, got {other:?}"),
        }
    }
}

#[test]
fn bare_cr_and_lf_win_over_line_splitting() {
    let p = default_parser();
    let cases: [(&[u8], RejectReason); 4] = [
        (b"GET / HTTP/1.1\nHost: a\n\n", RejectReason::BareLf),
        (
            b"GET / HTTP/1.1\r\nHost: a\rX: 1\r\n\r\n",
            RejectReason::BareCr,
        ),
        (
            b"GET / HTTP/1.1\r\nHost: a\r\nX: va\rlue\r\n\r\n",
            RejectReason::BareCr,
        ),
        (
            b"GET / HTTP/1.1\r\nHost: a\r\nX: va\nlue\r\n\r\n",
            RejectReason::BareLf,
        ),
    ];
    for (input, reason) in cases {
        match p.parse_request_head(input) {
            Err(got) => assert_eq!(got, reason, "{input:?}"),
            other => panic!("for {input:?}: expected Err({reason:?}), got {other:?}"),
        }
    }
}

#[test]
fn value_trimming_is_ows_only() {
    let p = default_parser();
    let raw = b"GET / HTTP/1.1\r\nHost: a\r\nX:  leading-ows-only \r\n\r\n";
    match p.parse_request_head(raw) {
        Ok(ParseStatus::Complete { value, .. }) => {
            assert_eq!(value.field_value(1), Some(&b"leading-ows-only"[..]));
        }
        other => panic!("expected Complete, got {other:?}"),
    }

    let mut nbsp = Vec::from(&b"GET / HTTP/1.1\r\nHost: a\r\nX: "[..]);
    nbsp.extend_from_slice(b"\xc2\xa0x");
    nbsp.extend_from_slice(b"\r\n\r\n");
    match p.parse_request_head(&nbsp) {
        Ok(ParseStatus::Complete { value, .. }) => {
            assert_eq!(value.field_value(1), Some(&b"\xc2\xa0x"[..]));
        }
        other => panic!("expected Complete, got {other:?}"),
    }
}

#[test]
fn limits_are_enforced() {
    let p = default_parser();

    let target_len: usize = 8192 - 4 - 9 - 2;
    let mut ok_line = Vec::new();
    ok_line.extend_from_slice(b"GET /");
    ok_line.extend(std::iter::repeat_n(b'a', target_len.saturating_sub(1)));
    ok_line.extend_from_slice(b" HTTP/1.1\r\nHost: a\r\n\r\n");
    assert!(p.parse_request_head(&ok_line).is_ok());

    let mut too_long_line = Vec::new();
    too_long_line.extend_from_slice(b"GET /");
    too_long_line.extend(std::iter::repeat_n(b'a', target_len));
    too_long_line.extend_from_slice(b" HTTP/1.1\r\nHost: a\r\n\r\n");
    match p.parse_request_head(&too_long_line) {
        Err(reason) => assert_eq!(reason, RejectReason::RequestLineTooLong),
        other => panic!("expected Err(RequestLineTooLong), got {other:?}"),
    }

    let mut hundred = Vec::from(&b"GET / HTTP/1.1\r\n"[..]);
    for i in 0..100 {
        hundred.extend_from_slice(format!("X-{i}: v\r\n").as_bytes());
    }
    hundred.extend_from_slice(b"\r\n");
    assert!(p.parse_request_head(&hundred).is_ok());

    let mut hundred_one = Vec::from(&b"GET / HTTP/1.1\r\n"[..]);
    for i in 0..101 {
        hundred_one.extend_from_slice(format!("X-{i}: v\r\n").as_bytes());
    }
    hundred_one.extend_from_slice(b"\r\n");
    match p.parse_request_head(&hundred_one) {
        Err(reason) => assert_eq!(reason, RejectReason::FieldCountExceeded),
        other => panic!("expected Err(FieldCountExceeded), got {other:?}"),
    }

    let name = b"X";
    let value_len = 8192 - name.len();
    let mut one_line = Vec::from(&b"GET / HTTP/1.1\r\n"[..]);
    one_line.extend_from_slice(name);
    one_line.extend_from_slice(b":");
    one_line.extend(std::iter::repeat_n(b'v', value_len));
    one_line.extend_from_slice(b"\r\n\r\n");
    assert!(p.parse_request_head(&one_line).is_ok());

    let mut one_line_too_long = Vec::from(&b"GET / HTTP/1.1\r\n"[..]);
    one_line_too_long.extend_from_slice(name);
    one_line_too_long.extend_from_slice(b":");
    one_line_too_long.extend(std::iter::repeat_n(b'v', value_len.saturating_add(1)));
    one_line_too_long.extend_from_slice(b"\r\n\r\n");
    match p.parse_request_head(&one_line_too_long) {
        Err(reason) => assert_eq!(reason, RejectReason::FieldLineTooLong),
        other => panic!("expected Err(FieldLineTooLong), got {other:?}"),
    }

    let mut over_list = Vec::from(&b"GET / HTTP/1.1\r\n"[..]);
    for i in 0..100 {
        let value = "v".repeat(1000);
        over_list.extend_from_slice(format!("X{i:03}: {value}\r\n").as_bytes());
    }
    over_list.extend_from_slice(b"\r\n");
    match p.parse_request_head(&over_list) {
        Err(reason) => assert_eq!(reason, RejectReason::HeaderListTooLarge),
        other => panic!("expected Err(HeaderListTooLarge), got {other:?}"),
    }

    let at_boundary = vec![b'a'; 73_730];
    match p.parse_request_head(&at_boundary) {
        Ok(ParseStatus::Partial) => {}
        other => panic!(
            "exactly max_head_bytes with no terminator must still be Partial, got {other:?}"
        ),
    }
    let over_boundary = vec![b'a'; 73_731];
    match p.parse_request_head(&over_boundary) {
        Err(reason) => assert_eq!(
            reason,
            RejectReason::HeaderListTooLarge,
            "one byte past max_head_bytes with no terminator must be refused"
        ),
        other => panic!("one byte past max_head_bytes must be refused, got {other:?}"),
    }
}

#[test]
fn uppercase_names_are_flagged_not_refused() {
    let p = default_parser();
    match p.parse_request_head(b"GET / HTTP/1.1\r\nHost: a\r\n\r\n") {
        Ok(ParseStatus::Complete { value, .. }) => {
            assert!(value.raw_fields().first().expect("one field").needs_lowercase);
        }
        other => panic!("expected Complete, got {other:?}"),
    }
    match p.parse_request_head(b"GET / HTTP/1.1\r\nhost: a\r\n\r\n") {
        Ok(ParseStatus::Complete { value, .. }) => {
            assert!(!value.raw_fields().first().expect("one field").needs_lowercase);
        }
        other => panic!("expected Complete, got {other:?}"),
    }
}

#[test]
fn underscore_policy() {
    let reject = parser(UnderscorePolicy::Reject);
    match reject.parse_request_head(b"GET / HTTP/1.1\r\nX_A: 1\r\n\r\n") {
        Err(reason) => assert_eq!(reason, RejectReason::FieldNameUnderscore),
        other => panic!("expected Err(FieldNameUnderscore), got {other:?}"),
    }

    let map = parser(UnderscorePolicy::MapToHyphen);
    match map.parse_request_head(b"GET / HTTP/1.1\r\nX_A: 1\r\n\r\n") {
        Ok(ParseStatus::Complete { value, .. }) => {
            assert_eq!(value.field_name(0), Some(&b"X_A"[..]));
            assert_eq!(value.field_value(0), Some(&b"1"[..]));
        }
        other => panic!("expected Complete under MapToHyphen, got {other:?}"),
    }
}

#[test]
fn response_head_cases() {
    let p = default_parser();

    match p.parse_response_head(b"HTTP/1.1 200 OK\r\n\r\n") {
        Ok(ParseStatus::Complete { value, .. }) => {
            assert_eq!(value.status, status(200));
            assert_eq!(value.version, WireVersion::Http11);
        }
        other => panic!("expected Complete, got {other:?}"),
    }

    match p.parse_response_head(b"HTTP/1.0 200 OK\r\n\r\n") {
        Ok(ParseStatus::Complete { value, .. }) => {
            assert_eq!(value.version, WireVersion::Http10);
        }
        other => panic!("expected Complete, got {other:?}"),
    }

    match p.parse_response_head(b"HTTP/1.1 200\r\n\r\n") {
        Ok(ParseStatus::Complete { value, .. }) => {
            assert_eq!(value.status.as_u16(), 200);
        }
        other => panic!("expected Complete, got {other:?}"),
    }

    match p.parse_response_head(b"HTTP/1.1 20 OK\r\n\r\n") {
        Err(reason) => assert_eq!(reason, RejectReason::RequestLineMalformed),
        other => panic!("expected Err(RequestLineMalformed), got {other:?}"),
    }

    match p.parse_response_head(b"HTTP/1.1 099 OK\r\n\r\n") {
        Err(reason) => assert_eq!(reason, RejectReason::RequestLineMalformed),
        other => panic!("expected Err(RequestLineMalformed), got {other:?}"),
    }

    match p.parse_response_head(b"HTTP/1.1 200 O\0K\r\n\r\n") {
        Err(reason) => assert_eq!(reason, RejectReason::FieldValueInvalidByte),
        other => panic!("expected Err(FieldValueInvalidByte), got {other:?}"),
    }

    match p.parse_response_head(b"HTTP/1.1 600 x\r\n\r\n") {
        Err(reason) => assert_eq!(reason, RejectReason::RequestLineMalformed),
        other => panic!("expected Err(RequestLineMalformed), got {other:?}"),
    }

    match p.parse_response_head(b"HTTP/1.1 2:0\r\n\r\n") {
        Err(reason) => assert_eq!(reason, RejectReason::RequestLineMalformed),
        other => panic!("expected Err(RequestLineMalformed), got {other:?}"),
    }
}

#[test]
fn response_status_line_length_boundary() {
    let p = default_parser();

    let target_len: usize = 8192 - "HTTP/1.1 200 ".len() - 2;
    let mut ok_line = Vec::from(&b"HTTP/1.1 200 "[..]);
    ok_line.extend(std::iter::repeat_n(b'x', target_len));
    ok_line.extend_from_slice(b"\r\n\r\n");
    assert_eq!(
        "HTTP/1.1 200 ".len() + target_len + 2,
        8192,
        "test setup: the status line plus its CRLF must be exactly 8192 bytes"
    );
    assert!(p.parse_response_head(&ok_line).is_ok());

    let mut too_long_line = Vec::from(&b"HTTP/1.1 200 "[..]);
    too_long_line.extend(std::iter::repeat_n(b'x', target_len.saturating_add(1)));
    too_long_line.extend_from_slice(b"\r\n\r\n");
    match p.parse_response_head(&too_long_line) {
        Err(reason) => assert_eq!(reason, RejectReason::RequestLineTooLong),
        other => panic!("expected Err(RequestLineTooLong), got {other:?}"),
    }
}

#[test]
fn head_scan_budget_bounds_the_rescan() {
    fn charge_via_borrow(budget: &mut HeadScanBudget, n: usize) {
        budget.charge(n).expect("well under the budget");
    }

    let mut budget = HeadScanBudget::default();
    let mut last_ok_at: Option<usize> = None;
    let mut failed_at: Option<usize> = None;
    for n in 1..=73_730_usize {
        match budget.charge(n) {
            Ok(()) => {
                assert!(
                    budget.scanned() <= HeadScanBudget::MAX_BYTES,
                    "charge() returned Ok but scanned() ({}) exceeds MAX_BYTES at n={n}",
                    budget.scanned()
                );
                last_ok_at = Some(n);
            }
            Err(reason) => {
                assert_eq!(reason, RejectReason::HeaderListTooLarge);
                assert!(
                    budget.scanned() > HeadScanBudget::MAX_BYTES,
                    "charge() failed but scanned() ({}) did not exceed MAX_BYTES",
                    budget.scanned()
                );
                failed_at = Some(n);
                break;
            }
        }
    }
    let last_ok = last_ok_at.expect("at least one call must succeed");
    let failed = failed_at.expect("the schedule must eventually cross MAX_BYTES");
    assert!(
        last_ok < failed,
        "the last accepted call must precede the first refused one"
    );
    assert!(budget.scanned() < 5 * 1024 * 1024);

    let mut small = HeadScanBudget::default();
    for _ in 0..6 {
        assert_eq!(small.charge(1400), Ok(()));
    }
    assert!(small.scanned() < HeadScanBudget::MAX_BYTES);

    let mut resettable = HeadScanBudget::default();
    assert_eq!(
        resettable.charge(usize::try_from(HeadScanBudget::MAX_BYTES).unwrap_or(usize::MAX)),
        Ok(())
    );
    assert_eq!(resettable.scanned(), HeadScanBudget::MAX_BYTES);
    resettable.reset();
    assert_eq!(resettable.scanned(), 0);
    assert_eq!(resettable.charge(1), Ok(()));

    let mut owner = HeadScanBudget::default();
    charge_via_borrow(&mut owner, 100);
    charge_via_borrow(&mut owner, 200);
    assert_eq!(owner.scanned(), 300);
}

#[test]
fn target_span_is_exact_for_every_request_target_form() {
    let p = default_parser();
    let cases: &[(&[u8], &[u8])] = &[
        (b"GET / HTTP/1.1\r\n\r\n", b"/"),
        (b"GET /a/b?c=1 HTTP/1.1\r\n\r\n", b"/a/b?c=1"),
        (
            b"GET http://example.com/a HTTP/1.1\r\n\r\n",
            b"http://example.com/a",
        ),
        (
            b"GET http://example.com:8080/a/b HTTP/1.1\r\n\r\n",
            b"http://example.com:8080/a/b",
        ),
        (
            b"CONNECT example.com:443 HTTP/1.1\r\n\r\n",
            b"example.com:443",
        ),
        (
            b"CONNECT 203.0.113.5:8080 HTTP/1.1\r\n\r\n",
            b"203.0.113.5:8080",
        ),
        (b"OPTIONS * HTTP/1.1\r\n\r\n", b"*"),
    ];
    for (input, expected_target) in cases {
        match p.parse_request_head(input) {
            Ok(ParseStatus::Complete { value, .. }) => {
                assert_eq!(
                    value.target_bytes(),
                    *expected_target,
                    "target span mismatch for {input:?}"
                );
            }
            other => panic!("expected Complete for {input:?}, got {other:?}"),
        }
    }
}

#[test]
fn prop_never_panics_and_consumed_in_range() {
    let methods = ["GET", "HEAD", "POST", "PUT", "DELETE", "OPTIONS", "CONNECT"];
    let targets = [
        "/",
        "/a/b?c=1",
        "http://example.com/a",
        "http://example.com:8080/a/b",
        "example.com:443",
        "203.0.113.5:8080",
        "*",
    ];
    let versions = ["HTTP/1.1", "HTTP/1.0"];
    let field_names = ["Host", "X-A", "Accept", "User-Agent"];
    let field_values = ["a", "example.com", "", "text/plain"];
    let mutations = [b'\r', b'\n', b':', b' ', b'\t', 0u8];
    let mut state = 0xdead_1234_beef_5678_u64;
    let mut below = move |n: usize| -> usize {
        state ^= state << 13;
        state ^= state >> 7;
        state ^= state << 17;
        (state % n as u64) as usize
    };
    for round in 0..6000 {
        let mut input: Vec<u8> = Vec::new();
        if round % 4 == 0 {
            let len = below(2049);
            for _ in 0..len {
                input.push(below(256) as u8);
            }
        } else {
            input.extend_from_slice(methods[below(7)].as_bytes());
            input.push(b' ');
            input.extend_from_slice(targets[below(7)].as_bytes());
            input.push(b' ');
            input.extend_from_slice(versions[below(2)].as_bytes());
            input.extend_from_slice(b"\r\n");
            for _ in 0..below(5) {
                input.extend_from_slice(field_names[below(4)].as_bytes());
                input.extend_from_slice(b": ");
                input.extend_from_slice(field_values[below(4)].as_bytes());
                input.extend_from_slice(b"\r\n");
            }
            input.extend_from_slice(b"\r\n");
        }
        let mutation_index = below(if round % 2 == 0 { 2048 } else { 80 });
        let mutation_byte = mutations[below(6)];
        if let Some(slot) = input.get_mut(mutation_index) {
            *slot = mutation_byte;
        }
        let p = default_parser();
        let result = p.parse_request_head(&input);
        if let Ok(ParseStatus::Complete { value, consumed }) = result {
            assert!(consumed <= input.len());
            assert!(value.method.of(&input).is_some());
            assert!(!value.target_bytes().is_empty());
            for i in 0..value.field_count() {
                assert!(value.field_name(i).is_some());
                assert!(value.field_value(i).is_some());
            }
        }
    }
}
