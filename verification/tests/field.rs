use irontraffic_http::error::RejectReason;
use irontraffic_http::field::{name_byte_ok, normalize_name_into, trim_ows, validate_name, validate_value, value_byte_ok, UnderscorePolicy};
use irontraffic_http::scalar::{is_tchar, WireVersion};

const VERSIONS: [WireVersion; 4] = [
    WireVersion::Http10,
    WireVersion::Http11,
    WireVersion::H2,
    WireVersion::H3,
];

const NAME_BYTES: [u8; 51] = *b"!#$%&'*+-.^_`|~0123456789abcdefghijklmnopqrstuvwxyz";

/// A small deterministic generator, so that every run sees the same inputs.
struct Inputs(u64);

impl Inputs {
    fn next(&mut self) -> u64 {
        self.0 ^= self.0 << 13;
        self.0 ^= self.0 >> 7;
        self.0 ^= self.0 << 17;
        self.0
    }

    fn below(&mut self, n: usize) -> usize {
        (self.next() % (n as u64)) as usize
    }

    fn bytes(&mut self, max_len: usize, alphabet: &[u8]) -> Vec<u8> {
        let len = self.below(max_len + 1);
        (0..len)
            .map(|_| {
                if alphabet.is_empty() {
                    self.next() as u8
                } else {
                    alphabet[self.below(alphabet.len())]
                }
            })
            .collect()
    }
}

#[test]
fn name_ok_true_count_is_51() {
    let mut count = 0usize;
    for b in 0..=255u8 {
        let expected = NAME_BYTES.contains(&b);
        assert_eq!(
            name_byte_ok(b),
            expected,
            "byte {b:#04x} disagrees with NAME_BYTES"
        );
        if expected {
            count += 1;
        }
    }
    assert_eq!(count, 51);
}

#[test]
fn value_ok_true_count_is_253() {
    let mut count = 0usize;
    for b in 0..=255u8 {
        let expected = !matches!(b, 0x00 | 0x0A | 0x0D);
        assert_eq!(
            value_byte_ok(b),
            expected,
            "byte {b:#04x} disagrees with the value table"
        );
        if expected {
            count += 1;
        }
    }
    assert_eq!(count, 253);
}

#[test]
fn name_table_is_subset_of_value_table() {
    for b in 0..=255u8 {
        if name_byte_ok(b) {
            assert!(
                value_byte_ok(b),
                "byte {b:#04x} is a name byte but not a value byte"
            );
        }
    }
}

#[test]
fn name_ok_matches_is_tchar_minus_uppercase() {
    for b in 0..=255u8 {
        let expected = is_tchar(b) && !b.is_ascii_uppercase();
        assert_eq!(
            name_byte_ok(b),
            expected,
            "byte {b:#04x}: NAME_OK disagrees with is_tchar(b) && !uppercase"
        );
    }
}

#[test]
fn validate_name_rejects_empty() {
    assert_eq!(
        validate_name(b"", WireVersion::Http11),
        Err(RejectReason::FieldNameEmpty)
    );
}

#[test]
fn validate_name_rejects_uppercase_on_every_version() {
    for ver in VERSIONS {
        assert_eq!(
            validate_name(b"Host", ver),
            Err(RejectReason::FieldNameUppercase),
            "{ver:?}"
        );
    }
}

#[test]
fn validate_name_rejects_delimiters() {
    let invalid_byte_cases: [&[u8]; 11] = [
        b"a:b", b"a b", b"a\tb", b"a\rb", b"a\nb", b"a\0b", b"a\x7fb", b"a\xffb", b"a,b",
        b"a(b", b"a/b",
    ];
    for case in invalid_byte_cases {
        assert_eq!(
            validate_name(case, WireVersion::Http11),
            Err(RejectReason::FieldNameInvalidByte),
            "{case:?}"
        );
    }
    assert_eq!(
        validate_name(b"a_b", WireVersion::Http11),
        Err(RejectReason::FieldNameUnderscore)
    );
}

#[test]
fn validate_name_accepts_canonical_names() {
    let names: [&[u8]; 6] = [
        b"host",
        b"content-type",
        b"x-forwarded-for",
        b"a",
        b"sec-ch-ua-mobile",
        b"if-none-match",
    ];
    for name in names {
        assert_eq!(validate_name(name, WireVersion::Http11), Ok(()), "{name:?}");
    }
}

#[test]
fn validate_value_rejects_ctl() {
    let cases: [&[u8]; 6] = [b"a\0b", b"a\rb", b"a\nb", b"\r", b"\n", b"ab\0"];
    for case in cases {
        for ver in [WireVersion::Http11, WireVersion::H2] {
            assert_eq!(
                validate_value(case, ver),
                Err(RejectReason::FieldValueInvalidByte),
                "{case:?} on {ver:?}"
            );
        }
    }
}

#[test]
fn validate_value_whitespace_by_version() {
    assert_eq!(validate_value(b" x", WireVersion::Http11), Ok(()));
    assert_eq!(validate_value(b"x ", WireVersion::Http11), Ok(()));
    assert_eq!(validate_value(b"\tx", WireVersion::Http11), Ok(()));
    assert_eq!(validate_value(b"x\t", WireVersion::Http11), Ok(()));

    for ver in [WireVersion::H2, WireVersion::H3] {
        assert_eq!(
            validate_value(b" x", ver),
            Err(RejectReason::FieldValueLeadingWhitespace),
            "{ver:?}"
        );
        assert_eq!(
            validate_value(b"\tx", ver),
            Err(RejectReason::FieldValueLeadingWhitespace),
            "{ver:?}"
        );
        assert_eq!(
            validate_value(b"x ", ver),
            Err(RejectReason::FieldValueTrailingWhitespace),
            "{ver:?}"
        );
        assert_eq!(
            validate_value(b"x\t", ver),
            Err(RejectReason::FieldValueTrailingWhitespace),
            "{ver:?}"
        );
    }

    for ver in VERSIONS {
        assert_eq!(validate_value(b"x y", ver), Ok(()), "{ver:?}");
        assert_eq!(validate_value(b"", ver), Ok(()), "{ver:?}");
    }
}

#[test]
fn validate_value_accepts_obs_text() {
    assert_eq!(validate_value(b"caf\xc3\xa9", WireVersion::Http11), Ok(()));
    assert_eq!(validate_value(b"a\xffb", WireVersion::Http11), Ok(()));
}

#[test]
fn trim_ows_exact() {
    assert_eq!(trim_ows(b"  x  "), b"x");
    assert_eq!(trim_ows(b"\t\tx\t"), b"x");
    assert_eq!(trim_ows(b"   "), b"");
    assert_eq!(trim_ows(b""), b"");
    assert_eq!(trim_ows(b"\xc2\xa0x"), b"\xc2\xa0x");
    assert_eq!(trim_ows(b"x\ny"), b"x\ny");
}

#[test]
fn normalize_name_lowercases_and_maps() {
    let mut out = [0u8; 32];
    let n = normalize_name_into(b"X-Forwarded-For", UnderscorePolicy::Reject, &mut out)
        .expect("well formed name should normalize");
    assert_eq!(&out[..n], b"x-forwarded-for");

    let mut out2 = [0u8; 32];
    assert_eq!(
        normalize_name_into(b"X_Forwarded_For", UnderscorePolicy::Reject, &mut out2),
        Err(RejectReason::FieldNameUnderscore)
    );

    let mut out3 = [0u8; 32];
    let n3 = normalize_name_into(b"X_Forwarded_For", UnderscorePolicy::MapToHyphen, &mut out3)
        .expect("MapToHyphen should normalize an underscore name");
    assert_eq!(&out3[..n3], b"x-forwarded-for");

    let mut out4 = [0u8; 1];
    assert_eq!(
        normalize_name_into(b"X-Forwarded-For", UnderscorePolicy::Reject, &mut out4),
        Err(RejectReason::FieldNameInvalidByte)
    );
}

#[test]
fn normalize_name_error_output_is_not_a_name() {
    let mut out = [0xEEu8; 8];
    let result = normalize_name_into(b"x-a_b", UnderscorePolicy::Reject, &mut out);
    assert_eq!(result, Err(RejectReason::FieldNameUnderscore));
    assert!(
        result.is_err(),
        "an Err here must never be mistaken for an Ok(3) short name"
    );
    assert_eq!(&out[..3], b"x-a", "bytes written before the error stand");
    assert_eq!(
        out[3], 0xEE,
        "the byte that triggered the error must not have been written"
    );
}

#[test]
fn desync_bytes_are_refused_where_they_matter() {
    assert_eq!(validate_value(b"\x0bchunked", WireVersion::Http11), Ok(()));
    assert_eq!(validate_value(b"chunked\x0c", WireVersion::Http11), Ok(()));
    assert_eq!(
        validate_value(b"chunked\r\n x", WireVersion::Http11),
        Err(RejectReason::FieldValueInvalidByte)
    );
}

#[test]
fn prop_validate_never_panics() {
    let mut inputs = Inputs(0x9e37_79b9_7f4a_7c15);
    for round in 0..4000 {
        let ver = VERSIONS[round % 4];
        let v = if round % 2 == 0 {
            inputs.bytes(512, b"")
        } else {
            inputs.bytes(24, b"abcXYZ-_ \t\r\n\0:09~")
        };
        if validate_name(&v, ver).is_ok() {
            assert!(!v.is_empty());
            assert!(v.iter().all(|b| NAME_BYTES.contains(b)));
            assert!(!v.contains(&b'_'));
        }
        if validate_value(&v, ver).is_ok() {
            assert!(!v.contains(&0x00));
            assert!(!v.contains(&0x0A));
            assert!(!v.contains(&0x0D));
            if ver.is_multiplexed() {
                assert!(!v.first().is_some_and(|&b| b == b' ' || b == b'\t'));
                assert!(!v.last().is_some_and(|&b| b == b' ' || b == b'\t'));
            }
        }
    }
}

#[test]
fn prop_trim_ows_is_a_subslice() {
    let mut inputs = Inputs(0x0123_4567_89ab_cdef);
    for _ in 0..4000 {
        let v = inputs.bytes(64, b"  \t\tab\n\xa0");
        let trimmed = trim_ows(&v);
        assert!(trimmed.len() <= v.len());
        let v_start = v.as_ptr() as usize;
        let v_end = v_start.saturating_add(v.len());
        let t_start = trimmed.as_ptr() as usize;
        let t_end = t_start.saturating_add(trimmed.len());
        assert!(t_start >= v_start && t_end <= v_end && t_start <= t_end);
        assert_eq!(trim_ows(trimmed), trimmed);
    }
}

#[test]
fn underscore_policy_defaults_to_reject() {
    assert_eq!(UnderscorePolicy::default(), UnderscorePolicy::Reject);
}
