use irontraffic_http::error::RejectReason;

#[test]
fn all_has_72_entries() {
    assert_eq!(RejectReason::ALL.len(), 73);
}

#[test]
fn all_contains_every_variant() {
    fn seen(r: RejectReason) -> usize {
        match r {
            RejectReason::RequestLineTooLong => 0,
            RejectReason::RequestLineMalformed => 1,
            RejectReason::MethodInvalid => 2,
            RejectReason::MethodTooLong => 3,
            RejectReason::VersionUnsupported => 4,
            RejectReason::TargetFormInvalid => 5,
            RejectReason::TargetFragment => 6,
            RejectReason::FieldNameEmpty => 7,
            RejectReason::FieldNameInvalidByte => 8,
            RejectReason::FieldNameUppercase => 9,
            RejectReason::FieldNameUnderscore => 10,
            RejectReason::FieldValueInvalidByte => 11,
            RejectReason::FieldValueLeadingWhitespace => 12,
            RejectReason::FieldValueTrailingWhitespace => 13,
            RejectReason::WhitespaceBeforeColon => 14,
            RejectReason::ObsFold => 15,
            RejectReason::BareCr => 16,
            RejectReason::BareLf => 17,
            RejectReason::FieldLineTooLong => 18,
            RejectReason::FieldCountExceeded => 19,
            RejectReason::HeaderListTooLarge => 20,
            RejectReason::ContentLengthDuplicate => 21,
            RejectReason::ContentLengthInvalid => 22,
            RejectReason::ContentLengthOverflow => 23,
            RejectReason::ContentLengthMismatch => 24,
            RejectReason::TransferEncodingWithContentLength => 25,
            RejectReason::TransferEncodingOnHttp10 => 26,
            RejectReason::TransferEncodingFinalNotChunked => 27,
            RejectReason::TransferEncodingChunkedRepeated => 28,
            RejectReason::TransferEncodingEmptyToken => 29,
            RejectReason::TransferEncodingUnsupportedCoding => 30,
            RejectReason::BodyNotAllowedForMethod => 31,
            RejectReason::ChunkSizeInvalid => 32,
            RejectReason::ChunkSizeOverflow => 33,
            RejectReason::ChunkExtInvalid => 34,
            RejectReason::ChunkExtTooLong => 35,
            RejectReason::ChunkTerminatorInvalid => 36,
            RejectReason::TrailerFieldForbidden => 37,
            RejectReason::TrailingGarbage => 38,
            RejectReason::HostMissing => 39,
            RejectReason::HostDuplicate => 40,
            RejectReason::AuthorityEmpty => 41,
            RejectReason::AuthorityTooLong => 42,
            RejectReason::AuthorityInvalidByte => 43,
            RejectReason::AuthorityNonAscii => 44,
            RejectReason::AuthorityPortInvalid => 45,
            RejectReason::AuthorityMismatch => 46,
            RejectReason::PathEmpty => 47,
            RejectReason::PathTooLong => 48,
            RejectReason::PathInvalidByte => 49,
            RejectReason::PathPercentTruncated => 50,
            RejectReason::PathPercentInvalidHex => 51,
            RejectReason::PathEncodedNul => 52,
            RejectReason::PathEncodedDot => 53,
            RejectReason::PathEncodedSlash => 54,
            RejectReason::PathTraversalAboveRoot => 55,
            RejectReason::QueryInvalidByte => 56,
            RejectReason::ExpectUnsupported => 57,
            RejectReason::InterimResponseCountExceeded => 58,
            RejectReason::InterimResponseBytesExceeded => 59,
            RejectReason::PseudoHeaderUnknown => 60,
            RejectReason::PseudoProtocolUnsupported => 61,
            RejectReason::PseudoHeaderDuplicate => 62,
            RejectReason::PseudoHeaderMissing => 63,
            RejectReason::PseudoHeaderAfterField => 64,
            RejectReason::PseudoHeaderInTrailer => 65,
            RejectReason::ConnectionSpecificField => 66,
            RejectReason::TeValueNotTrailers => 67,
            RejectReason::ForwardedElementLimit => 68,
            RejectReason::ForwardedBytesLimit => 69,
            RejectReason::ForwardedDuplicateParam => 70,
            RejectReason::ForwardedSyntax => 71,
            RejectReason::RewriteLimitExceeded => 72,
        }
    }

    let indices: Vec<usize> = RejectReason::ALL.iter().copied().map(seen).collect();
    let expected: Vec<usize> = (0..73).collect();
    assert_eq!(indices, expected);
}

#[test]
fn metric_labels_are_unique() {
    let mut labels: Vec<&str> = RejectReason::ALL.iter().map(|r| r.metric_label()).collect();
    labels.sort_unstable();
    assert_eq!(labels.len(), 73);
    for pair in labels.windows(2) {
        assert_ne!(pair[0], pair[1], "duplicate metric label: {}", pair[0]);
    }
}

#[test]
fn metric_labels_are_snake_case() {
    for reason in RejectReason::ALL {
        let label = reason.metric_label();
        assert!(!label.is_empty(), "{reason:?} has an empty metric label");
        assert!(
            label
                .bytes()
                .all(|b| b.is_ascii_lowercase() || b.is_ascii_digit() || b == b'_'),
            "{reason:?}'s metric label {label:?} has a byte outside a-z, 0-9, _"
        );
        assert!(
            !label.starts_with('_') && !label.ends_with('_'),
            "{reason:?}'s metric label {label:?} starts or ends with _"
        );
    }
}

#[test]
fn metric_labels_match_debug_name() {
    fn snake_case_of_debug_name(name: &str) -> String {
        let mut out = String::new();
        for (i, c) in name.chars().enumerate() {
            if c.is_ascii_uppercase() {
                if i != 0 {
                    out.push('_');
                }
                out.push(c.to_ascii_lowercase());
            } else {
                out.push(c);
            }
        }
        out
    }

    for reason in RejectReason::ALL {
        let want = snake_case_of_debug_name(&format!("{reason:?}"));
        assert_eq!(
            reason.metric_label(),
            want,
            "{reason:?}'s metric label diverges from its own Debug name"
        );
    }
}

#[test]
fn status_codes_in_range() {
    for reason in RejectReason::ALL {
        let code = reason.status().as_u16();
        assert!(
            (100..=599).contains(&code),
            "{reason:?} maps to out-of-range status {code}"
        );
    }
}

#[test]
fn specific_status_mappings() {
    assert_eq!(RejectReason::RequestLineTooLong.status().as_u16(), 414);
    assert_eq!(RejectReason::PathTooLong.status().as_u16(), 414);
    assert_eq!(RejectReason::ExpectUnsupported.status().as_u16(), 417);
    assert_eq!(RejectReason::FieldLineTooLong.status().as_u16(), 431);
    assert_eq!(RejectReason::FieldCountExceeded.status().as_u16(), 431);
    assert_eq!(RejectReason::HeaderListTooLarge.status().as_u16(), 431);
    assert_eq!(RejectReason::MethodTooLong.status().as_u16(), 501);
    assert_eq!(
        RejectReason::TransferEncodingUnsupportedCoding
            .status()
            .as_u16(),
        501
    );
    assert_eq!(RejectReason::VersionUnsupported.status().as_u16(), 505);
    assert_eq!(
        RejectReason::InterimResponseCountExceeded.status().as_u16(),
        502
    );
    assert_eq!(
        RejectReason::InterimResponseBytesExceeded.status().as_u16(),
        502
    );
    assert_eq!(RejectReason::RewriteLimitExceeded.status().as_u16(), 500);
    assert_eq!(RejectReason::BareLf.status().as_u16(), 400);
}

#[test]
fn full_status_table() {
    const EXPECTED: [u16; 73] = [
        414, // RequestLineTooLong
        400, // RequestLineMalformed
        400, // MethodInvalid
        501, // MethodTooLong
        505, // VersionUnsupported
        400, // TargetFormInvalid
        400, // TargetFragment
        400, // FieldNameEmpty
        400, // FieldNameInvalidByte
        400, // FieldNameUppercase
        400, // FieldNameUnderscore
        400, // FieldValueInvalidByte
        400, // FieldValueLeadingWhitespace
        400, // FieldValueTrailingWhitespace
        400, // WhitespaceBeforeColon
        400, // ObsFold
        400, // BareCr
        400, // BareLf
        431, // FieldLineTooLong
        431, // FieldCountExceeded
        431, // HeaderListTooLarge
        400, // ContentLengthDuplicate
        400, // ContentLengthInvalid
        400, // ContentLengthOverflow
        400, // ContentLengthMismatch
        400, // TransferEncodingWithContentLength
        400, // TransferEncodingOnHttp10
        400, // TransferEncodingFinalNotChunked
        400, // TransferEncodingChunkedRepeated
        400, // TransferEncodingEmptyToken
        501, // TransferEncodingUnsupportedCoding
        400, // BodyNotAllowedForMethod
        400, // ChunkSizeInvalid
        400, // ChunkSizeOverflow
        400, // ChunkExtInvalid
        400, // ChunkExtTooLong
        400, // ChunkTerminatorInvalid
        400, // TrailerFieldForbidden
        400, // TrailingGarbage
        400, // HostMissing
        400, // HostDuplicate
        400, // AuthorityEmpty
        400, // AuthorityTooLong
        400, // AuthorityInvalidByte
        400, // AuthorityNonAscii
        400, // AuthorityPortInvalid
        400, // AuthorityMismatch
        400, // PathEmpty
        414, // PathTooLong
        400, // PathInvalidByte
        400, // PathPercentTruncated
        400, // PathPercentInvalidHex
        400, // PathEncodedNul
        400, // PathEncodedDot
        400, // PathEncodedSlash
        400, // PathTraversalAboveRoot
        400, // QueryInvalidByte
        417, // ExpectUnsupported
        502, // InterimResponseCountExceeded
        502, // InterimResponseBytesExceeded
        400, // PseudoHeaderUnknown
        501, // PseudoProtocolUnsupported
        400, // PseudoHeaderDuplicate
        400, // PseudoHeaderMissing
        400, // PseudoHeaderAfterField
        400, // PseudoHeaderInTrailer
        400, // ConnectionSpecificField
        400, // TeValueNotTrailers
        400, // ForwardedElementLimit
        400, // ForwardedBytesLimit
        400, // ForwardedDuplicateParam
        400, // ForwardedSyntax
        500, // RewriteLimitExceeded
    ];
    assert_eq!(EXPECTED.len(), RejectReason::ALL.len());
    for (reason, want) in RejectReason::ALL.iter().zip(EXPECTED.iter()) {
        assert_eq!(
            reason.status().as_u16(),
            *want,
            "{reason:?} expected status {want}"
        );
    }
}

#[test]
fn reject_reason_is_payload_free() {
    assert_eq!(std::mem::size_of::<RejectReason>(), 1);
}
