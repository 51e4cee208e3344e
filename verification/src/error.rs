//! Why a message is refused.
//!
//! [`RejectReason`] is the closed set of reasons for which this library
//! refuses to turn a byte stream into a request or a response. A reason
//! carries no payload: naming the offending bytes would turn every refusal
//! into an oracle.
use crate::scalar::StatusCode;
use vstd::prelude::*;

verus! {

/// Why a message is refused.
///
/// Every variant maps to exactly one HTTP status ([`RejectReason::status`])
/// and one stable, `snake_case` metric label
/// ([`RejectReason::metric_label`]). Every refusal closes the connection it
/// happened on: once a message is ambiguous nobody knows where the next one
/// begins.
#[derive(Copy, Clone, Debug, PartialEq, Eq, Hash, Structural)]
pub enum RejectReason {
    /// The HTTP/1 request line, including its trailing CRLF, exceeded
    /// `Limits::max_request_line_bytes`.
    RequestLineTooLong,
    /// The HTTP/1 request line could not be split into a method, a target
    /// and a version.
    RequestLineMalformed,
    /// The method token was empty or contained a byte that is not a `tchar`.
    MethodInvalid,
    /// The method token exceeded the effective method length cap.
    MethodTooLong,
    /// The declared HTTP version is not one this crate implements.
    VersionUnsupported,
    /// The request target is not a valid origin-form, absolute-form,
    /// authority-form or asterisk-form target, OR it is syntactically one
    /// of those forms but is refused on reverse-proxy policy grounds rather
    /// than on syntax: for example `GET http://evil.com/path`, whose
    /// absolute-form target is well formed but names an origin this proxy
    /// will not relay to.
    TargetFormInvalid,
    /// The request target carried a fragment (`#...`), which is never valid
    /// on the wire.
    TargetFragment,
    /// A field line named an empty field name.
    FieldNameEmpty,
    /// A field name contained a byte that is not a valid field-name
    /// character.
    FieldNameInvalidByte,
    /// A field name contained an uppercase ASCII letter. Version
    /// independent: malformed on H2 and H3, and on H1 it means the caller
    /// skipped `normalize_name_into`.
    FieldNameUppercase,
    /// A field name contained an underscore. Refused anywhere in the name,
    /// not only at the start, because NGINX, CGI and PHP fold `-` and `_`
    /// together while Go does not.
    FieldNameUnderscore,
    /// A field value contained a byte that is not permitted in a field
    /// value.
    FieldValueInvalidByte,
    /// A field value on a multiplexed protocol (H2 or H3) began with SP or
    /// HTAB. Such a value is malformed and is refused rather than trimmed;
    /// on HTTP/1 the surrounding OWS is stripped and this reason does not
    /// apply.
    FieldValueLeadingWhitespace,
    /// A field value on a multiplexed protocol (H2 or H3) ended with SP or
    /// HTAB. Such a value is malformed and is refused rather than trimmed;
    /// on HTTP/1 the surrounding OWS is stripped and this reason does not
    /// apply.
    FieldValueTrailingWhitespace,
    /// A field line had whitespace between the field name and the colon.
    WhitespaceBeforeColon,
    /// A field line used obsolete line folding.
    ObsFold,
    /// A bare CR appeared where only CRLF is permitted.
    BareCr,
    /// A bare LF appeared where only CRLF is permitted.
    BareLf,
    /// One field line exceeded `Limits::max_field_line_bytes`.
    FieldLineTooLong,
    /// The header section exceeded `Limits::max_field_count` field lines.
    FieldCountExceeded,
    /// The header section exceeded `Limits::max_header_list_bytes`.
    HeaderListTooLarge,
    /// `Content-Length` appeared more than once. Identical values are
    /// refused too.
    ContentLengthDuplicate,
    /// `Content-Length`'s value is not a valid non-negative decimal integer.
    ContentLengthInvalid,
    /// `Content-Length`'s value overflowed the type used to hold it.
    ContentLengthOverflow,
    /// The number of body bytes received did not match the declared
    /// `Content-Length`.
    ContentLengthMismatch,
    /// Both `Transfer-Encoding` and `Content-Length` were present, which
    /// RFC 9112 forbids.
    TransferEncodingWithContentLength,
    /// `Transfer-Encoding` was present on an HTTP/1.0 message, which does
    /// not define it.
    TransferEncodingOnHttp10,
    /// `Transfer-Encoding`'s final coding was not `chunked`. Checked before
    /// `TransferEncodingUnsupportedCoding`, so an unrecognized but
    /// well-formed final coding such as `gzip` is refused for this reason
    /// instead.
    TransferEncodingFinalNotChunked,
    /// `chunked` appeared more than once in `Transfer-Encoding`.
    TransferEncodingChunkedRepeated,
    /// `Transfer-Encoding` contained an empty coding token.
    TransferEncodingEmptyToken,
    /// `Transfer-Encoding` named a coding this crate does not implement.
    /// Reserved for a malformed coding token, for example one containing a
    /// control byte; a well-formed but unrecognized final coding is instead
    /// refused as `TransferEncodingFinalNotChunked`, which is checked
    /// first.
    TransferEncodingUnsupportedCoding,
    /// A body was present on a message for which the method or status
    /// forbids one.
    BodyNotAllowedForMethod,
    /// A chunk size line is not a valid hexadecimal chunk size.
    ChunkSizeInvalid,
    /// A chunk size overflowed the type used to hold it.
    ChunkSizeOverflow,
    /// A chunk extension is not syntactically valid.
    ChunkExtInvalid,
    /// A chunk's extensions exceeded `Limits::max_chunk_ext_bytes`.
    ChunkExtTooLong,
    /// A chunk was not followed by the expected CRLF terminator.
    ChunkTerminatorInvalid,
    /// A trailer section named a field that is forbidden in trailers.
    TrailerFieldForbidden,
    /// Bytes followed the terminating chunk and trailer section.
    TrailingGarbage,
    /// No `Host` field was present on a message that requires one.
    HostMissing,
    /// `Host` appeared more than once.
    HostDuplicate,
    /// The authority component was empty.
    AuthorityEmpty,
    /// The authority component exceeded `Limits::max_authority_bytes`.
    AuthorityTooLong,
    /// The authority component contained a byte that is not permitted in an
    /// authority.
    AuthorityInvalidByte,
    /// The authority component contained a non-ASCII byte.
    AuthorityNonAscii,
    /// The authority component's port is not a valid port number.
    AuthorityPortInvalid,
    /// The authority in the request target disagreed with the `Host` field.
    AuthorityMismatch,
    /// The request target's path component was empty.
    PathEmpty,
    /// The request target's path component exceeded `Limits::max_path_bytes`.
    PathTooLong,
    /// The path contained a byte that is not permitted unencoded.
    PathInvalidByte,
    /// A percent-encoding in the path was truncated at the end of the path.
    PathPercentTruncated,
    /// A percent-encoding in the path was followed by a non-hexadecimal
    /// digit.
    PathPercentInvalidHex,
    /// A percent-encoding in the path decoded to a NUL byte.
    PathEncodedNul,
    /// A percent-encoding in the path decoded to a dot-segment component.
    PathEncodedDot,
    /// A percent-encoding in the path decoded to a path separator.
    PathEncodedSlash,
    /// Normalizing the path's dot segments would climb above the root.
    PathTraversalAboveRoot,
    /// The query component contained a byte that is not permitted.
    QueryInvalidByte,
    /// The `Expect` field named an expectation this crate does not
    /// understand.
    ExpectUnsupported,
    /// More interim (1xx) responses were relayed for one request than
    /// `Limits::max_interim_responses` permits.
    InterimResponseCountExceeded,
    /// The interim (1xx) responses relayed for one request exceeded
    /// `Limits::max_interim_bytes`.
    InterimResponseBytesExceeded,
    /// A pseudo-header field named a pseudo-header this crate does not
    /// define, or named one it does define but with a malformed value: a
    /// bare `:`, a `:status` on a request, an unsupported `:scheme`, and
    /// similar. The one exception is a `:protocol` value other than
    /// `websocket`, which RFC 9220 Section 3 requires a 501 for; that case
    /// is the separate `PseudoProtocolUnsupported` reason below, because one
    /// variant cannot carry two statuses.
    PseudoHeaderUnknown,
    /// A `:protocol` pseudo-header on an extended-CONNECT request named a
    /// protocol other than `websocket`, the only one this crate implements.
    /// RFC 9220 Section 3 requires 501 for this specific case; every other
    /// malformed pseudo-header, including an unrelated unknown name, is
    /// `PseudoHeaderUnknown` (400) above.
    PseudoProtocolUnsupported,
    /// A pseudo-header field appeared more than once.
    PseudoHeaderDuplicate,
    /// A required pseudo-header field was absent.
    PseudoHeaderMissing,
    /// A pseudo-header field appeared after a regular field.
    PseudoHeaderAfterField,
    /// A pseudo-header field appeared in a trailer section, where none are
    /// permitted.
    PseudoHeaderInTrailer,
    /// A connection-specific field (forbidden on a multiplexed protocol)
    /// was present.
    ConnectionSpecificField,
    /// The `TE` field carried a value other than `trailers`.
    TeValueNotTrailers,
    /// The forwarding chain exceeded `Limits::max_forwarded_elements`.
    ForwardedElementLimit,
    /// The forwarding chain's field values exceeded
    /// `Limits::max_forwarded_bytes`.
    ForwardedBytesLimit,
    /// A forwarding chain element repeated a parameter that must appear at
    /// most once.
    ForwardedDuplicateParam,
    /// A forwarding chain element is not syntactically valid.
    ForwardedSyntax,
    /// A rewrite chain performed more re-route cycles than
    /// `Limits::max_rewrites` (clamped) permits.
    RewriteLimitExceeded,
}

impl RejectReason {
    /// Every variant, in declaration order.
    pub const ALL: [RejectReason; 73] = [
        RejectReason::RequestLineTooLong,
        RejectReason::RequestLineMalformed,
        RejectReason::MethodInvalid,
        RejectReason::MethodTooLong,
        RejectReason::VersionUnsupported,
        RejectReason::TargetFormInvalid,
        RejectReason::TargetFragment,
        RejectReason::FieldNameEmpty,
        RejectReason::FieldNameInvalidByte,
        RejectReason::FieldNameUppercase,
        RejectReason::FieldNameUnderscore,
        RejectReason::FieldValueInvalidByte,
        RejectReason::FieldValueLeadingWhitespace,
        RejectReason::FieldValueTrailingWhitespace,
        RejectReason::WhitespaceBeforeColon,
        RejectReason::ObsFold,
        RejectReason::BareCr,
        RejectReason::BareLf,
        RejectReason::FieldLineTooLong,
        RejectReason::FieldCountExceeded,
        RejectReason::HeaderListTooLarge,
        RejectReason::ContentLengthDuplicate,
        RejectReason::ContentLengthInvalid,
        RejectReason::ContentLengthOverflow,
        RejectReason::ContentLengthMismatch,
        RejectReason::TransferEncodingWithContentLength,
        RejectReason::TransferEncodingOnHttp10,
        RejectReason::TransferEncodingFinalNotChunked,
        RejectReason::TransferEncodingChunkedRepeated,
        RejectReason::TransferEncodingEmptyToken,
        RejectReason::TransferEncodingUnsupportedCoding,
        RejectReason::BodyNotAllowedForMethod,
        RejectReason::ChunkSizeInvalid,
        RejectReason::ChunkSizeOverflow,
        RejectReason::ChunkExtInvalid,
        RejectReason::ChunkExtTooLong,
        RejectReason::ChunkTerminatorInvalid,
        RejectReason::TrailerFieldForbidden,
        RejectReason::TrailingGarbage,
        RejectReason::HostMissing,
        RejectReason::HostDuplicate,
        RejectReason::AuthorityEmpty,
        RejectReason::AuthorityTooLong,
        RejectReason::AuthorityInvalidByte,
        RejectReason::AuthorityNonAscii,
        RejectReason::AuthorityPortInvalid,
        RejectReason::AuthorityMismatch,
        RejectReason::PathEmpty,
        RejectReason::PathTooLong,
        RejectReason::PathInvalidByte,
        RejectReason::PathPercentTruncated,
        RejectReason::PathPercentInvalidHex,
        RejectReason::PathEncodedNul,
        RejectReason::PathEncodedDot,
        RejectReason::PathEncodedSlash,
        RejectReason::PathTraversalAboveRoot,
        RejectReason::QueryInvalidByte,
        RejectReason::ExpectUnsupported,
        RejectReason::InterimResponseCountExceeded,
        RejectReason::InterimResponseBytesExceeded,
        RejectReason::PseudoHeaderUnknown,
        RejectReason::PseudoProtocolUnsupported,
        RejectReason::PseudoHeaderDuplicate,
        RejectReason::PseudoHeaderMissing,
        RejectReason::PseudoHeaderAfterField,
        RejectReason::PseudoHeaderInTrailer,
        RejectReason::ConnectionSpecificField,
        RejectReason::TeValueNotTrailers,
        RejectReason::ForwardedElementLimit,
        RejectReason::ForwardedBytesLimit,
        RejectReason::ForwardedDuplicateParam,
        RejectReason::ForwardedSyntax,
        RejectReason::RewriteLimitExceeded,
    ];

    /// The numeric HTTP status that answers a refusal for this reason.
    pub open spec fn status_spec(self) -> u16 {
        match self {
            RejectReason::RequestLineTooLong
            | RejectReason::PathTooLong => 414u16,
            RejectReason::ExpectUnsupported => 417u16,
            RejectReason::FieldLineTooLong
            | RejectReason::FieldCountExceeded
            | RejectReason::HeaderListTooLarge => 431u16,
            RejectReason::RewriteLimitExceeded => 500u16,
            RejectReason::MethodTooLong
            | RejectReason::TransferEncodingUnsupportedCoding
            | RejectReason::PseudoProtocolUnsupported => 501u16,
            RejectReason::InterimResponseCountExceeded
            | RejectReason::InterimResponseBytesExceeded => 502u16,
            RejectReason::VersionUnsupported => 505u16,
            _ => 400u16,
        }
    }

    /// The HTTP status that answers a refusal for this reason.
    #[must_use]
    pub fn status(self) -> (r: StatusCode)
        ensures
            r@ == self.status_spec(),
    {
        match self {
            RejectReason::RequestLineTooLong => StatusCode::known(414),
            RejectReason::RequestLineMalformed => StatusCode::known(400),
            RejectReason::MethodInvalid => StatusCode::known(400),
            RejectReason::MethodTooLong => StatusCode::known(501),
            RejectReason::VersionUnsupported => StatusCode::known(505),
            RejectReason::TargetFormInvalid => StatusCode::known(400),
            RejectReason::TargetFragment => StatusCode::known(400),
            RejectReason::FieldNameEmpty => StatusCode::known(400),
            RejectReason::FieldNameInvalidByte => StatusCode::known(400),
            RejectReason::FieldNameUppercase => StatusCode::known(400),
            RejectReason::FieldNameUnderscore => StatusCode::known(400),
            RejectReason::FieldValueInvalidByte => StatusCode::known(400),
            RejectReason::FieldValueLeadingWhitespace => StatusCode::known(400),
            RejectReason::FieldValueTrailingWhitespace => StatusCode::known(400),
            RejectReason::WhitespaceBeforeColon => StatusCode::known(400),
            RejectReason::ObsFold => StatusCode::known(400),
            RejectReason::BareCr => StatusCode::known(400),
            RejectReason::BareLf => StatusCode::known(400),
            RejectReason::FieldLineTooLong => StatusCode::known(431),
            RejectReason::FieldCountExceeded => StatusCode::known(431),
            RejectReason::HeaderListTooLarge => StatusCode::known(431),
            RejectReason::ContentLengthDuplicate => StatusCode::known(400),
            RejectReason::ContentLengthInvalid => StatusCode::known(400),
            RejectReason::ContentLengthOverflow => StatusCode::known(400),
            RejectReason::ContentLengthMismatch => StatusCode::known(400),
            RejectReason::TransferEncodingWithContentLength => StatusCode::known(400),
            RejectReason::TransferEncodingOnHttp10 => StatusCode::known(400),
            RejectReason::TransferEncodingFinalNotChunked => StatusCode::known(400),
            RejectReason::TransferEncodingChunkedRepeated => StatusCode::known(400),
            RejectReason::TransferEncodingEmptyToken => StatusCode::known(400),
            RejectReason::TransferEncodingUnsupportedCoding => StatusCode::known(501),
            RejectReason::BodyNotAllowedForMethod => StatusCode::known(400),
            RejectReason::ChunkSizeInvalid => StatusCode::known(400),
            RejectReason::ChunkSizeOverflow => StatusCode::known(400),
            RejectReason::ChunkExtInvalid => StatusCode::known(400),
            RejectReason::ChunkExtTooLong => StatusCode::known(400),
            RejectReason::ChunkTerminatorInvalid => StatusCode::known(400),
            RejectReason::TrailerFieldForbidden => StatusCode::known(400),
            RejectReason::TrailingGarbage => StatusCode::known(400),
            RejectReason::HostMissing => StatusCode::known(400),
            RejectReason::HostDuplicate => StatusCode::known(400),
            RejectReason::AuthorityEmpty => StatusCode::known(400),
            RejectReason::AuthorityTooLong => StatusCode::known(400),
            RejectReason::AuthorityInvalidByte => StatusCode::known(400),
            RejectReason::AuthorityNonAscii => StatusCode::known(400),
            RejectReason::AuthorityPortInvalid => StatusCode::known(400),
            RejectReason::AuthorityMismatch => StatusCode::known(400),
            RejectReason::PathEmpty => StatusCode::known(400),
            RejectReason::PathTooLong => StatusCode::known(414),
            RejectReason::PathInvalidByte => StatusCode::known(400),
            RejectReason::PathPercentTruncated => StatusCode::known(400),
            RejectReason::PathPercentInvalidHex => StatusCode::known(400),
            RejectReason::PathEncodedNul => StatusCode::known(400),
            RejectReason::PathEncodedDot => StatusCode::known(400),
            RejectReason::PathEncodedSlash => StatusCode::known(400),
            RejectReason::PathTraversalAboveRoot => StatusCode::known(400),
            RejectReason::QueryInvalidByte => StatusCode::known(400),
            RejectReason::ExpectUnsupported => StatusCode::known(417),
            RejectReason::InterimResponseCountExceeded => StatusCode::known(502),
            RejectReason::InterimResponseBytesExceeded => StatusCode::known(502),
            RejectReason::PseudoHeaderUnknown => StatusCode::known(400),
            RejectReason::PseudoProtocolUnsupported => StatusCode::known(501),
            RejectReason::PseudoHeaderDuplicate => StatusCode::known(400),
            RejectReason::PseudoHeaderMissing => StatusCode::known(400),
            RejectReason::PseudoHeaderAfterField => StatusCode::known(400),
            RejectReason::PseudoHeaderInTrailer => StatusCode::known(400),
            RejectReason::ConnectionSpecificField => StatusCode::known(400),
            RejectReason::TeValueNotTrailers => StatusCode::known(400),
            RejectReason::ForwardedElementLimit => StatusCode::known(400),
            RejectReason::ForwardedBytesLimit => StatusCode::known(400),
            RejectReason::ForwardedDuplicateParam => StatusCode::known(400),
            RejectReason::ForwardedSyntax => StatusCode::known(400),
            RejectReason::RewriteLimitExceeded => StatusCode::known(500),
        }
    }

    /// The stable, `snake_case` metric label for this reason.
    pub open spec fn label_spec(self) -> Seq<char> {
        match self {
            RejectReason::RequestLineTooLong => "request_line_too_long"@,
            RejectReason::RequestLineMalformed => "request_line_malformed"@,
            RejectReason::MethodInvalid => "method_invalid"@,
            RejectReason::MethodTooLong => "method_too_long"@,
            RejectReason::VersionUnsupported => "version_unsupported"@,
            RejectReason::TargetFormInvalid => "target_form_invalid"@,
            RejectReason::TargetFragment => "target_fragment"@,
            RejectReason::FieldNameEmpty => "field_name_empty"@,
            RejectReason::FieldNameInvalidByte => "field_name_invalid_byte"@,
            RejectReason::FieldNameUppercase => "field_name_uppercase"@,
            RejectReason::FieldNameUnderscore => "field_name_underscore"@,
            RejectReason::FieldValueInvalidByte => "field_value_invalid_byte"@,
            RejectReason::FieldValueLeadingWhitespace => "field_value_leading_whitespace"@,
            RejectReason::FieldValueTrailingWhitespace => "field_value_trailing_whitespace"@,
            RejectReason::WhitespaceBeforeColon => "whitespace_before_colon"@,
            RejectReason::ObsFold => "obs_fold"@,
            RejectReason::BareCr => "bare_cr"@,
            RejectReason::BareLf => "bare_lf"@,
            RejectReason::FieldLineTooLong => "field_line_too_long"@,
            RejectReason::FieldCountExceeded => "field_count_exceeded"@,
            RejectReason::HeaderListTooLarge => "header_list_too_large"@,
            RejectReason::ContentLengthDuplicate => "content_length_duplicate"@,
            RejectReason::ContentLengthInvalid => "content_length_invalid"@,
            RejectReason::ContentLengthOverflow => "content_length_overflow"@,
            RejectReason::ContentLengthMismatch => "content_length_mismatch"@,
            RejectReason::TransferEncodingWithContentLength => "transfer_encoding_with_content_length"@,
            RejectReason::TransferEncodingOnHttp10 => "transfer_encoding_on_http10"@,
            RejectReason::TransferEncodingFinalNotChunked => "transfer_encoding_final_not_chunked"@,
            RejectReason::TransferEncodingChunkedRepeated => "transfer_encoding_chunked_repeated"@,
            RejectReason::TransferEncodingEmptyToken => "transfer_encoding_empty_token"@,
            RejectReason::TransferEncodingUnsupportedCoding => "transfer_encoding_unsupported_coding"@,
            RejectReason::BodyNotAllowedForMethod => "body_not_allowed_for_method"@,
            RejectReason::ChunkSizeInvalid => "chunk_size_invalid"@,
            RejectReason::ChunkSizeOverflow => "chunk_size_overflow"@,
            RejectReason::ChunkExtInvalid => "chunk_ext_invalid"@,
            RejectReason::ChunkExtTooLong => "chunk_ext_too_long"@,
            RejectReason::ChunkTerminatorInvalid => "chunk_terminator_invalid"@,
            RejectReason::TrailerFieldForbidden => "trailer_field_forbidden"@,
            RejectReason::TrailingGarbage => "trailing_garbage"@,
            RejectReason::HostMissing => "host_missing"@,
            RejectReason::HostDuplicate => "host_duplicate"@,
            RejectReason::AuthorityEmpty => "authority_empty"@,
            RejectReason::AuthorityTooLong => "authority_too_long"@,
            RejectReason::AuthorityInvalidByte => "authority_invalid_byte"@,
            RejectReason::AuthorityNonAscii => "authority_non_ascii"@,
            RejectReason::AuthorityPortInvalid => "authority_port_invalid"@,
            RejectReason::AuthorityMismatch => "authority_mismatch"@,
            RejectReason::PathEmpty => "path_empty"@,
            RejectReason::PathTooLong => "path_too_long"@,
            RejectReason::PathInvalidByte => "path_invalid_byte"@,
            RejectReason::PathPercentTruncated => "path_percent_truncated"@,
            RejectReason::PathPercentInvalidHex => "path_percent_invalid_hex"@,
            RejectReason::PathEncodedNul => "path_encoded_nul"@,
            RejectReason::PathEncodedDot => "path_encoded_dot"@,
            RejectReason::PathEncodedSlash => "path_encoded_slash"@,
            RejectReason::PathTraversalAboveRoot => "path_traversal_above_root"@,
            RejectReason::QueryInvalidByte => "query_invalid_byte"@,
            RejectReason::ExpectUnsupported => "expect_unsupported"@,
            RejectReason::InterimResponseCountExceeded => "interim_response_count_exceeded"@,
            RejectReason::InterimResponseBytesExceeded => "interim_response_bytes_exceeded"@,
            RejectReason::PseudoHeaderUnknown => "pseudo_header_unknown"@,
            RejectReason::PseudoProtocolUnsupported => "pseudo_protocol_unsupported"@,
            RejectReason::PseudoHeaderDuplicate => "pseudo_header_duplicate"@,
            RejectReason::PseudoHeaderMissing => "pseudo_header_missing"@,
            RejectReason::PseudoHeaderAfterField => "pseudo_header_after_field"@,
            RejectReason::PseudoHeaderInTrailer => "pseudo_header_in_trailer"@,
            RejectReason::ConnectionSpecificField => "connection_specific_field"@,
            RejectReason::TeValueNotTrailers => "te_value_not_trailers"@,
            RejectReason::ForwardedElementLimit => "forwarded_element_limit"@,
            RejectReason::ForwardedBytesLimit => "forwarded_bytes_limit"@,
            RejectReason::ForwardedDuplicateParam => "forwarded_duplicate_param"@,
            RejectReason::ForwardedSyntax => "forwarded_syntax"@,
            RejectReason::RewriteLimitExceeded => "rewrite_limit_exceeded"@,
        }
    }

    /// The stable, `snake_case` metric label for this reason, for metrics and
    /// logs only: it never appears in a response.
    #[must_use]
    pub fn metric_label(self) -> (r: &'static str)
        ensures
            r@ == self.label_spec(),
    {
        match self {
            RejectReason::RequestLineTooLong => "request_line_too_long",
            RejectReason::RequestLineMalformed => "request_line_malformed",
            RejectReason::MethodInvalid => "method_invalid",
            RejectReason::MethodTooLong => "method_too_long",
            RejectReason::VersionUnsupported => "version_unsupported",
            RejectReason::TargetFormInvalid => "target_form_invalid",
            RejectReason::TargetFragment => "target_fragment",
            RejectReason::FieldNameEmpty => "field_name_empty",
            RejectReason::FieldNameInvalidByte => "field_name_invalid_byte",
            RejectReason::FieldNameUppercase => "field_name_uppercase",
            RejectReason::FieldNameUnderscore => "field_name_underscore",
            RejectReason::FieldValueInvalidByte => "field_value_invalid_byte",
            RejectReason::FieldValueLeadingWhitespace => "field_value_leading_whitespace",
            RejectReason::FieldValueTrailingWhitespace => "field_value_trailing_whitespace",
            RejectReason::WhitespaceBeforeColon => "whitespace_before_colon",
            RejectReason::ObsFold => "obs_fold",
            RejectReason::BareCr => "bare_cr",
            RejectReason::BareLf => "bare_lf",
            RejectReason::FieldLineTooLong => "field_line_too_long",
            RejectReason::FieldCountExceeded => "field_count_exceeded",
            RejectReason::HeaderListTooLarge => "header_list_too_large",
            RejectReason::ContentLengthDuplicate => "content_length_duplicate",
            RejectReason::ContentLengthInvalid => "content_length_invalid",
            RejectReason::ContentLengthOverflow => "content_length_overflow",
            RejectReason::ContentLengthMismatch => "content_length_mismatch",
            RejectReason::TransferEncodingWithContentLength => "transfer_encoding_with_content_length",
            RejectReason::TransferEncodingOnHttp10 => "transfer_encoding_on_http10",
            RejectReason::TransferEncodingFinalNotChunked => "transfer_encoding_final_not_chunked",
            RejectReason::TransferEncodingChunkedRepeated => "transfer_encoding_chunked_repeated",
            RejectReason::TransferEncodingEmptyToken => "transfer_encoding_empty_token",
            RejectReason::TransferEncodingUnsupportedCoding => "transfer_encoding_unsupported_coding",
            RejectReason::BodyNotAllowedForMethod => "body_not_allowed_for_method",
            RejectReason::ChunkSizeInvalid => "chunk_size_invalid",
            RejectReason::ChunkSizeOverflow => "chunk_size_overflow",
            RejectReason::ChunkExtInvalid => "chunk_ext_invalid",
            RejectReason::ChunkExtTooLong => "chunk_ext_too_long",
            RejectReason::ChunkTerminatorInvalid => "chunk_terminator_invalid",
            RejectReason::TrailerFieldForbidden => "trailer_field_forbidden",
            RejectReason::TrailingGarbage => "trailing_garbage",
            RejectReason::HostMissing => "host_missing",
            RejectReason::HostDuplicate => "host_duplicate",
            RejectReason::AuthorityEmpty => "authority_empty",
            RejectReason::AuthorityTooLong => "authority_too_long",
            RejectReason::AuthorityInvalidByte => "authority_invalid_byte",
            RejectReason::AuthorityNonAscii => "authority_non_ascii",
            RejectReason::AuthorityPortInvalid => "authority_port_invalid",
            RejectReason::AuthorityMismatch => "authority_mismatch",
            RejectReason::PathEmpty => "path_empty",
            RejectReason::PathTooLong => "path_too_long",
            RejectReason::PathInvalidByte => "path_invalid_byte",
            RejectReason::PathPercentTruncated => "path_percent_truncated",
            RejectReason::PathPercentInvalidHex => "path_percent_invalid_hex",
            RejectReason::PathEncodedNul => "path_encoded_nul",
            RejectReason::PathEncodedDot => "path_encoded_dot",
            RejectReason::PathEncodedSlash => "path_encoded_slash",
            RejectReason::PathTraversalAboveRoot => "path_traversal_above_root",
            RejectReason::QueryInvalidByte => "query_invalid_byte",
            RejectReason::ExpectUnsupported => "expect_unsupported",
            RejectReason::InterimResponseCountExceeded => "interim_response_count_exceeded",
            RejectReason::InterimResponseBytesExceeded => "interim_response_bytes_exceeded",
            RejectReason::PseudoHeaderUnknown => "pseudo_header_unknown",
            RejectReason::PseudoProtocolUnsupported => "pseudo_protocol_unsupported",
            RejectReason::PseudoHeaderDuplicate => "pseudo_header_duplicate",
            RejectReason::PseudoHeaderMissing => "pseudo_header_missing",
            RejectReason::PseudoHeaderAfterField => "pseudo_header_after_field",
            RejectReason::PseudoHeaderInTrailer => "pseudo_header_in_trailer",
            RejectReason::ConnectionSpecificField => "connection_specific_field",
            RejectReason::TeValueNotTrailers => "te_value_not_trailers",
            RejectReason::ForwardedElementLimit => "forwarded_element_limit",
            RejectReason::ForwardedBytesLimit => "forwarded_bytes_limit",
            RejectReason::ForwardedDuplicateParam => "forwarded_duplicate_param",
            RejectReason::ForwardedSyntax => "forwarded_syntax",
            RejectReason::RewriteLimitExceeded => "rewrite_limit_exceeded",
        }
    }
}

/// Enough of a label to tell it from every other: its length and a few of its
/// characters.
spec fn label_key(l: Seq<char>) -> (nat, char, char, char) {
    (l.len(), l[0], l[l.len() - 2], l[(l.len() * 9) as int / 16])
}

/// The key of each reason's label, written out.
spec fn key_of(r: RejectReason) -> (nat, char, char, char) {
    match r {
        RejectReason::RequestLineTooLong => (21, 'r', 'n', 'e'),
        RejectReason::RequestLineMalformed => (22, 'r', 'e', '_'),
        RejectReason::MethodInvalid => (14, 'm', 'i', 'i'),
        RejectReason::MethodTooLong => (15, 'm', 'n', 'o'),
        RejectReason::VersionUnsupported => (19, 'v', 'e', 's'),
        RejectReason::TargetFormInvalid => (19, 't', 'i', 'm'),
        RejectReason::TargetFragment => (15, 't', 'n', 'r'),
        RejectReason::FieldNameEmpty => (16, 'f', 't', 'e'),
        RejectReason::FieldNameInvalidByte => (23, 'f', 't', 'n'),
        RejectReason::FieldNameUppercase => (20, 'f', 's', 'u'),
        RejectReason::FieldNameUnderscore => (21, 'f', 'r', 'u'),
        RejectReason::FieldValueInvalidByte => (24, 'f', 't', 'n'),
        RejectReason::FieldValueLeadingWhitespace => (30, 'f', 'c', 'i'),
        RejectReason::FieldValueTrailingWhitespace => (31, 'f', 'c', 'i'),
        RejectReason::WhitespaceBeforeColon => (23, 'w', 'o', 'e'),
        RejectReason::ObsFold => (8, 'o', 'l', 'f'),
        RejectReason::BareCr => (7, 'b', 'c', 'e'),
        RejectReason::BareLf => (7, 'b', 'l', 'e'),
        RejectReason::FieldLineTooLong => (19, 'f', 'n', '_'),
        RejectReason::FieldCountExceeded => (20, 'f', 'e', '_'),
        RejectReason::HeaderListTooLarge => (21, 'h', 'g', '_'),
        RejectReason::ContentLengthDuplicate => (24, 'c', 't', 'h'),
        RejectReason::ContentLengthInvalid => (22, 'c', 'i', 't'),
        RejectReason::ContentLengthOverflow => (23, 'c', 'o', 't'),
        RejectReason::ContentLengthMismatch => (23, 'c', 'c', 't'),
        RejectReason::TransferEncodingWithContentLength => (37, 't', 't', 't'),
        RejectReason::TransferEncodingOnHttp10 => (27, 't', '1', 'n'),
        RejectReason::TransferEncodingFinalNotChunked => (35, 't', 'e', 'i'),
        RejectReason::TransferEncodingChunkedRepeated => (34, 't', 'e', 'h'),
        RejectReason::TransferEncodingEmptyToken => (29, 't', 'e', 'g'),
        RejectReason::TransferEncodingUnsupportedCoding => (36, 't', 'n', 's'),
        RejectReason::BodyNotAllowedForMethod => (27, 'b', 'o', 'd'),
        RejectReason::ChunkSizeInvalid => (18, 'c', 'i', '_'),
        RejectReason::ChunkSizeOverflow => (19, 'c', 'o', '_'),
        RejectReason::ChunkExtInvalid => (17, 'c', 'i', '_'),
        RejectReason::ChunkExtTooLong => (18, 'c', 'n', 't'),
        RejectReason::ChunkTerminatorInvalid => (24, 'c', 'i', 't'),
        RejectReason::TrailerFieldForbidden => (23, 't', 'e', 'd'),
        RejectReason::TrailingGarbage => (16, 't', 'g', 'g'),
        RejectReason::HostMissing => (12, 'h', 'n', 'i'),
        RejectReason::HostDuplicate => (14, 'h', 't', 'p'),
        RejectReason::AuthorityEmpty => (15, 'a', 't', 'y'),
        RejectReason::AuthorityTooLong => (18, 'a', 'n', 't'),
        RejectReason::AuthorityInvalidByte => (22, 'a', 't', 'v'),
        RejectReason::AuthorityNonAscii => (19, 'a', 'i', 'n'),
        RejectReason::AuthorityPortInvalid => (22, 'a', 'i', 'r'),
        RejectReason::AuthorityMismatch => (18, 'a', 'c', 'm'),
        RejectReason::PathEmpty => (10, 'p', 't', 'e'),
        RejectReason::PathTooLong => (13, 'p', 'n', 'o'),
        RejectReason::PathInvalidByte => (17, 'p', 't', 'l'),
        RejectReason::PathPercentTruncated => (22, 'p', 'e', '_'),
        RejectReason::PathPercentInvalidHex => (24, 'p', 'e', 'i'),
        RejectReason::PathEncodedNul => (16, 'p', 'u', 'd'),
        RejectReason::PathEncodedDot => (16, 'p', 'o', 'd'),
        RejectReason::PathEncodedSlash => (18, 'p', 's', 'e'),
        RejectReason::PathTraversalAboveRoot => (25, 'p', 'o', '_'),
        RejectReason::QueryInvalidByte => (18, 'q', 't', 'l'),
        RejectReason::ExpectUnsupported => (18, 'e', 'e', 'u'),
        RejectReason::InterimResponseCountExceeded => (31, 'i', 'e', 'c'),
        RejectReason::InterimResponseBytesExceeded => (31, 'i', 'e', 'b'),
        RejectReason::PseudoHeaderUnknown => (21, 'p', 'w', 'e'),
        RejectReason::PseudoProtocolUnsupported => (27, 'p', 'e', '_'),
        RejectReason::PseudoHeaderDuplicate => (23, 'p', 't', 'r'),
        RejectReason::PseudoHeaderMissing => (21, 'p', 'n', 'e'),
        RejectReason::PseudoHeaderAfterField => (25, 'p', 'l', 'a'),
        RejectReason::PseudoHeaderInTrailer => (24, 'p', 'e', '_'),
        RejectReason::ConnectionSpecificField => (25, 'c', 'l', 'c'),
        RejectReason::TeValueNotTrailers => (21, 't', 'r', 't'),
        RejectReason::ForwardedElementLimit => (23, 'f', 'i', 'e'),
        RejectReason::ForwardedBytesLimit => (21, 'f', 'i', 'y'),
        RejectReason::ForwardedDuplicateParam => (25, 'f', 'a', 'i'),
        RejectReason::ForwardedSyntax => (16, 'f', 'a', '_'),
        RejectReason::RewriteLimitExceeded => (22, 'r', 'e', 't'),
    }
}

proof fn lemma_label_key(r: RejectReason)
    ensures
        label_key(r.label_spec()) == key_of(r),
{
    match r {
        RejectReason::RequestLineTooLong => {
            reveal_strlit("request_line_too_long");
        },
        RejectReason::RequestLineMalformed => {
            reveal_strlit("request_line_malformed");
        },
        RejectReason::MethodInvalid => {
            reveal_strlit("method_invalid");
        },
        RejectReason::MethodTooLong => {
            reveal_strlit("method_too_long");
        },
        RejectReason::VersionUnsupported => {
            reveal_strlit("version_unsupported");
        },
        RejectReason::TargetFormInvalid => {
            reveal_strlit("target_form_invalid");
        },
        RejectReason::TargetFragment => {
            reveal_strlit("target_fragment");
        },
        RejectReason::FieldNameEmpty => {
            reveal_strlit("field_name_empty");
        },
        RejectReason::FieldNameInvalidByte => {
            reveal_strlit("field_name_invalid_byte");
        },
        RejectReason::FieldNameUppercase => {
            reveal_strlit("field_name_uppercase");
        },
        RejectReason::FieldNameUnderscore => {
            reveal_strlit("field_name_underscore");
        },
        RejectReason::FieldValueInvalidByte => {
            reveal_strlit("field_value_invalid_byte");
        },
        RejectReason::FieldValueLeadingWhitespace => {
            reveal_strlit("field_value_leading_whitespace");
        },
        RejectReason::FieldValueTrailingWhitespace => {
            reveal_strlit("field_value_trailing_whitespace");
        },
        RejectReason::WhitespaceBeforeColon => {
            reveal_strlit("whitespace_before_colon");
        },
        RejectReason::ObsFold => {
            reveal_strlit("obs_fold");
        },
        RejectReason::BareCr => {
            reveal_strlit("bare_cr");
        },
        RejectReason::BareLf => {
            reveal_strlit("bare_lf");
        },
        RejectReason::FieldLineTooLong => {
            reveal_strlit("field_line_too_long");
        },
        RejectReason::FieldCountExceeded => {
            reveal_strlit("field_count_exceeded");
        },
        RejectReason::HeaderListTooLarge => {
            reveal_strlit("header_list_too_large");
        },
        RejectReason::ContentLengthDuplicate => {
            reveal_strlit("content_length_duplicate");
        },
        RejectReason::ContentLengthInvalid => {
            reveal_strlit("content_length_invalid");
        },
        RejectReason::ContentLengthOverflow => {
            reveal_strlit("content_length_overflow");
        },
        RejectReason::ContentLengthMismatch => {
            reveal_strlit("content_length_mismatch");
        },
        RejectReason::TransferEncodingWithContentLength => {
            reveal_strlit("transfer_encoding_with_content_length");
        },
        RejectReason::TransferEncodingOnHttp10 => {
            reveal_strlit("transfer_encoding_on_http10");
        },
        RejectReason::TransferEncodingFinalNotChunked => {
            reveal_strlit("transfer_encoding_final_not_chunked");
        },
        RejectReason::TransferEncodingChunkedRepeated => {
            reveal_strlit("transfer_encoding_chunked_repeated");
        },
        RejectReason::TransferEncodingEmptyToken => {
            reveal_strlit("transfer_encoding_empty_token");
        },
        RejectReason::TransferEncodingUnsupportedCoding => {
            reveal_strlit("transfer_encoding_unsupported_coding");
        },
        RejectReason::BodyNotAllowedForMethod => {
            reveal_strlit("body_not_allowed_for_method");
        },
        RejectReason::ChunkSizeInvalid => {
            reveal_strlit("chunk_size_invalid");
        },
        RejectReason::ChunkSizeOverflow => {
            reveal_strlit("chunk_size_overflow");
        },
        RejectReason::ChunkExtInvalid => {
            reveal_strlit("chunk_ext_invalid");
        },
        RejectReason::ChunkExtTooLong => {
            reveal_strlit("chunk_ext_too_long");
        },
        RejectReason::ChunkTerminatorInvalid => {
            reveal_strlit("chunk_terminator_invalid");
        },
        RejectReason::TrailerFieldForbidden => {
            reveal_strlit("trailer_field_forbidden");
        },
        RejectReason::TrailingGarbage => {
            reveal_strlit("trailing_garbage");
        },
        RejectReason::HostMissing => {
            reveal_strlit("host_missing");
        },
        RejectReason::HostDuplicate => {
            reveal_strlit("host_duplicate");
        },
        RejectReason::AuthorityEmpty => {
            reveal_strlit("authority_empty");
        },
        RejectReason::AuthorityTooLong => {
            reveal_strlit("authority_too_long");
        },
        RejectReason::AuthorityInvalidByte => {
            reveal_strlit("authority_invalid_byte");
        },
        RejectReason::AuthorityNonAscii => {
            reveal_strlit("authority_non_ascii");
        },
        RejectReason::AuthorityPortInvalid => {
            reveal_strlit("authority_port_invalid");
        },
        RejectReason::AuthorityMismatch => {
            reveal_strlit("authority_mismatch");
        },
        RejectReason::PathEmpty => {
            reveal_strlit("path_empty");
        },
        RejectReason::PathTooLong => {
            reveal_strlit("path_too_long");
        },
        RejectReason::PathInvalidByte => {
            reveal_strlit("path_invalid_byte");
        },
        RejectReason::PathPercentTruncated => {
            reveal_strlit("path_percent_truncated");
        },
        RejectReason::PathPercentInvalidHex => {
            reveal_strlit("path_percent_invalid_hex");
        },
        RejectReason::PathEncodedNul => {
            reveal_strlit("path_encoded_nul");
        },
        RejectReason::PathEncodedDot => {
            reveal_strlit("path_encoded_dot");
        },
        RejectReason::PathEncodedSlash => {
            reveal_strlit("path_encoded_slash");
        },
        RejectReason::PathTraversalAboveRoot => {
            reveal_strlit("path_traversal_above_root");
        },
        RejectReason::QueryInvalidByte => {
            reveal_strlit("query_invalid_byte");
        },
        RejectReason::ExpectUnsupported => {
            reveal_strlit("expect_unsupported");
        },
        RejectReason::InterimResponseCountExceeded => {
            reveal_strlit("interim_response_count_exceeded");
        },
        RejectReason::InterimResponseBytesExceeded => {
            reveal_strlit("interim_response_bytes_exceeded");
        },
        RejectReason::PseudoHeaderUnknown => {
            reveal_strlit("pseudo_header_unknown");
        },
        RejectReason::PseudoProtocolUnsupported => {
            reveal_strlit("pseudo_protocol_unsupported");
        },
        RejectReason::PseudoHeaderDuplicate => {
            reveal_strlit("pseudo_header_duplicate");
        },
        RejectReason::PseudoHeaderMissing => {
            reveal_strlit("pseudo_header_missing");
        },
        RejectReason::PseudoHeaderAfterField => {
            reveal_strlit("pseudo_header_after_field");
        },
        RejectReason::PseudoHeaderInTrailer => {
            reveal_strlit("pseudo_header_in_trailer");
        },
        RejectReason::ConnectionSpecificField => {
            reveal_strlit("connection_specific_field");
        },
        RejectReason::TeValueNotTrailers => {
            reveal_strlit("te_value_not_trailers");
        },
        RejectReason::ForwardedElementLimit => {
            reveal_strlit("forwarded_element_limit");
        },
        RejectReason::ForwardedBytesLimit => {
            reveal_strlit("forwarded_bytes_limit");
        },
        RejectReason::ForwardedDuplicateParam => {
            reveal_strlit("forwarded_duplicate_param");
        },
        RejectReason::ForwardedSyntax => {
            reveal_strlit("forwarded_syntax");
        },
        RejectReason::RewriteLimitExceeded => {
            reveal_strlit("rewrite_limit_exceeded");
        },
    }
}

/// No two reasons share a metric label.
pub proof fn law_labels_unique(a: RejectReason, b: RejectReason)
    requires
        a != b,
    ensures
        a.label_spec() != b.label_spec(),
{
    lemma_label_key(a);
    lemma_label_key(b);
    assert(key_of(a) != key_of(b));
}

/// A byte of a metric label.
pub open spec fn is_label_char(c: char) -> bool {
    'a' <= c <= 'z' || '0' <= c <= '9' || c == '_'
}

/// Every metric label is non-empty, made of `a-z`, `0-9` and `_`, and neither
/// starts nor ends with `_`.
pub proof fn law_labels_snake_case(r: RejectReason)
    ensures
        r.label_spec().len() > 0,
        forall|i: int| 0 <= i < r.label_spec().len() ==> is_label_char(#[trigger] r.label_spec()[i]),
        r.label_spec()[0] != '_',
        r.label_spec().last() != '_',
{
    match r {
        RejectReason::RequestLineTooLong => {
            reveal_strlit("request_line_too_long");
        },
        RejectReason::RequestLineMalformed => {
            reveal_strlit("request_line_malformed");
        },
        RejectReason::MethodInvalid => {
            reveal_strlit("method_invalid");
        },
        RejectReason::MethodTooLong => {
            reveal_strlit("method_too_long");
        },
        RejectReason::VersionUnsupported => {
            reveal_strlit("version_unsupported");
        },
        RejectReason::TargetFormInvalid => {
            reveal_strlit("target_form_invalid");
        },
        RejectReason::TargetFragment => {
            reveal_strlit("target_fragment");
        },
        RejectReason::FieldNameEmpty => {
            reveal_strlit("field_name_empty");
        },
        RejectReason::FieldNameInvalidByte => {
            reveal_strlit("field_name_invalid_byte");
        },
        RejectReason::FieldNameUppercase => {
            reveal_strlit("field_name_uppercase");
        },
        RejectReason::FieldNameUnderscore => {
            reveal_strlit("field_name_underscore");
        },
        RejectReason::FieldValueInvalidByte => {
            reveal_strlit("field_value_invalid_byte");
        },
        RejectReason::FieldValueLeadingWhitespace => {
            reveal_strlit("field_value_leading_whitespace");
        },
        RejectReason::FieldValueTrailingWhitespace => {
            reveal_strlit("field_value_trailing_whitespace");
        },
        RejectReason::WhitespaceBeforeColon => {
            reveal_strlit("whitespace_before_colon");
        },
        RejectReason::ObsFold => {
            reveal_strlit("obs_fold");
        },
        RejectReason::BareCr => {
            reveal_strlit("bare_cr");
        },
        RejectReason::BareLf => {
            reveal_strlit("bare_lf");
        },
        RejectReason::FieldLineTooLong => {
            reveal_strlit("field_line_too_long");
        },
        RejectReason::FieldCountExceeded => {
            reveal_strlit("field_count_exceeded");
        },
        RejectReason::HeaderListTooLarge => {
            reveal_strlit("header_list_too_large");
        },
        RejectReason::ContentLengthDuplicate => {
            reveal_strlit("content_length_duplicate");
        },
        RejectReason::ContentLengthInvalid => {
            reveal_strlit("content_length_invalid");
        },
        RejectReason::ContentLengthOverflow => {
            reveal_strlit("content_length_overflow");
        },
        RejectReason::ContentLengthMismatch => {
            reveal_strlit("content_length_mismatch");
        },
        RejectReason::TransferEncodingWithContentLength => {
            reveal_strlit("transfer_encoding_with_content_length");
        },
        RejectReason::TransferEncodingOnHttp10 => {
            reveal_strlit("transfer_encoding_on_http10");
        },
        RejectReason::TransferEncodingFinalNotChunked => {
            reveal_strlit("transfer_encoding_final_not_chunked");
        },
        RejectReason::TransferEncodingChunkedRepeated => {
            reveal_strlit("transfer_encoding_chunked_repeated");
        },
        RejectReason::TransferEncodingEmptyToken => {
            reveal_strlit("transfer_encoding_empty_token");
        },
        RejectReason::TransferEncodingUnsupportedCoding => {
            reveal_strlit("transfer_encoding_unsupported_coding");
        },
        RejectReason::BodyNotAllowedForMethod => {
            reveal_strlit("body_not_allowed_for_method");
        },
        RejectReason::ChunkSizeInvalid => {
            reveal_strlit("chunk_size_invalid");
        },
        RejectReason::ChunkSizeOverflow => {
            reveal_strlit("chunk_size_overflow");
        },
        RejectReason::ChunkExtInvalid => {
            reveal_strlit("chunk_ext_invalid");
        },
        RejectReason::ChunkExtTooLong => {
            reveal_strlit("chunk_ext_too_long");
        },
        RejectReason::ChunkTerminatorInvalid => {
            reveal_strlit("chunk_terminator_invalid");
        },
        RejectReason::TrailerFieldForbidden => {
            reveal_strlit("trailer_field_forbidden");
        },
        RejectReason::TrailingGarbage => {
            reveal_strlit("trailing_garbage");
        },
        RejectReason::HostMissing => {
            reveal_strlit("host_missing");
        },
        RejectReason::HostDuplicate => {
            reveal_strlit("host_duplicate");
        },
        RejectReason::AuthorityEmpty => {
            reveal_strlit("authority_empty");
        },
        RejectReason::AuthorityTooLong => {
            reveal_strlit("authority_too_long");
        },
        RejectReason::AuthorityInvalidByte => {
            reveal_strlit("authority_invalid_byte");
        },
        RejectReason::AuthorityNonAscii => {
            reveal_strlit("authority_non_ascii");
        },
        RejectReason::AuthorityPortInvalid => {
            reveal_strlit("authority_port_invalid");
        },
        RejectReason::AuthorityMismatch => {
            reveal_strlit("authority_mismatch");
        },
        RejectReason::PathEmpty => {
            reveal_strlit("path_empty");
        },
        RejectReason::PathTooLong => {
            reveal_strlit("path_too_long");
        },
        RejectReason::PathInvalidByte => {
            reveal_strlit("path_invalid_byte");
        },
        RejectReason::PathPercentTruncated => {
            reveal_strlit("path_percent_truncated");
        },
        RejectReason::PathPercentInvalidHex => {
            reveal_strlit("path_percent_invalid_hex");
        },
        RejectReason::PathEncodedNul => {
            reveal_strlit("path_encoded_nul");
        },
        RejectReason::PathEncodedDot => {
            reveal_strlit("path_encoded_dot");
        },
        RejectReason::PathEncodedSlash => {
            reveal_strlit("path_encoded_slash");
        },
        RejectReason::PathTraversalAboveRoot => {
            reveal_strlit("path_traversal_above_root");
        },
        RejectReason::QueryInvalidByte => {
            reveal_strlit("query_invalid_byte");
        },
        RejectReason::ExpectUnsupported => {
            reveal_strlit("expect_unsupported");
        },
        RejectReason::InterimResponseCountExceeded => {
            reveal_strlit("interim_response_count_exceeded");
        },
        RejectReason::InterimResponseBytesExceeded => {
            reveal_strlit("interim_response_bytes_exceeded");
        },
        RejectReason::PseudoHeaderUnknown => {
            reveal_strlit("pseudo_header_unknown");
        },
        RejectReason::PseudoProtocolUnsupported => {
            reveal_strlit("pseudo_protocol_unsupported");
        },
        RejectReason::PseudoHeaderDuplicate => {
            reveal_strlit("pseudo_header_duplicate");
        },
        RejectReason::PseudoHeaderMissing => {
            reveal_strlit("pseudo_header_missing");
        },
        RejectReason::PseudoHeaderAfterField => {
            reveal_strlit("pseudo_header_after_field");
        },
        RejectReason::PseudoHeaderInTrailer => {
            reveal_strlit("pseudo_header_in_trailer");
        },
        RejectReason::ConnectionSpecificField => {
            reveal_strlit("connection_specific_field");
        },
        RejectReason::TeValueNotTrailers => {
            reveal_strlit("te_value_not_trailers");
        },
        RejectReason::ForwardedElementLimit => {
            reveal_strlit("forwarded_element_limit");
        },
        RejectReason::ForwardedBytesLimit => {
            reveal_strlit("forwarded_bytes_limit");
        },
        RejectReason::ForwardedDuplicateParam => {
            reveal_strlit("forwarded_duplicate_param");
        },
        RejectReason::ForwardedSyntax => {
            reveal_strlit("forwarded_syntax");
        },
        RejectReason::RewriteLimitExceeded => {
            reveal_strlit("rewrite_limit_exceeded");
        },
    }
}

/// Every reason's status is an error status: 4xx or 5xx.
pub proof fn law_status_is_error(r: RejectReason)
    ensures
        400 <= r.status_spec() < 600,
{
}

/// [`RejectReason::ALL`] holds every reason.
pub proof fn law_all_is_complete(r: RejectReason)
    ensures
        RejectReason::ALL@.contains(r),
{
    match r {
        RejectReason::RequestLineTooLong => assert(RejectReason::ALL@[0] == r),
        RejectReason::RequestLineMalformed => assert(RejectReason::ALL@[1] == r),
        RejectReason::MethodInvalid => assert(RejectReason::ALL@[2] == r),
        RejectReason::MethodTooLong => assert(RejectReason::ALL@[3] == r),
        RejectReason::VersionUnsupported => assert(RejectReason::ALL@[4] == r),
        RejectReason::TargetFormInvalid => assert(RejectReason::ALL@[5] == r),
        RejectReason::TargetFragment => assert(RejectReason::ALL@[6] == r),
        RejectReason::FieldNameEmpty => assert(RejectReason::ALL@[7] == r),
        RejectReason::FieldNameInvalidByte => assert(RejectReason::ALL@[8] == r),
        RejectReason::FieldNameUppercase => assert(RejectReason::ALL@[9] == r),
        RejectReason::FieldNameUnderscore => assert(RejectReason::ALL@[10] == r),
        RejectReason::FieldValueInvalidByte => assert(RejectReason::ALL@[11] == r),
        RejectReason::FieldValueLeadingWhitespace => assert(RejectReason::ALL@[12] == r),
        RejectReason::FieldValueTrailingWhitespace => assert(RejectReason::ALL@[13] == r),
        RejectReason::WhitespaceBeforeColon => assert(RejectReason::ALL@[14] == r),
        RejectReason::ObsFold => assert(RejectReason::ALL@[15] == r),
        RejectReason::BareCr => assert(RejectReason::ALL@[16] == r),
        RejectReason::BareLf => assert(RejectReason::ALL@[17] == r),
        RejectReason::FieldLineTooLong => assert(RejectReason::ALL@[18] == r),
        RejectReason::FieldCountExceeded => assert(RejectReason::ALL@[19] == r),
        RejectReason::HeaderListTooLarge => assert(RejectReason::ALL@[20] == r),
        RejectReason::ContentLengthDuplicate => assert(RejectReason::ALL@[21] == r),
        RejectReason::ContentLengthInvalid => assert(RejectReason::ALL@[22] == r),
        RejectReason::ContentLengthOverflow => assert(RejectReason::ALL@[23] == r),
        RejectReason::ContentLengthMismatch => assert(RejectReason::ALL@[24] == r),
        RejectReason::TransferEncodingWithContentLength => assert(RejectReason::ALL@[25] == r),
        RejectReason::TransferEncodingOnHttp10 => assert(RejectReason::ALL@[26] == r),
        RejectReason::TransferEncodingFinalNotChunked => assert(RejectReason::ALL@[27] == r),
        RejectReason::TransferEncodingChunkedRepeated => assert(RejectReason::ALL@[28] == r),
        RejectReason::TransferEncodingEmptyToken => assert(RejectReason::ALL@[29] == r),
        RejectReason::TransferEncodingUnsupportedCoding => assert(RejectReason::ALL@[30] == r),
        RejectReason::BodyNotAllowedForMethod => assert(RejectReason::ALL@[31] == r),
        RejectReason::ChunkSizeInvalid => assert(RejectReason::ALL@[32] == r),
        RejectReason::ChunkSizeOverflow => assert(RejectReason::ALL@[33] == r),
        RejectReason::ChunkExtInvalid => assert(RejectReason::ALL@[34] == r),
        RejectReason::ChunkExtTooLong => assert(RejectReason::ALL@[35] == r),
        RejectReason::ChunkTerminatorInvalid => assert(RejectReason::ALL@[36] == r),
        RejectReason::TrailerFieldForbidden => assert(RejectReason::ALL@[37] == r),
        RejectReason::TrailingGarbage => assert(RejectReason::ALL@[38] == r),
        RejectReason::HostMissing => assert(RejectReason::ALL@[39] == r),
        RejectReason::HostDuplicate => assert(RejectReason::ALL@[40] == r),
        RejectReason::AuthorityEmpty => assert(RejectReason::ALL@[41] == r),
        RejectReason::AuthorityTooLong => assert(RejectReason::ALL@[42] == r),
        RejectReason::AuthorityInvalidByte => assert(RejectReason::ALL@[43] == r),
        RejectReason::AuthorityNonAscii => assert(RejectReason::ALL@[44] == r),
        RejectReason::AuthorityPortInvalid => assert(RejectReason::ALL@[45] == r),
        RejectReason::AuthorityMismatch => assert(RejectReason::ALL@[46] == r),
        RejectReason::PathEmpty => assert(RejectReason::ALL@[47] == r),
        RejectReason::PathTooLong => assert(RejectReason::ALL@[48] == r),
        RejectReason::PathInvalidByte => assert(RejectReason::ALL@[49] == r),
        RejectReason::PathPercentTruncated => assert(RejectReason::ALL@[50] == r),
        RejectReason::PathPercentInvalidHex => assert(RejectReason::ALL@[51] == r),
        RejectReason::PathEncodedNul => assert(RejectReason::ALL@[52] == r),
        RejectReason::PathEncodedDot => assert(RejectReason::ALL@[53] == r),
        RejectReason::PathEncodedSlash => assert(RejectReason::ALL@[54] == r),
        RejectReason::PathTraversalAboveRoot => assert(RejectReason::ALL@[55] == r),
        RejectReason::QueryInvalidByte => assert(RejectReason::ALL@[56] == r),
        RejectReason::ExpectUnsupported => assert(RejectReason::ALL@[57] == r),
        RejectReason::InterimResponseCountExceeded => assert(RejectReason::ALL@[58] == r),
        RejectReason::InterimResponseBytesExceeded => assert(RejectReason::ALL@[59] == r),
        RejectReason::PseudoHeaderUnknown => assert(RejectReason::ALL@[60] == r),
        RejectReason::PseudoProtocolUnsupported => assert(RejectReason::ALL@[61] == r),
        RejectReason::PseudoHeaderDuplicate => assert(RejectReason::ALL@[62] == r),
        RejectReason::PseudoHeaderMissing => assert(RejectReason::ALL@[63] == r),
        RejectReason::PseudoHeaderAfterField => assert(RejectReason::ALL@[64] == r),
        RejectReason::PseudoHeaderInTrailer => assert(RejectReason::ALL@[65] == r),
        RejectReason::ConnectionSpecificField => assert(RejectReason::ALL@[66] == r),
        RejectReason::TeValueNotTrailers => assert(RejectReason::ALL@[67] == r),
        RejectReason::ForwardedElementLimit => assert(RejectReason::ALL@[68] == r),
        RejectReason::ForwardedBytesLimit => assert(RejectReason::ALL@[69] == r),
        RejectReason::ForwardedDuplicateParam => assert(RejectReason::ALL@[70] == r),
        RejectReason::ForwardedSyntax => assert(RejectReason::ALL@[71] == r),
        RejectReason::RewriteLimitExceeded => assert(RejectReason::ALL@[72] == r),
    }
}

} // verus!
