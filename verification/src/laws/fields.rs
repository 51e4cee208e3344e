//! What a section takes, what it costs, and what becomes of a refusal.
use crate::canonical::{
    build_error, forbidden_in_request, forbidden_in_response, request_fields_ok, RequestParts,
};
use crate::error::RejectReason;
use crate::expect::{expect_action, ExpectAction, InterimView};
use crate::field::{
    canonical_name, name_byte_error, name_error, name_error_from, underscore_refused, value_byte,
    value_error, UnderscorePolicy,
};
use crate::hlist::{joined, BudgetView};
use crate::known::KnownHeader;
use crate::laws::bodies::blank_around;
use crate::laws::classes::law_trim_takes_blanks;
use crate::laws::names::{
    client_name, connection_name, law_field_kinds, law_none_named, law_one_named, law_two_named,
    none_named, one_named,
};
use crate::limits::Limits;
use crate::scalar::WireVersion;
use crate::section::{section_cost, Field, SectionState};
use crate::text::{ascii, find, lemma_ascii, lemma_find, lower_all};
use vstd::prelude::*;

verus! {

// ---- names and values ----

/// Whether a byte may stand in a name in canonical form.
pub open spec fn plain_name_byte(b: u8) -> bool {
    48 <= b <= 57 || 97 <= b <= 122 || b == 33 || 35 <= b <= 39 || b == 42 || b == 43 || b == 45
        || b == 46 || b == 94 || b == 96 || b == 124 || b == 126
}

/// A name is in canonical form exactly if it is not empty and every byte may
/// stand in it. Otherwise the first byte that may not says why: a capital, an
/// underscore, or any other.
pub proof fn law_canonical_names(name: Seq<u8>, k: int)
    ensures
        name.len() == 0 ==> name_error(name) == Some(RejectReason::FieldNameEmpty),
        name_error(name) is None <==> name.len() > 0 && forall|i: int|
            0 <= i < name.len() ==> plain_name_byte(#[trigger] name[i]),
        0 <= k < name.len() && (forall|i: int| 0 <= i < k ==> plain_name_byte(#[trigger] name[i]))
            && !plain_name_byte(name[k]) ==> name_error(name) == Some(
            if 65 <= name[k] <= 90 {
                RejectReason::FieldNameUppercase
            } else if name[k] == 95 {
                RejectReason::FieldNameUnderscore
            } else {
                RejectReason::FieldNameInvalidByte
            },
        ),
{
    if name.len() > 0 {
        lemma_name(name, 0);
        if 0 <= k < name.len() && (forall|i: int|
            0 <= i < k ==> plain_name_byte(#[trigger] name[i])) && !plain_name_byte(name[k]) {
            lemma_first_bad(name, 0, k);
        }
    }
}

proof fn lemma_name(name: Seq<u8>, i: int)
    requires
        0 <= i <= name.len(),
    ensures
        name_error_from(name, i) is None <==> forall|j: int|
            i <= j < name.len() ==> plain_name_byte(#[trigger] name[j]),
    decreases name.len() - i,
{
    if i < name.len() {
        lemma_name(name, i + 1);
        assert(name_byte_error(name[i]) is None <==> plain_name_byte(name[i]));
        if forall|j: int| i <= j < name.len() ==> plain_name_byte(#[trigger] name[j]) {
            assert(plain_name_byte(name[i]));
        }
        if plain_name_byte(name[i]) && forall|j: int|
            i + 1 <= j < name.len() ==> plain_name_byte(#[trigger] name[j]) {
            assert forall|j: int| i <= j < name.len() implies plain_name_byte(
                #[trigger] name[j],
            ) by {}
        }
    }
}

proof fn lemma_first_bad(name: Seq<u8>, i: int, k: int)
    requires
        0 <= i <= k < name.len(),
        forall|j: int| 0 <= j < k ==> plain_name_byte(#[trigger] name[j]),
        !plain_name_byte(name[k]),
    ensures
        name_error_from(name, i) == Some(
            if 65 <= name[k] <= 90 {
                RejectReason::FieldNameUppercase
            } else if name[k] == 95 {
                RejectReason::FieldNameUnderscore
            } else {
                RejectReason::FieldNameInvalidByte
            },
        ),
    decreases k - i,
{
    if i < k {
        assert(plain_name_byte(name[i]));
        lemma_first_bad(name, i + 1, k);
    }
}

/// A value may hold anything but NUL, CR and LF; on HTTP/2 and HTTP/3 it may
/// not begin or end with a blank either.
pub proof fn law_values(value: Seq<u8>, version: WireVersion)
    ensures
        ({
            let clean = forall|i: int|
                0 <= i < value.len() ==> #[trigger] value[i] != 0 && value[i] != 10 && value[i]
                    != 13;
            let mux = version is H2 || version is H3;
            let front = value.len() > 0 && (value[0] == 32 || value[0] == 9);
            let back = value.len() > 0 && (value.last() == 32 || value.last() == 9);
            value_error(value, version) == if !clean {
                Some(RejectReason::FieldValueInvalidByte)
            } else if mux && front {
                Some(RejectReason::FieldValueLeadingWhitespace)
            } else if mux && back {
                Some(RejectReason::FieldValueTrailingWhitespace)
            } else {
                None
            }
        }),
{
    if forall|i: int|
        0 <= i < value.len() ==> #[trigger] value[i] != 0 && value[i] != 10 && value[i] != 13 {
        assert forall|i: int| 0 <= i < value.len() implies value_byte(#[trigger] value[i]) by {
            assert(value[i] != 0 && value[i] != 10 && value[i] != 13);
        }
    } else {
        let i = choose|i: int|
            0 <= i < value.len() && !(#[trigger] value[i] != 0 && value[i] != 10 && value[i] != 13);
        assert(!value_byte(value[i]));
    }
}

/// The canonical form of a name: capitals in lowercase, an underscore as a
/// hyphen, every other byte as it is.
pub proof fn law_canonical_form(raw: Seq<u8>)
    ensures
        canonical_name(raw).len() == raw.len(),
        forall|i: int|
            0 <= i < raw.len() ==> #[trigger] canonical_name(raw)[i] == if 65 <= raw[i] <= 90 {
                (raw[i] + 32) as u8
            } else if raw[i] == 95 {
                45
            } else {
                raw[i]
            },
        underscore_refused(raw, UnderscorePolicy::Reject) <==> raw.contains(95u8),
{
    lemma_find(raw, '_' as u8, 0);
    let at = find(raw, '_' as u8, 0);
    if at < raw.len() {
        assert(raw.contains(raw[at]));
    } else if raw.contains(95u8) {
        let i = choose|i: int| 0 <= i < raw.len() && raw[i] == 95u8;
        assert(raw[i] != 95u8);
    }
}

// ---- sections ----

/// A field goes into a section under its canonical name, behind those that are
/// there, or it is refused and changes none of them.
pub proof fn law_fields_are_appended(
    st: SectionState,
    raw: Seq<u8>,
    policy: UnderscorePolicy,
    value: Seq<u8>,
    version: WireVersion,
)
    ensures
        ({
            let next = st.added_raw(raw, policy, value, version);
            match st.add_raw_error(raw, policy, value, version) {
                None => {
                    &&& next.fields == st.fields.push(Field { name: canonical_name(raw), value })
                    &&& next.wires == st.wires.push(lower_all(raw))
                },
                Some(_) => next.fields == st.fields && next.wires == st.wires,
            }
        }),
{
}

/// Which field is refused: one whose name or value may not stand, one with an
/// underscore where the policy refuses it, one whose canonical name came under
/// another name before, one more than there may be, and one that makes the
/// section cost too much. Every other one is taken.
pub proof fn law_refused_fields(
    st: SectionState,
    raw: Seq<u8>,
    policy: UnderscorePolicy,
    value: Seq<u8>,
    version: WireVersion,
)
    requires
        st.fields.len() == st.wires.len(),
        st.budget.count < u32::MAX,
    ensures
        st.add_raw_error(raw, policy, value, version) is None <==> {
            &&& !(policy is Reject && raw.contains(95u8))
            &&& name_error(canonical_name(raw)) is None
            &&& value_error(value, version) is None
            &&& forall|i: int|
                0 <= i < st.fields.len() ==> (#[trigger] st.fields[i]).name == canonical_name(raw)
                    ==> st.wires[i] == lower_all(raw)
            &&& st.budget.count + 1 <= st.budget.max_count
            &&& st.budget.used + raw.len() + value.len() + 32 <= st.budget.limit
        },
{
    law_canonical_form(raw);
    let name = canonical_name(raw);
    let wire = lower_all(raw);
    if st.collides(name, wire) {
        let i = choose|i: int|
            0 <= i < st.fields.len() && #[trigger] st.fields[i].name == name && st.wires[i] != wire;
        assert(st.fields[i].name == name);
    }
    if exists|i: int|
        0 <= i < st.fields.len() && (#[trigger] st.fields[i]).name == name && st.wires[i] != wire {
        let i = choose|i: int|
            0 <= i < st.fields.len() && (#[trigger] st.fields[i]).name == name && st.wires[i]
                != wire;
        assert(st.fields[i].name == name && st.wires[i] != wire);
    }
}

/// Two spellings of one name with an underscore and a hyphen do not stand side
/// by side.
pub proof fn law_spellings_do_not_mix(
    st: SectionState,
    raw: Seq<u8>,
    value: Seq<u8>,
    version: WireVersion,
    policy: UnderscorePolicy,
    i: int,
)
    requires
        0 <= i < st.fields.len(),
        st.fields[i].name == canonical_name(raw),
        st.wires[i] != lower_all(raw),
        !(policy is Reject && raw.contains(95u8)),
        name_error(canonical_name(raw)) is None,
        value_error(value, version) is None,
    ensures
        st.add_raw_error(raw, policy, value, version) == Some(RejectReason::FieldNameUnderscore),
{
    law_canonical_form(raw);
    assert(st.fields[i].name == canonical_name(raw) && st.wires[i] != lower_all(raw));
}

// ---- budgets ----

/// Each field costs its name, its value and 32 bytes. One over the count is
/// refused as such and costs nothing; one over the bytes is refused as too
/// large.
pub proof fn law_field_cost(b: BudgetView, n: int, v: int)
    requires
        0 <= n,
        0 <= v,
        b.count < u32::MAX,
        b.used + n + v + 32 <= u64::MAX,
    ensures
        b.charge_result(n, v) == if b.count >= b.max_count {
            Err::<(), RejectReason>(RejectReason::FieldCountExceeded)
        } else if b.used + n + v + 32 > b.limit {
            Err(RejectReason::HeaderListTooLarge)
        } else {
            Ok(())
        },
        b.charged(n, v).count == b.count + 1,
        b.charged(n, v).used == if b.count >= b.max_count {
            b.used as int
        } else {
            b.used + n + v + 32
        },
        b.charged(n, v).limit == b.limit,
        b.charged(n, v).max_count == b.max_count,
{
}

/// A fresh budget has cost nothing; a section costs the sum over its fields.
pub proof fn law_section_cost(fields: Seq<Field>, f: Field, bytes: u32, count: u32)
    ensures
        section_cost(Seq::empty()) == 0,
        section_cost(fields.push(f)) == section_cost(fields) + f.name.len() + f.value.len() + 32,
        BudgetView::fresh(bytes, count).used == 0,
        BudgetView::fresh(bytes, count).count == 0,
        BudgetView::fresh(bytes, count).limit == bytes,
        BudgetView::fresh(bytes, count).max_count == count,
{
    assert(fields.push(f).drop_last() =~= fields);
}

/// Cookie crumbs are joined with a semicolon and a space.
pub proof fn law_crumbs_joined(staging: Seq<u8>, crumbs: Seq<(u32, u32)>, c: (u32, u32))
    ensures
        joined(staging, Seq::empty()) == Seq::<u8>::empty(),
        joined(staging, seq![c]) == staging.subrange(c.0 as int, c.0 + c.1),
        crumbs.len() > 0 ==> joined(staging, crumbs.push(c)) == joined(staging, crumbs) + seq![
            59u8,
            32u8,
        ] + staging.subrange(c.0 as int, c.0 + c.1),
{
    reveal_strlit("; ");
    lemma_ascii("; "@);
    assert(ascii("; "@) =~= seq![59u8, 32u8]);
    assert(crumbs.push(c).drop_last() =~= crumbs);
}

// ---- expectations and interim responses ----

/// `Expect: 100-continue`, in any case and with blanks around it, is answered
/// here if the body is buffered and forwarded otherwise; any other value, and a
/// second one, is refused.
pub proof fn law_expectations(
    fields: Seq<Field>,
    will_buffer: bool,
    value: Seq<u8>,
    a: Seq<u8>,
    d: Seq<u8>,
    b: Seq<u8>,
    i: int,
    j: int,
)
    ensures
        none_named(fields, ascii("expect"@)) ==> expect_action(fields, will_buffer) == Ok::<
            ExpectAction,
            RejectReason,
        >(ExpectAction::Absent),
        one_named(fields, ascii("expect"@), value) && blank_around(value, a, d, b) && lower_all(d)
            == ascii("100-continue"@) ==> expect_action(fields, will_buffer) == Ok::<
            ExpectAction,
            RejectReason,
        >(
            if will_buffer {
                ExpectAction::AnswerLocally
            } else {
                ExpectAction::ForwardToUpstream
            },
        ),
        one_named(fields, ascii("expect"@), value) && blank_around(value, a, d, b) && lower_all(d)
            != ascii("100-continue"@) ==> expect_action(fields, will_buffer) == Err::<
            ExpectAction,
            RejectReason,
        >(RejectReason::ExpectUnsupported),
        0 <= i < j < fields.len() && fields[i].name == ascii("expect"@) && fields[j].name == ascii(
            "expect"@,
        ) ==> expect_action(fields, will_buffer) == Err::<ExpectAction, RejectReason>(
            RejectReason::ExpectUnsupported,
        ),
{
    reveal_strlit("100-continue");
    lemma_ascii("100-continue"@);
    assert(lower_all(ascii("100-continue"@)) =~= ascii("100-continue"@));
    if none_named(fields, ascii("expect"@)) {
        law_none_named(fields, KnownHeader::Expect);
    }
    if one_named(fields, ascii("expect"@), value) {
        law_one_named(fields, KnownHeader::Expect, value);
        if blank_around(value, a, d, b) {
            law_trim_takes_blanks(a, d, b);
        }
    }
    if 0 <= i < j < fields.len() && fields[i].name == ascii("expect"@) && fields[j].name == ascii(
        "expect"@,
    ) {
        law_two_named(fields, KnownHeader::Expect, i, j);
    }
}

/// So many interim responses, and so many bytes of them, are taken, and no
/// more.
pub proof fn law_interim_cost(b: InterimView, n: int)
    requires
        0 <= n,
        b.count < u32::MAX,
        b.bytes + n <= u64::MAX,
    ensures
        b.charge_result(n) == if b.count >= b.max_count {
            Err::<(), RejectReason>(RejectReason::InterimResponseCountExceeded)
        } else if b.bytes + n > b.max_bytes {
            Err(RejectReason::InterimResponseBytesExceeded)
        } else {
            Ok(())
        },
        b.charged(n).count == b.count + 1,
        b.charged(n).bytes == if b.count >= b.max_count {
            b.bytes as int
        } else {
            b.bytes + n
        },
{
}

// ---- limits and refusals ----

/// No limit is above its ceiling, and one that is not above it stays.
pub proof fn law_limits_are_clamped(l: Limits)
    ensures
        ({
            let c = l.meet(Limits::ceiling_spec());
            &&& c.max_request_line_bytes == if l.max_request_line_bytes <= 65536 {
                l.max_request_line_bytes
            } else {
                65536
            }
            &&& c.max_header_list_bytes == if l.max_header_list_bytes <= 1048576 {
                l.max_header_list_bytes
            } else {
                1048576
            }
            &&& c.max_field_count == if l.max_field_count <= 1000 {
                l.max_field_count
            } else {
                1000
            }
            &&& c.max_field_line_bytes == if l.max_field_line_bytes <= 65536 {
                l.max_field_line_bytes
            } else {
                65536
            }
            &&& c.max_method_bytes == if l.max_method_bytes <= 32 {
                l.max_method_bytes
            } else {
                32
            }
            &&& c.max_authority_bytes == if l.max_authority_bytes <= 1024 {
                l.max_authority_bytes
            } else {
                1024
            }
            &&& c.max_path_bytes == if l.max_path_bytes <= 65536 {
                l.max_path_bytes
            } else {
                65536
            }
            &&& c.max_chunk_ext_bytes == if l.max_chunk_ext_bytes <= 4096 {
                l.max_chunk_ext_bytes
            } else {
                4096
            }
            &&& c.max_interim_responses == if l.max_interim_responses <= 1000 {
                l.max_interim_responses
            } else {
                1000
            }
            &&& c.max_interim_bytes == if l.max_interim_bytes <= 1048576 {
                l.max_interim_bytes
            } else {
                1048576
            }
            &&& c.max_forwarded_elements == if l.max_forwarded_elements <= 256 {
                l.max_forwarded_elements
            } else {
                256
            }
            &&& c.max_forwarded_bytes == if l.max_forwarded_bytes <= 65536 {
                l.max_forwarded_bytes
            } else {
                65536
            }
        }),
        Limits::default_spec().within(Limits::ceiling_spec()),
        Limits::default_spec().meet(Limits::ceiling_spec()) == Limits::default_spec(),
{
}

/// The status that answers a refusal: one of its own for what is too long or
/// too large, not supported or the upstream's fault, and 400 for the rest.
pub proof fn law_refusals_answered(r: RejectReason)
    ensures
        r.status_spec() == 414 <==> r == RejectReason::RequestLineTooLong || r
            == RejectReason::PathTooLong,
        r.status_spec() == 417 <==> r == RejectReason::ExpectUnsupported,
        r.status_spec() == 431 <==> r == RejectReason::FieldLineTooLong || r
            == RejectReason::FieldCountExceeded || r == RejectReason::HeaderListTooLarge,
        r.status_spec() == 500 <==> r == RejectReason::RewriteLimitExceeded,
        r.status_spec() == 501 <==> r == RejectReason::MethodTooLong || r
            == RejectReason::TransferEncodingUnsupportedCoding || r
            == RejectReason::PseudoProtocolUnsupported,
        r.status_spec() == 502 <==> r == RejectReason::InterimResponseCountExceeded || r
            == RejectReason::InterimResponseBytesExceeded,
        r.status_spec() == 505 <==> r == RejectReason::VersionUnsupported,
        r.status_spec() == 414 || r.status_spec() == 417 || r.status_spec() == 431
            || r.status_spec() == 500 || r.status_spec() == 501 || r.status_spec() == 502
            || r.status_spec() == 505 || r.status_spec() == 400,
{
}

/// The label of each reason: its name in lowercase, with underscores.
pub proof fn law_refusals_labelled(r: RejectReason)
    ensures
        r == RejectReason::RequestLineTooLong ==> r.label_spec() == "request_line_too_long"@,
        r == RejectReason::RequestLineMalformed ==> r.label_spec() == "request_line_malformed"@,
        r == RejectReason::MethodInvalid ==> r.label_spec() == "method_invalid"@,
        r == RejectReason::MethodTooLong ==> r.label_spec() == "method_too_long"@,
        r == RejectReason::VersionUnsupported ==> r.label_spec() == "version_unsupported"@,
        r == RejectReason::TargetFormInvalid ==> r.label_spec() == "target_form_invalid"@,
        r == RejectReason::TargetFragment ==> r.label_spec() == "target_fragment"@,
        r == RejectReason::FieldNameEmpty ==> r.label_spec() == "field_name_empty"@,
        r == RejectReason::FieldNameInvalidByte ==> r.label_spec() == "field_name_invalid_byte"@,
        r == RejectReason::FieldNameUppercase ==> r.label_spec() == "field_name_uppercase"@,
        r == RejectReason::FieldNameUnderscore ==> r.label_spec() == "field_name_underscore"@,
        r == RejectReason::FieldValueInvalidByte ==> r.label_spec() == "field_value_invalid_byte"@,
        r == RejectReason::FieldValueLeadingWhitespace ==> r.label_spec() == "field_value_leading_whitespace"@,
        r == RejectReason::FieldValueTrailingWhitespace ==> r.label_spec() == "field_value_trailing_whitespace"@,
        r == RejectReason::WhitespaceBeforeColon ==> r.label_spec() == "whitespace_before_colon"@,
        r == RejectReason::ObsFold ==> r.label_spec() == "obs_fold"@,
        r == RejectReason::BareCr ==> r.label_spec() == "bare_cr"@,
        r == RejectReason::BareLf ==> r.label_spec() == "bare_lf"@,
        r == RejectReason::FieldLineTooLong ==> r.label_spec() == "field_line_too_long"@,
        r == RejectReason::FieldCountExceeded ==> r.label_spec() == "field_count_exceeded"@,
        r == RejectReason::HeaderListTooLarge ==> r.label_spec() == "header_list_too_large"@,
        r == RejectReason::ContentLengthDuplicate ==> r.label_spec() == "content_length_duplicate"@,
        r == RejectReason::ContentLengthInvalid ==> r.label_spec() == "content_length_invalid"@,
        r == RejectReason::ContentLengthOverflow ==> r.label_spec() == "content_length_overflow"@,
        r == RejectReason::ContentLengthMismatch ==> r.label_spec() == "content_length_mismatch"@,
        r == RejectReason::TransferEncodingWithContentLength ==> r.label_spec() == "transfer_encoding_with_content_length"@,
        r == RejectReason::TransferEncodingOnHttp10 ==> r.label_spec() == "transfer_encoding_on_http10"@,
        r == RejectReason::TransferEncodingFinalNotChunked ==> r.label_spec() == "transfer_encoding_final_not_chunked"@,
        r == RejectReason::TransferEncodingChunkedRepeated ==> r.label_spec() == "transfer_encoding_chunked_repeated"@,
        r == RejectReason::TransferEncodingEmptyToken ==> r.label_spec() == "transfer_encoding_empty_token"@,
        r == RejectReason::TransferEncodingUnsupportedCoding ==> r.label_spec() == "transfer_encoding_unsupported_coding"@,
        r == RejectReason::BodyNotAllowedForMethod ==> r.label_spec() == "body_not_allowed_for_method"@,
        r == RejectReason::ChunkSizeInvalid ==> r.label_spec() == "chunk_size_invalid"@,
        r == RejectReason::ChunkSizeOverflow ==> r.label_spec() == "chunk_size_overflow"@,
        r == RejectReason::ChunkExtInvalid ==> r.label_spec() == "chunk_ext_invalid"@,
        r == RejectReason::ChunkExtTooLong ==> r.label_spec() == "chunk_ext_too_long"@,
        r == RejectReason::ChunkTerminatorInvalid ==> r.label_spec() == "chunk_terminator_invalid"@,
        r == RejectReason::TrailerFieldForbidden ==> r.label_spec() == "trailer_field_forbidden"@,
        r == RejectReason::TrailingGarbage ==> r.label_spec() == "trailing_garbage"@,
        r == RejectReason::HostMissing ==> r.label_spec() == "host_missing"@,
        r == RejectReason::HostDuplicate ==> r.label_spec() == "host_duplicate"@,
        r == RejectReason::AuthorityEmpty ==> r.label_spec() == "authority_empty"@,
        r == RejectReason::AuthorityTooLong ==> r.label_spec() == "authority_too_long"@,
        r == RejectReason::AuthorityInvalidByte ==> r.label_spec() == "authority_invalid_byte"@,
        r == RejectReason::AuthorityNonAscii ==> r.label_spec() == "authority_non_ascii"@,
        r == RejectReason::AuthorityPortInvalid ==> r.label_spec() == "authority_port_invalid"@,
        r == RejectReason::AuthorityMismatch ==> r.label_spec() == "authority_mismatch"@,
        r == RejectReason::PathEmpty ==> r.label_spec() == "path_empty"@,
        r == RejectReason::PathTooLong ==> r.label_spec() == "path_too_long"@,
        r == RejectReason::PathInvalidByte ==> r.label_spec() == "path_invalid_byte"@,
        r == RejectReason::PathPercentTruncated ==> r.label_spec() == "path_percent_truncated"@,
        r == RejectReason::PathPercentInvalidHex ==> r.label_spec() == "path_percent_invalid_hex"@,
        r == RejectReason::PathEncodedNul ==> r.label_spec() == "path_encoded_nul"@,
        r == RejectReason::PathEncodedDot ==> r.label_spec() == "path_encoded_dot"@,
        r == RejectReason::PathEncodedSlash ==> r.label_spec() == "path_encoded_slash"@,
        r == RejectReason::PathTraversalAboveRoot ==> r.label_spec() == "path_traversal_above_root"@,
        r == RejectReason::QueryInvalidByte ==> r.label_spec() == "query_invalid_byte"@,
        r == RejectReason::ExpectUnsupported ==> r.label_spec() == "expect_unsupported"@,
        r == RejectReason::InterimResponseCountExceeded ==> r.label_spec() == "interim_response_count_exceeded"@,
        r == RejectReason::InterimResponseBytesExceeded ==> r.label_spec() == "interim_response_bytes_exceeded"@,
        r == RejectReason::PseudoHeaderUnknown ==> r.label_spec() == "pseudo_header_unknown"@,
        r == RejectReason::PseudoProtocolUnsupported ==> r.label_spec() == "pseudo_protocol_unsupported"@,
        r == RejectReason::PseudoHeaderDuplicate ==> r.label_spec() == "pseudo_header_duplicate"@,
        r == RejectReason::PseudoHeaderMissing ==> r.label_spec() == "pseudo_header_missing"@,
        r == RejectReason::PseudoHeaderAfterField ==> r.label_spec() == "pseudo_header_after_field"@,
        r == RejectReason::PseudoHeaderInTrailer ==> r.label_spec() == "pseudo_header_in_trailer"@,
        r == RejectReason::ConnectionSpecificField ==> r.label_spec() == "connection_specific_field"@,
        r == RejectReason::TeValueNotTrailers ==> r.label_spec() == "te_value_not_trailers"@,
        r == RejectReason::ForwardedElementLimit ==> r.label_spec() == "forwarded_element_limit"@,
        r == RejectReason::ForwardedBytesLimit ==> r.label_spec() == "forwarded_bytes_limit"@,
        r == RejectReason::ForwardedDuplicateParam ==> r.label_spec() == "forwarded_duplicate_param"@,
        r == RejectReason::ForwardedSyntax ==> r.label_spec() == "forwarded_syntax"@,
        r == RejectReason::RewriteLimitExceeded ==> r.label_spec() == "rewrite_limit_exceeded"@,
{
}

// ---- builders ----

/// Whether a name may not stand in a canonical request.
pub open spec fn barred_upstream(name: Seq<u8>) -> bool {
    ||| connection_name(name)
    ||| client_name(name)
    ||| ascii("x-irontraffic-"@).is_prefix_of(name)
    ||| ascii("x-envoy-"@).is_prefix_of(name)
    ||| ascii("x-forwarded-"@).is_prefix_of(name)
}

/// A request is built exactly if every part of it is there, no field of it is
/// barred, it is not streamed on HTTP/1.0, and as `CONNECT` has no body.
pub proof fn law_built_requests(p: RequestParts)
    ensures
        build_error(p) is None <==> {
            &&& p.method is Some && p.scheme is Some && p.authority is Some && p.path is Some
            &&& p.headers is Some && p.framing is Some && p.version is Some && p.peer is Some
            &&& forall|i: int|
                0 <= i < (p.headers->Some_0)@.len() ==> !barred_upstream(
                    (#[trigger] (p.headers->Some_0)@[i]).name,
                )
            &&& !(p.framing->Some_0 is Streamed && p.version->Some_0 is Http10)
            &&& !(p.method->Some_0 is Connect && !(p.framing->Some_0 is Empty))
        },
{
    let fields = (p.headers->Some_0)@;
    assert forall|f: Field| #[trigger] forbidden_in_request(f) == barred_upstream(f.name) by {
        law_field_kinds(f.name);
    }
    if request_fields_ok(fields) {
        assert forall|i: int| 0 <= i < fields.len() implies !barred_upstream(
            (#[trigger] fields[i]).name,
        ) by {
            assert(!forbidden_in_request(fields[i]));
        }
    }
    if forall|i: int| 0 <= i < fields.len() ==> !barred_upstream((#[trigger] fields[i]).name) {
        assert forall|i: int| 0 <= i < fields.len() implies !forbidden_in_request(
            #[trigger] fields[i],
        ) by {
            assert(!barred_upstream(fields[i].name));
        }
    }
}

/// What may not stand in a canonical response: a field of the connection, and
/// one with the reserved prefix.
pub proof fn law_barred_downstream(f: Field)
    ensures
        forbidden_in_response(f) <==> connection_name(f.name) || ascii(
            "x-irontraffic-"@,
        ).is_prefix_of(f.name),
{
    law_field_kinds(f.name);
}

} // verus!
