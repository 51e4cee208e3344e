//! Where a body ends, field by field.
use crate::error::RejectReason;
use crate::field::trim;
use crate::framing::{
    content_length, is_chunked, request_framing, te_result, te_scan, te_tokens, OtherCodings,
    RequestFraming, TeCodings,
};
use crate::known::KnownHeader;
use crate::laws::classes::{blank, law_trim_takes_blanks, tight};
use crate::laws::names::{law_none_named, law_one_named, law_two_named, none_named, one_named};
use crate::num::{all_digits, dec_value};
use crate::response::{no_body, response_framing, ResponseFraming};
use crate::scalar::{all_tchar, tchar, Method, WireVersion};
use crate::section::Field;
use crate::text::{ascii, is_digit, lemma_ascii, lemma_find, lower_all, split};
use vstd::prelude::*;

verus! {

/// Whether every byte is a digit of base 10.
pub open spec fn all_digits10(d: Seq<u8>) -> bool {
    forall|i: int| 0 <= i < d.len() ==> 48 <= #[trigger] d[i] <= 57
}

/// The number that digits of base 10 write.
pub open spec fn number10(d: Seq<u8>) -> nat
    decreases d.len(),
{
    if d.len() == 0 {
        0
    } else {
        number10(d.drop_last()) * 10 + (d.last() - 48) as nat
    }
}

pub proof fn lemma_number10(d: Seq<u8>)
    requires
        all_digits10(d),
    ensures
        all_digits(d),
        dec_value(d) == number10(d),
    decreases d.len(),
{
    assert forall|i: int| 0 <= i < d.len() implies is_digit(#[trigger] d[i]) by {
        assert(48 <= d[i] <= 57);
    }
    if d.len() > 0 {
        let e = d.drop_last();
        assert forall|i: int| 0 <= i < e.len() implies 48 <= #[trigger] e[i] <= 57 by {
            assert(48 <= d[i] <= 57);
        }
        lemma_number10(e);
        assert(48 <= d[d.len() - 1] <= 57);
    }
}

/// Whether a value writes the length `n`: at most twenty digits, zeros before
/// them or not, with blanks around them.
pub open spec fn writes_length(value: Seq<u8>, n: u64) -> bool {
    exists|a: Seq<u8>, d: Seq<u8>, b: Seq<u8>| #[trigger]
        blank_around(value, a, d, b) && all_digits10(d) && 1 <= d.len() <= 20 && number10(d) == n
}

/// A text with blanks around it.
pub open spec fn blank_around(value: Seq<u8>, a: Seq<u8>, d: Seq<u8>, b: Seq<u8>) -> bool {
    blank(a) && blank(b) && tight(d) && value == a + d + b
}

proof fn lemma_length(value: Seq<u8>, n: u64)
    requires
        writes_length(value, n),
    ensures
        content_length(trim(value)) == Ok::<u64, RejectReason>(n),
{
    let (a, d, b) = choose|a: Seq<u8>, d: Seq<u8>, b: Seq<u8>| #[trigger]
        blank_around(value, a, d, b) && all_digits10(d) && 1 <= d.len() <= 20 && number10(d) == n;
    law_trim_takes_blanks(a, d, b);
    lemma_number10(d);
}

/// A length that is no number is invalid, and one that is too large, or has
/// more than twenty digits, does not fit.
pub proof fn law_bad_length_is_refused(value: Seq<u8>)
    ensures
        value.len() == 0 || !all_digits10(value) ==> content_length(value) == Err::<
            u64,
            RejectReason,
        >(RejectReason::ContentLengthInvalid),
        value.len() > 0 && all_digits10(value) && (value.len() > 20 || number10(value) > u64::MAX)
            ==> content_length(value) == Err::<u64, RejectReason>(
            RejectReason::ContentLengthOverflow,
        ),
        1 <= value.len() <= 20 && all_digits10(value) && number10(value) <= u64::MAX
            ==> content_length(value) == Ok::<u64, RejectReason>(number10(value) as u64),
{
    if all_digits10(value) {
        lemma_number10(value);
    } else {
        let i = choose|i: int| 0 <= i < value.len() && !(48 <= #[trigger] value[i] <= 57);
        assert(!is_digit(value[i]));
    }
}

/// On every version, a request with no `transfer-encoding` and one
/// `content-length` that writes `n` has a body of exactly `n` bytes, which for
/// zero is none. `CONNECT` may not have one.
pub proof fn law_length_frames_a_request(
    method: Method,
    version: WireVersion,
    fields: Seq<Field>,
    policy: OtherCodings,
    value: Seq<u8>,
    n: u64,
)
    requires
        none_named(fields, ascii("transfer-encoding"@)),
        one_named(fields, ascii("content-length"@), value),
        writes_length(value, n),
    ensures
        request_framing(method, version, fields, policy) == if n == 0 {
            Ok::<RequestFraming, RejectReason>(RequestFraming::Empty)
        } else if method is Connect {
            Err(RejectReason::BodyNotAllowedForMethod)
        } else {
            Ok(RequestFraming::Exact { len: n })
        },
{
    law_none_named(fields, KnownHeader::TransferEncoding);
    law_one_named(fields, KnownHeader::ContentLength, value);
    lemma_length(value, n);
}

/// With neither field an HTTP/1 request has no body, and that of a multiplexed
/// protocol goes on to the end of its stream.
pub proof fn law_no_field_frames_a_request(
    method: Method,
    version: WireVersion,
    fields: Seq<Field>,
    policy: OtherCodings,
)
    requires
        none_named(fields, ascii("transfer-encoding"@)),
        none_named(fields, ascii("content-length"@)),
    ensures
        request_framing(method, version, fields, policy) == Ok::<RequestFraming, RejectReason>(
            match version {
                WireVersion::Http10 => RequestFraming::Empty,
                WireVersion::Http11 => RequestFraming::Empty,
                WireVersion::H2 => RequestFraming::Streamed,
                WireVersion::H3 => RequestFraming::Streamed,
            },
        ),
{
    law_none_named(fields, KnownHeader::TransferEncoding);
    law_none_named(fields, KnownHeader::ContentLength);
}

/// Whether a value is the coding `chunked` in any case, with blanks around it.
pub open spec fn writes_chunked(value: Seq<u8>) -> bool {
    exists|a: Seq<u8>, d: Seq<u8>, b: Seq<u8>| #[trigger]
        blank_around(value, a, d, b) && lower_all(d) == ascii("chunked"@)
}

proof fn lemma_chunked_word()
    ensures
        ascii("chunked"@) == seq![
            'c' as u8,
            'h' as u8,
            'u' as u8,
            'n' as u8,
            'k' as u8,
            'e' as u8,
            'd' as u8,
        ],
        lower_all(ascii("chunked"@)) == ascii("chunked"@),
{
    reveal_strlit("chunked");
    lemma_ascii("chunked"@);
    assert(ascii("chunked"@) =~= seq![
        'c' as u8,
        'h' as u8,
        'u' as u8,
        'n' as u8,
        'k' as u8,
        'e' as u8,
        'd' as u8,
    ]);
    assert(lower_all(ascii("chunked"@)) =~= ascii("chunked"@));
}

proof fn lemma_chunked(value: Seq<u8>, policy: OtherCodings)
    requires
        writes_chunked(value),
    ensures
        te_result(te_tokens(seq![value]), policy) is Ok,
{
    let (a, d, b) = choose|a: Seq<u8>, d: Seq<u8>, b: Seq<u8>| #[trigger]
        blank_around(value, a, d, b) && lower_all(d) == ascii("chunked"@);
    lemma_chunked_word();
    law_trim_takes_blanks(a, d, b);
    assert forall|i: int| 0 <= i < value.len() implies value[i] != ',' as u8 by {
        if i < a.len() {
            assert(value[i] == a[i]);
        } else if i < a.len() + d.len() {
            assert(value[i] == d[i - a.len()]);
            assert(lower_all(d)[i - a.len()] != ',' as u8);
        } else {
            assert(value[i] == b[i - a.len() - d.len()]);
        }
    }
    lemma_find(value, ',' as u8, 0);
    assert(value.skip(0) =~= value);
    assert(value.subrange(0, value.len() as int) =~= value);
    assert(split(value, ',' as u8) =~= seq![value]);
    let lines = seq![value];
    assert(lines.drop_last() =~= Seq::<Seq<u8>>::empty());
    assert(te_tokens(lines.drop_last()) =~= Seq::<Seq<u8>>::empty());
    assert(te_tokens(lines) =~= seq![value]);
    assert(d.len() == lower_all(d).len());
    assert(seq![value].drop_last() =~= Seq::<Seq<u8>>::empty());
    assert(te_scan(seq![value].drop_last()) == Ok::<TeCodings, RejectReason>(
        TeCodings {
            token_count: 0,
            chunked_count: 0,
            final_is_chunked: false,
            has_other: false,
        },
    ));
    assert(is_chunked(d));
}

/// A request with `transfer-encoding: chunked` and no `content-length` is
/// streamed on HTTP/1.1; on every other version it is refused.
pub proof fn law_chunked_frames_a_request(
    method: Method,
    version: WireVersion,
    fields: Seq<Field>,
    policy: OtherCodings,
    value: Seq<u8>,
)
    requires
        none_named(fields, ascii("content-length"@)),
        one_named(fields, ascii("transfer-encoding"@), value),
        writes_chunked(value),
    ensures
        request_framing(method, version, fields, policy) == match version {
            WireVersion::Http10 => Err::<RequestFraming, RejectReason>(
                RejectReason::TransferEncodingOnHttp10,
            ),
            WireVersion::Http11 => if method is Connect {
                Err(RejectReason::BodyNotAllowedForMethod)
            } else {
                Ok(RequestFraming::Streamed)
            },
            WireVersion::H2 => Err(RejectReason::ConnectionSpecificField),
            WireVersion::H3 => Err(RejectReason::ConnectionSpecificField),
        },
{
    law_none_named(fields, KnownHeader::ContentLength);
    law_one_named(fields, KnownHeader::TransferEncoding, value);
    lemma_chunked(value, policy);
}

/// Two lengths are refused in requests and responses alike, whatever they say,
/// and so is a length beside a coding.
pub proof fn law_ambiguous_framing_is_refused(
    status: u16,
    method: Method,
    version: WireVersion,
    fields: Seq<Field>,
    policy: OtherCodings,
    i: int,
    j: int,
)
    requires
        0 <= i < fields.len(),
        0 <= j < fields.len(),
        i != j,
        fields[i].name == ascii("content-length"@),
        fields[j].name == ascii("content-length"@) || fields[j].name == ascii(
            "transfer-encoding"@,
        ),
    ensures
        request_framing(method, version, fields, policy) is Err,
        response_framing(status, method, version, fields, policy) is Err,
{
    if fields[j].name == ascii("content-length"@) {
        if i < j {
            law_two_named(fields, KnownHeader::ContentLength, i, j);
        } else {
            law_two_named(fields, KnownHeader::ContentLength, j, i);
        }
    } else {
        crate::laws::names::lemma_some_named(fields, KnownHeader::ContentLength, i);
        crate::laws::names::lemma_some_named(fields, KnownHeader::TransferEncoding, j);
    }
}

// ---- responses ----

/// The answers without a body: to `HEAD`, of the statuses 100 to 199, 204 and
/// 304, and of the statuses 200 to 299 to `CONNECT`; no other.
pub proof fn law_bodiless_answers(status: u16, method: Method)
    ensures
        no_body(status, method) <==> method == Method::Head || 100 <= status < 200 || status == 204
            || status == 304 || method == Method::Connect && 200 <= status < 300,
{
}

/// An answer with one `content-length` that writes `n` and no
/// `transfer-encoding` has exactly `n` bytes, unless it can have no body.
pub proof fn law_length_frames_a_response(
    status: u16,
    method: Method,
    version: WireVersion,
    fields: Seq<Field>,
    policy: OtherCodings,
    value: Seq<u8>,
    n: u64,
)
    requires
        none_named(fields, ascii("transfer-encoding"@)),
        one_named(fields, ascii("content-length"@), value),
        writes_length(value, n),
    ensures
        response_framing(status, method, version, fields, policy) == Ok::<
            ResponseFraming,
            RejectReason,
        >(
            if no_body(status, method) || n == 0 {
                ResponseFraming::Empty
            } else {
                ResponseFraming::Exact { len: n }
            },
        ),
{
    law_none_named(fields, KnownHeader::TransferEncoding);
    law_one_named(fields, KnownHeader::ContentLength, value);
    lemma_length(value, n);
}

/// An answer with `transfer-encoding: chunked` and no `content-length` is
/// streamed on HTTP/1.1 and refused on every other version, unless it can have
/// no body.
pub proof fn law_chunked_frames_a_response(
    status: u16,
    method: Method,
    version: WireVersion,
    fields: Seq<Field>,
    policy: OtherCodings,
    value: Seq<u8>,
)
    requires
        none_named(fields, ascii("content-length"@)),
        one_named(fields, ascii("transfer-encoding"@), value),
        writes_chunked(value),
    ensures
        response_framing(status, method, version, fields, policy) == if no_body(status, method) {
            Ok::<ResponseFraming, RejectReason>(ResponseFraming::Empty)
        } else {
            match version {
                WireVersion::Http10 => Err(RejectReason::TransferEncodingOnHttp10),
                WireVersion::Http11 => Ok(ResponseFraming::Streamed),
                WireVersion::H2 => Err(RejectReason::ConnectionSpecificField),
                WireVersion::H3 => Err(RejectReason::ConnectionSpecificField),
            }
        },
{
    law_none_named(fields, KnownHeader::ContentLength);
    law_one_named(fields, KnownHeader::TransferEncoding, value);
    lemma_chunked(value, policy);
}

/// With neither field an answer that can have a body goes on until the
/// connection is closed, or on a multiplexed protocol to the end of its stream.
pub proof fn law_no_field_frames_a_response(
    status: u16,
    method: Method,
    version: WireVersion,
    fields: Seq<Field>,
    policy: OtherCodings,
)
    requires
        none_named(fields, ascii("transfer-encoding"@)),
        none_named(fields, ascii("content-length"@)),
    ensures
        response_framing(status, method, version, fields, policy) == Ok::<
            ResponseFraming,
            RejectReason,
        >(
            if no_body(status, method) {
                ResponseFraming::Empty
            } else {
                match version {
                    WireVersion::Http10 => ResponseFraming::UntilClose,
                    WireVersion::Http11 => ResponseFraming::UntilClose,
                    WireVersion::H2 => ResponseFraming::Streamed,
                    WireVersion::H3 => ResponseFraming::Streamed,
                }
            },
        ),
{
    law_none_named(fields, KnownHeader::TransferEncoding);
    law_none_named(fields, KnownHeader::ContentLength);
}

// ---- codings ----

/// Whether every byte of a coding may stand in a token.
pub open spec fn coding(t: Seq<u8>) -> bool {
    t.len() > 0 && forall|i: int| 0 <= i < t.len() ==> tchar(#[trigger] t[i])
}

/// A list of codings is accepted exactly if it has one to eight of them, each a
/// token, of which the last alone is `chunked`; and, but for the policy that
/// takes others, no other.
pub proof fn law_accepted_codings(tokens: Seq<Seq<u8>>, policy: OtherCodings)
    ensures
        te_result(tokens, policy) is Ok <==> {
            &&& 1 <= tokens.len() <= 8
            &&& forall|i: int|
                0 <= i < tokens.len() ==> coding(trim(#[trigger] tokens[i])) && (lower_all(
                    trim(tokens[i]),
                ) == ascii("chunked"@) <==> i == tokens.len() - 1)
            &&& policy is Reject ==> tokens.len() == 1
        },
{
    lemma_scan(tokens);
    let n = tokens.len() as int;
    if te_scan(tokens) is Ok {
        let c = te_scan(tokens)->Ok_0;
        if n > 0 && c.chunked_count == 1 && c.final_is_chunked {
            lemma_count_before(tokens);
            if n > 1 {
                assert(!named_chunked(tokens[0]));
                assert(c.has_other);
            }
        }
    }
    assert forall|i: int| 0 <= i < n implies (named_chunked(#[trigger] tokens[i]) <==> lower_all(
        trim(tokens[i]),
    ) == ascii("chunked"@)) by {}
    if 1 <= n <= 8 && (forall|i: int|
        0 <= i < n ==> coding(trim(#[trigger] tokens[i])) && (named_chunked(tokens[i]) <==> i == n
            - 1)) {
        assert(named_chunked(tokens[n - 1]));
        lemma_count_before(tokens);
        assert forall|i: int| 0 <= i < n - 1 implies !named_chunked(#[trigger] tokens[i]) by {}
    }
}

spec fn named_chunked(t: Seq<u8>) -> bool {
    lower_all(trim(t)) == ascii("chunked"@)
}

spec fn count_chunked(tokens: Seq<Seq<u8>>) -> nat
    decreases tokens.len(),
{
    if tokens.len() == 0 {
        0
    } else {
        count_chunked(tokens.drop_last()) + if named_chunked(tokens.last()) {
            1nat
        } else {
            0
        }
    }
}

proof fn lemma_count_none(tokens: Seq<Seq<u8>>)
    ensures
        count_chunked(tokens) == 0 <==> forall|i: int|
            0 <= i < tokens.len() ==> !named_chunked(#[trigger] tokens[i]),
    decreases tokens.len(),
{
    if tokens.len() > 0 {
        let d = tokens.drop_last();
        lemma_count_none(d);
        if count_chunked(tokens) == 0 {
            assert forall|i: int| 0 <= i < tokens.len() implies !named_chunked(
                #[trigger] tokens[i],
            ) by {
                if i < d.len() {
                    assert(!named_chunked(d[i]));
                }
            }
        } else if count_chunked(d) > 0 {
            let i = choose|i: int| 0 <= i < d.len() && named_chunked(#[trigger] d[i]);
            assert(named_chunked(tokens[i]));
        } else {
            assert(named_chunked(tokens[tokens.len() - 1]));
        }
    }
}

/// With `chunked` last, it is there once exactly if it is nowhere before.
proof fn lemma_count_before(tokens: Seq<Seq<u8>>)
    requires
        tokens.len() > 0,
        named_chunked(tokens.last()),
    ensures
        count_chunked(tokens) == 1 <==> forall|i: int|
            0 <= i < tokens.len() - 1 ==> !named_chunked(#[trigger] tokens[i]),
{
    let d = tokens.drop_last();
    lemma_count_none(d);
    if count_chunked(d) == 0 {
        assert forall|i: int| 0 <= i < tokens.len() - 1 implies !named_chunked(
            #[trigger] tokens[i],
        ) by {
            assert(!named_chunked(d[i]));
        }
    } else {
        let i = choose|i: int| 0 <= i < d.len() && named_chunked(#[trigger] d[i]);
        assert(named_chunked(tokens[i]));
    }
}

proof fn lemma_scan(tokens: Seq<Seq<u8>>)
    ensures
        te_scan(tokens) is Ok <==> tokens.len() <= 8 && forall|i: int|
            0 <= i < tokens.len() ==> coding(trim(#[trigger] tokens[i])),
        te_scan(tokens) matches Ok(c) ==> {
            &&& c.token_count == tokens.len()
            &&& c.chunked_count == count_chunked(tokens)
            &&& c.final_is_chunked == (tokens.len() > 0 && named_chunked(tokens.last()))
            &&& c.has_other <==> exists|i: int|
                0 <= i < tokens.len() && !named_chunked(#[trigger] tokens[i])
        },
        count_chunked(tokens) <= tokens.len(),
    decreases tokens.len(),
{
    lemma_chunked_word();
    if tokens.len() > 0 {
        let d = tokens.drop_last();
        let t = trim(tokens.last());
        lemma_scan(d);
        assert(tokens[tokens.len() - 1] == tokens.last());
        assert forall|i: int| 0 <= i < d.len() implies #[trigger] d[i] == tokens[i] by {}
        assert((forall|i: int| 0 <= i < tokens.len() ==> coding(trim(#[trigger] tokens[i]))) <==> (
        forall|i: int| 0 <= i < d.len() ==> coding(trim(#[trigger] d[i]))) && coding(t)) by {
            if forall|i: int| 0 <= i < tokens.len() ==> coding(trim(#[trigger] tokens[i])) {
                assert forall|i: int| 0 <= i < d.len() implies coding(trim(#[trigger] d[i])) by {
                    assert(coding(trim(tokens[i])));
                }
            }
            if (forall|i: int| 0 <= i < d.len() ==> coding(trim(#[trigger] d[i]))) && coding(t) {
                assert forall|i: int| 0 <= i < tokens.len() implies coding(
                    trim(#[trigger] tokens[i]),
                ) by {
                    if i < d.len() {
                        assert(coding(trim(d[i])));
                    }
                }
            }
        }
        assert(is_chunked(t) <==> named_chunked(tokens.last()));
        if is_chunked(t) {
            assert(t.len() == lower_all(t).len());
            assert forall|i: int| 0 <= i < t.len() implies tchar(#[trigger] t[i]) by {
                assert(lower_all(t)[i] == ascii("chunked"@)[i]);
            }
        }
        assert(all_tchar(t) <==> forall|i: int| 0 <= i < t.len() ==> tchar(#[trigger] t[i]));
        if te_scan(tokens) is Ok {
            let c = te_scan(tokens)->Ok_0;
            if (te_scan(d)->Ok_0).has_other {
                let i = choose|i: int| 0 <= i < d.len() && !named_chunked(#[trigger] d[i]);
                assert(!named_chunked(tokens[i]));
            }
            if exists|i: int| 0 <= i < tokens.len() && !named_chunked(#[trigger] tokens[i]) {
                let i = choose|i: int| 0 <= i < tokens.len() && !named_chunked(#[trigger] tokens[i]);
                if i < d.len() {
                    assert(!named_chunked(d[i]));
                }
            }
        }
    }
}

} // verus!
