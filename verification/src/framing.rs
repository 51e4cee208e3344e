//! Where the body of a request ends.
//!
//! Two readers that disagree about where one request ends and the next begins
//! can be made to read different requests. So [`RequestFraming`] has no
//! ambiguous variant: every head resolves to one of three framings or is
//! refused. A head with both `content-length` and `transfer-encoding` is
//! refused, never repaired, and every field line of either is looked at.
use crate::error::RejectReason;
use crate::field::{trim, trim_ows};
use crate::known::KnownHeader;
use crate::num::{
    all_digits, dec_value, lemma_dec_value_bound, lemma_dec_value_prefix, lemma_dec_value_step,
    pow10,
};
use crate::scalar::{all_tchar, is_all_tchar, Method, WireVersion};
use crate::section::{values_of, Field, FieldSection};
use crate::text::{
    ascii, digit, eq_ignore_case, find, is_digit, joined, lemma_find, lemma_find_is, lower_all, split,
    split_from, split_on, views,
};
use vstd::prelude::*;

verus! {

/// Where a request body ends. Resolved once, on the way in.
#[derive(Copy, Clone, Debug, PartialEq, Eq, Structural)]
pub enum RequestFraming {
    /// No body.
    Empty,
    /// Exactly `len` bytes follow; `len` is not zero. It is what the peer
    /// declared: a limit to enforce, never a size to allocate.
    Exact {
        /// The declared body length in bytes.
        len: u64,
    },
    /// The length is not known from the head: the protocol ends the body.
    Streamed,
}

impl RequestFraming {
    /// Whether a body follows.
    #[must_use]
    pub fn has_body(self) -> (r: bool)
        ensures
            r == !(self is Empty),
    {
        !matches!(self, RequestFraming::Empty)
    }

    /// The declared length: zero for `Empty`, none for `Streamed`.
    #[must_use]
    pub fn known_len(self) -> (r: Option<u64>)
        ensures
            r == match self {
                RequestFraming::Empty => Some(0u64),
                RequestFraming::Exact { len } => Some(len),
                RequestFraming::Streamed => None,
            },
    {
        match self {
            RequestFraming::Empty => Some(0),
            RequestFraming::Exact { len } => Some(len),
            RequestFraming::Streamed => None,
        }
    }
}

/// What to do about transfer codings other than `chunked`.
#[derive(Copy, Clone, Debug, PartialEq, Eq, Structural)]
pub enum OtherCodings {
    /// Refuse them. The default.
    Reject,
    /// Tolerate a coding before the final `chunked`.
    DangerouslyAcceptNonChunkedCodings,
}

impl Default for OtherCodings {
    fn default() -> (r: Self)
        ensures
            r == OtherCodings::Reject,
    {
        OtherCodings::Reject
    }
}

/// What the combined `transfer-encoding` list holds.
#[derive(Copy, Clone, Debug, PartialEq, Eq, Structural)]
pub struct TeCodings {
    /// Tokens over all field lines.
    pub token_count: u32,
    /// How many of them are `chunked`.
    pub chunked_count: u32,
    /// Whether the last one is `chunked`.
    pub final_is_chunked: bool,
    /// Whether one is something else.
    pub has_other: bool,
}

/// The value of a `content-length` field: one to twenty digits that fit 64
/// bits, leading zeros included. What is no number is invalid, and a number of
/// more digits, leading zeros or not, does not fit.
pub open spec fn content_length(value: Seq<u8>) -> Result<u64, RejectReason> {
    if value.len() == 0 || !all_digits(value) {
        Err(RejectReason::ContentLengthInvalid)
    } else if value.len() > 20 || dec_value(value) > u64::MAX {
        Err(RejectReason::ContentLengthOverflow)
    } else {
        Ok(dec_value(value) as u64)
    }
}

fn is_number(value: &[u8]) -> (r: bool)
    ensures
        r == all_digits(value@),
{
    let mut i: usize = 0;
    while i < value.len()
        invariant
            i <= value@.len(),
            forall|j: int| 0 <= j < i ==> is_digit(#[trigger] value@[j]),
        decreases value@.len() - i,
    {
        if !digit(value[i]) {
            assert(!is_digit(value@[i as int]));
            return false;
        }
        i += 1;
    }
    true
}

/// Reads a `content-length` value. A sign, whitespace, a prefix or a list is
/// refused.
pub fn parse_content_length(value: &[u8]) -> (r: Result<u64, RejectReason>)
    ensures
        r == content_length(value@),
{
    if value.len() == 0 {
        return Err(RejectReason::ContentLengthInvalid);
    }
    if value.len() > 20 {
        return if is_number(value) {
            Err(RejectReason::ContentLengthOverflow)
        } else {
            Err(RejectReason::ContentLengthInvalid)
        };
    }
    let mut n: u64 = 0;
    let mut i: usize = 0;
    while i < value.len()
        invariant
            i <= value@.len() <= 20,
            0 < value@.len(),
            all_digits(value@.take(i as int)),
            n == dec_value(value@.take(i as int)),
        decreases value@.len() - i,
    {
        let b: u8 = value[i];
        if !digit(b) {
            assert(!is_digit(value@[i as int]));
            return Err(RejectReason::ContentLengthInvalid);
        }
        let d: u64 = (b - '0' as u8) as u64;
        proof {
            assert(value@.take(i + 1) =~= value@.take(i as int).push(b));
            lemma_dec_value_step(value@, i as int);
            lemma_dec_value_prefix(value@, i + 1);
            lemma_dec_value_bound(value@.take(i as int));
            reveal_with_fuel(pow10, 20);
        }
        let next: Option<u64> = match n.checked_mul(10) {
            Some(m) => m.checked_add(d),
            None => None,
        };
        match next {
            Some(v) => {
                n = v;
            },
            None => {
                proof {
                    // Nineteen digits fit, so this was the twentieth and last.
                    if i < 19 {
                        lemma_pow10_mono(i as nat, 18);
                        lemma_pow10_value();
                    }
                    assert(i == 19);
                    assert(value@.take(20) =~= value@);
                }
                return Err(RejectReason::ContentLengthOverflow);
            },
        }
        i += 1;
    }
    proof {
        assert(value@.take(i as int) =~= value@);
    }
    Ok(n)
}

proof fn lemma_pow10_mono(a: nat, b: nat)
    requires
        a <= b,
    ensures
        pow10(a) <= pow10(b),
    decreases b,
{
    if a < b {
        lemma_pow10_mono(a, (b - 1) as nat);
    }
}

proof fn lemma_pow10_value()
    ensures
        pow10(18) == 1_000_000_000_000_000_000,
{
    reveal_with_fuel(pow10, 19);
}

/// Whether a coding is `chunked`, in any case.
pub open spec fn is_chunked(coding: Seq<u8>) -> bool {
    lower_all(coding) == lower_all(ascii("chunked"@))
}

/// The codings of all field lines as one list, in order and untrimmed.
pub open spec fn te_tokens(lines: Seq<Seq<u8>>) -> Seq<Seq<u8>>
    decreases lines.len(),
{
    if lines.len() == 0 {
        Seq::empty()
    } else {
        te_tokens(lines.drop_last()) + split(lines.last(), ',' as u8)
    }
}

/// One more coding. An empty one, a ninth one and one that is no token are
/// refused.
pub open spec fn te_step(c: TeCodings, coding: Seq<u8>) -> Result<TeCodings, RejectReason> {
    if coding.len() == 0 {
        Err(RejectReason::TransferEncodingEmptyToken)
    } else if c.token_count >= 8 {
        Err(RejectReason::TransferEncodingUnsupportedCoding)
    } else if is_chunked(coding) {
        Ok(
            TeCodings {
                token_count: (c.token_count + 1) as u32,
                chunked_count: (c.chunked_count + 1) as u32,
                final_is_chunked: true,
                has_other: c.has_other,
            },
        )
    } else if !all_tchar(coding) {
        Err(RejectReason::TransferEncodingUnsupportedCoding)
    } else {
        Ok(
            TeCodings {
                token_count: (c.token_count + 1) as u32,
                chunked_count: c.chunked_count,
                final_is_chunked: false,
                has_other: true,
            },
        )
    }
}

/// The codings of a list taken together, up to the first that is refused.
pub open spec fn te_scan(tokens: Seq<Seq<u8>>) -> Result<TeCodings, RejectReason>
    decreases tokens.len(),
{
    if tokens.len() == 0 {
        Ok(
            TeCodings {
                token_count: 0,
                chunked_count: 0,
                final_is_chunked: false,
                has_other: false,
            },
        )
    } else {
        match te_scan(tokens.drop_last()) {
            Err(e) => Err(e),
            Ok(c) => te_step(c, trim(tokens.last())),
        }
    }
}

/// What a whole list amounts to: `chunked` once and last.
pub open spec fn te_result(tokens: Seq<Seq<u8>>, policy: OtherCodings) -> Result<
    TeCodings,
    RejectReason,
> {
    match te_scan(tokens) {
        Err(e) => Err(e),
        Ok(c) => if c.token_count == 0 {
            Err(RejectReason::TransferEncodingEmptyToken)
        } else if c.chunked_count > 1 {
            Err(RejectReason::TransferEncodingChunkedRepeated)
        } else if !c.final_is_chunked {
            Err(RejectReason::TransferEncodingFinalNotChunked)
        } else if c.has_other && policy is Reject {
            Err(RejectReason::TransferEncodingUnsupportedCoding)
        } else {
            Ok(c)
        },
    }
}

proof fn lemma_scan_prefix_error(tokens: Seq<Seq<u8>>, k: int)
    requires
        0 <= k <= tokens.len(),
        te_scan(tokens.take(k)) is Err,
    ensures
        te_scan(tokens) == te_scan(tokens.take(k)),
    decreases tokens.len(),
{
    if k < tokens.len() {
        assert(tokens.drop_last().take(k) =~= tokens.take(k));
        lemma_scan_prefix_error(tokens.drop_last(), k);
    } else {
        assert(tokens.take(k) =~= tokens);
    }
}

proof fn lemma_te_tokens_take(lines: Seq<Seq<u8>>, k: int)
    requires
        0 <= k <= lines.len(),
    ensures
        te_tokens(lines.take(k)).is_prefix_of(te_tokens(lines)),
    decreases lines.len(),
{
    if k < lines.len() {
        assert(lines.drop_last().take(k) =~= lines.take(k));
        lemma_te_tokens_take(lines.drop_last(), k);
    } else {
        assert(lines.take(k) =~= lines);
    }
}

/// Takes the combined `transfer-encoding` list apart. `values` are the field
/// lines' values in the order they arrived: several lines are one list.
pub fn tokenize_transfer_encoding(values: &[&[u8]], policy: OtherCodings) -> (r: Result<
    TeCodings,
    RejectReason,
>)
    ensures
        r == te_result(te_tokens(views(values@)), policy),
{
    let mut c = TeCodings {
        token_count: 0,
        chunked_count: 0,
        final_is_chunked: false,
        has_other: false,
    };
    let ghost lines = views(values@);
    let mut i: usize = 0;
    proof {
        assert(te_tokens(lines.take(0)) =~= Seq::<Seq<u8>>::empty());
    }
    while i < values.len()
        invariant
            i <= values@.len(),
            lines == views(values@),
            te_scan(te_tokens(lines.take(i as int))) == Ok::<TeCodings, RejectReason>(c),
            c.token_count <= 8,
            c.chunked_count <= c.token_count,
        decreases values@.len() - i,
    {
        let parts = split_on(values[i], ',' as u8);
        let ghost done = te_tokens(lines.take(i as int));
        let ghost toks = views(parts@);
        proof {
            assert(lines.take(i + 1).drop_last() =~= lines.take(i as int));
            assert(te_tokens(lines.take(i + 1)) == done + toks);
            lemma_te_tokens_take(lines, i + 1);
            assert(done + toks.take(0) =~= done);
        }
        let mut j: usize = 0;
        while j < parts.len()
            invariant
                j <= parts@.len(),
                i < values@.len(),
                lines == views(values@),
                toks == views(parts@),
                te_tokens(lines.take(i + 1)) == done + toks,
                te_tokens(lines.take(i + 1)).is_prefix_of(te_tokens(lines)),
                te_scan(done + toks.take(j as int)) == Ok::<TeCodings, RejectReason>(c),
                c.token_count <= 8,
                c.chunked_count <= c.token_count,
            decreases parts@.len() - j,
        {
            let t = trim_ows(parts[j]);
            let ghost next = done + toks.take(j + 1);
            proof {
                assert(next.drop_last() =~= done + toks.take(j as int));
                assert(next.last() == toks[j as int]);
                assert(te_scan(next) == te_step(c, t@));
                assert(te_tokens(lines).take(next.len() as int) =~= next) by {
                    assert(te_tokens(lines.take(i + 1)).take(next.len() as int) =~= next);
                }
                if te_scan(next) is Err {
                    lemma_scan_prefix_error(te_tokens(lines), next.len() as int);
                }
            }
            if t.len() == 0 {
                return Err(RejectReason::TransferEncodingEmptyToken);
            }
            if c.token_count >= 8 {
                return Err(RejectReason::TransferEncodingUnsupportedCoding);
            }
            c.token_count = c.token_count + 1;
            if eq_ignore_case(t, "chunked".as_bytes()) {
                c.chunked_count = c.chunked_count + 1;
                c.final_is_chunked = true;
            } else {
                c.has_other = true;
                c.final_is_chunked = false;
                if !is_all_tchar(t) {
                    return Err(RejectReason::TransferEncodingUnsupportedCoding);
                }
            }
            j += 1;
        }
        proof {
            assert(toks.take(j as int) =~= toks);
        }
        i += 1;
    }
    proof {
        assert(lines.take(i as int) =~= lines);
    }
    if c.token_count == 0 {
        return Err(RejectReason::TransferEncodingEmptyToken);
    }
    if c.chunked_count > 1 {
        return Err(RejectReason::TransferEncodingChunkedRepeated);
    }
    if !c.final_is_chunked {
        return Err(RejectReason::TransferEncodingFinalNotChunked);
    }
    if c.has_other && matches!(policy, OtherCodings::Reject) {
        return Err(RejectReason::TransferEncodingUnsupportedCoding);
    }
    Ok(c)
}

/// The framing of a request with these fields.
pub open spec fn request_framing(
    method: Method,
    version: WireVersion,
    fields: Seq<Field>,
    policy: OtherCodings,
) -> Result<RequestFraming, RejectReason> {
    let lengths = values_of(fields, KnownHeader::ContentLength);
    let codings = values_of(fields, KnownHeader::TransferEncoding);
    if lengths.len() > 1 {
        Err(RejectReason::ContentLengthDuplicate)
    } else if codings.len() > 0 {
        if lengths.len() > 0 {
            Err(RejectReason::TransferEncodingWithContentLength)
        } else if version.is_multiplexed_spec() {
            Err(RejectReason::ConnectionSpecificField)
        } else if version is Http10 {
            Err(RejectReason::TransferEncodingOnHttp10)
        } else {
            match te_result(te_tokens(codings), policy) {
                Err(e) => Err(e),
                Ok(_) => if method is Connect {
                    Err(RejectReason::BodyNotAllowedForMethod)
                } else {
                    Ok(RequestFraming::Streamed)
                },
            }
        }
    } else if lengths.len() == 0 {
        Ok(
            if version.is_multiplexed_spec() {
                RequestFraming::Streamed
            } else {
                RequestFraming::Empty
            },
        )
    } else {
        match content_length(trim(lengths[0])) {
            Err(e) => Err(e),
            Ok(len) => if len == 0 {
                Ok(RequestFraming::Empty)
            } else if method is Connect {
                Err(RejectReason::BodyNotAllowedForMethod)
            } else {
                Ok(RequestFraming::Exact { len })
            },
        }
    }
}

/// Resolves the framing of an inbound request. A duplicated `content-length`
/// is refused first, whatever else is there. With neither field an HTTP/1
/// request has no body; on a multiplexed protocol the stream ends it.
pub fn resolve_request_framing(
    method: &Method,
    version: WireVersion,
    fields: &FieldSection,
    policy: OtherCodings,
) -> (r: Result<RequestFraming, RejectReason>)
    ensures
        r == request_framing(*method, version, fields@, policy),
{
    let cl_count: usize = fields.count_known(KnownHeader::ContentLength);
    if cl_count > 1 {
        return Err(RejectReason::ContentLengthDuplicate);
    }
    let te_present = fields.contains_known(KnownHeader::TransferEncoding);
    if te_present && cl_count == 1 {
        return Err(RejectReason::TransferEncodingWithContentLength);
    }
    if version.is_multiplexed() && te_present {
        return Err(RejectReason::ConnectionSpecificField);
    }
    if matches!(version, WireVersion::Http10) && te_present {
        return Err(RejectReason::TransferEncodingOnHttp10);
    }
    if te_present {
        let lines = fields.get_all_known(KnownHeader::TransferEncoding);
        let _codings = tokenize_transfer_encoding(lines.as_slice(), policy)?;
        if method.is_connect() {
            return Err(RejectReason::BodyNotAllowedForMethod);
        }
        return Ok(RequestFraming::Streamed);
    }
    if cl_count == 1 {
        let value = match fields.get_unique_known(KnownHeader::ContentLength) {
            Ok(Some(v)) => v,
            Ok(None) => {
                return Ok(RequestFraming::Empty);
            },
            Err(_) => {
                return Err(RejectReason::ContentLengthDuplicate);
            },
        };
        let len: u64 = parse_content_length(trim_ows(value))?;
        if method.is_connect() && len > 0 {
            return Err(RejectReason::BodyNotAllowedForMethod);
        }
        if len == 0 {
            return Ok(RequestFraming::Empty);
        }
        return Ok(RequestFraming::Exact { len });
    }
    if version.is_multiplexed() {
        return Ok(RequestFraming::Streamed);
    }
    Ok(RequestFraming::Empty)
}

/// `transfer-encoding` beside `content-length` is refused, whatever either
/// says.
pub proof fn law_both_framing_fields_refused(
    method: Method,
    version: WireVersion,
    fields: Seq<Field>,
    policy: OtherCodings,
)
    requires
        values_of(fields, KnownHeader::ContentLength).len() > 0,
        values_of(fields, KnownHeader::TransferEncoding).len() > 0,
    ensures
        request_framing(method, version, fields, policy) is Err,
{
}

/// More than one `content-length` is refused, identical values included.
pub proof fn law_duplicate_length_refused(
    method: Method,
    version: WireVersion,
    fields: Seq<Field>,
    policy: OtherCodings,
)
    requires
        values_of(fields, KnownHeader::ContentLength).len() > 1,
    ensures
        request_framing(method, version, fields, policy) == Err::<RequestFraming, RejectReason>(
            RejectReason::ContentLengthDuplicate,
        ),
{
}

/// What each framing was resolved from. `Exact` comes from a single
/// `content-length` of that value, never zero, with no `transfer-encoding`.
/// `Streamed` comes, with no `content-length`, from a `transfer-encoding` on
/// HTTP/1.1, or from its absence on a multiplexed protocol. `Empty` comes from
/// a `content-length` of zero, or on HTTP/1 from the absence of both fields. On
/// HTTP/1 `CONNECT` has no body.
pub proof fn law_framing_is_justified(
    method: Method,
    version: WireVersion,
    fields: Seq<Field>,
    policy: OtherCodings,
)
    ensures
        match request_framing(method, version, fields, policy) {
            Ok(RequestFraming::Streamed) => {
                &&& values_of(fields, KnownHeader::ContentLength).len() == 0
                &&& if version.is_multiplexed_spec() {
                    values_of(fields, KnownHeader::TransferEncoding).len() == 0
                } else {
                    &&& version is Http11
                    &&& values_of(fields, KnownHeader::TransferEncoding).len() > 0
                    &&& te_result(
                        te_tokens(values_of(fields, KnownHeader::TransferEncoding)),
                        policy,
                    ) is Ok
                    &&& !(method is Connect)
                }
            },
            Ok(RequestFraming::Exact { len }) => {
                &&& len > 0
                &&& values_of(fields, KnownHeader::TransferEncoding).len() == 0
                &&& values_of(fields, KnownHeader::ContentLength).len() == 1
                &&& content_length(trim(values_of(fields, KnownHeader::ContentLength)[0])) == Ok::<
                    u64,
                    RejectReason,
                >(len)
                &&& !(method is Connect)
            },
            Ok(RequestFraming::Empty) => {
                &&& values_of(fields, KnownHeader::TransferEncoding).len() == 0
                &&& if values_of(fields, KnownHeader::ContentLength).len() == 0 {
                    version is Http10 || version is Http11
                } else {
                    &&& values_of(fields, KnownHeader::ContentLength).len() == 1
                    &&& content_length(trim(values_of(fields, KnownHeader::ContentLength)[0]))
                        == Ok::<u64, RejectReason>(0)
                }
            },
            Err(_) => true,
        },
{
}

proof fn lemma_scan_counts(tokens: Seq<Seq<u8>>)
    ensures
        te_scan(tokens) matches Ok(c) ==> {
            &&& c.token_count == tokens.len()
            &&& tokens.len() <= 8
            &&& c.chunked_count <= tokens.len()
            &&& c.chunked_count == 0 <==> forall|i: int|
                0 <= i < tokens.len() ==> !is_chunked(trim(#[trigger] tokens[i]))
            &&& c.final_is_chunked == (tokens.len() > 0 && is_chunked(trim(tokens.last())))
            &&& !c.has_other <==> forall|i: int|
                0 <= i < tokens.len() ==> is_chunked(trim(#[trigger] tokens[i]))
        },
    decreases tokens.len(),
{
    if tokens.len() > 0 {
        let rest = tokens.drop_last();
        lemma_scan_counts(rest);
        if te_scan(tokens) matches Ok(c) {
            let p = te_scan(rest)->Ok_0;
            let last = is_chunked(trim(tokens[tokens.len() - 1]));
            if p.chunked_count > 0 {
                let i = choose|i: int| 0 <= i < rest.len() && is_chunked(trim(#[trigger] rest[i]));
                assert(is_chunked(trim(tokens[i])));
            } else if !last {
                assert forall|i: int| 0 <= i < tokens.len() implies !is_chunked(
                    trim(#[trigger] tokens[i]),
                ) by {
                    if i < rest.len() {
                        assert(!is_chunked(trim(rest[i])));
                    }
                }
            }
            if p.has_other {
                let i = choose|i: int| 0 <= i < rest.len() && !is_chunked(trim(#[trigger] rest[i]));
                assert(!is_chunked(trim(tokens[i])));
            } else if last {
                assert forall|i: int| 0 <= i < tokens.len() implies is_chunked(
                    trim(#[trigger] tokens[i]),
                ) by {
                    if i < rest.len() {
                        assert(is_chunked(trim(rest[i])));
                    }
                }
            }
        }
    }
}

/// Under the default policy an accepted list is the one coding `chunked`.
pub proof fn law_accepted_codings_are_chunked(tokens: Seq<Seq<u8>>)
    requires
        te_result(tokens, OtherCodings::Reject) is Ok,
    ensures
        tokens.len() == 1,
        is_chunked(trim(tokens[0])),
{
    lemma_scan_counts(tokens);
    lemma_all_chunked_count(tokens);
    assert(is_chunked(trim(tokens[0])));
}

proof fn lemma_all_chunked_count(tokens: Seq<Seq<u8>>)
    requires
        te_scan(tokens) is Ok,
        forall|i: int| 0 <= i < tokens.len() ==> is_chunked(trim(#[trigger] tokens[i])),
    ensures
        (te_scan(tokens)->Ok_0).chunked_count == tokens.len(),
    decreases tokens.len(),
{
    if tokens.len() > 0 {
        let rest = tokens.drop_last();
        assert forall|i: int| 0 <= i < rest.len() implies is_chunked(trim(#[trigger] rest[i])) by {
            assert(is_chunked(trim(tokens[i])));
        }
        lemma_all_chunked_count(rest);
        lemma_scan_counts(rest);
        assert(is_chunked(trim(tokens[tokens.len() - 1])));
    }
}

/// Whatever the policy, an accepted list holds `chunked` exactly once, at its
/// end.
pub proof fn law_chunked_is_last(tokens: Seq<Seq<u8>>, policy: OtherCodings)
    requires
        te_result(tokens, policy) is Ok,
    ensures
        tokens.len() > 0,
        is_chunked(trim(tokens.last())),
        forall|i: int| 0 <= i < tokens.len() - 1 ==> !is_chunked(trim(#[trigger] tokens[i])),
{
    lemma_scan_counts(tokens);
    lemma_scan_counts(tokens.drop_last());
    assert forall|i: int| 0 <= i < tokens.len() - 1 implies !is_chunked(
        trim(#[trigger] tokens[i]),
    ) by {
        assert(tokens.drop_last()[i] == tokens[i]);
    }
}

/// Splitting goes on behind what was split before.
proof fn lemma_split_behind(x: Seq<u8>, y: Seq<u8>, sep: u8, i: int)
    requires
        0 <= i <= y.len(),
    ensures
        split_from(x + seq![sep] + y, sep, x.len() + 1 + i) == split_from(y, sep, i),
    decreases y.len() - i,
{
    let s = x + seq![sep] + y;
    let n = x.len() + 1;
    lemma_find(y, sep, i);
    let at = find(y, sep, i);
    assert forall|j: int| 0 <= j < y.len() implies #[trigger] y[j] == s[n + j] by {}
    assert forall|j: int| n + i <= j < n + at implies s[j] != sep by {
        assert(s[j] == y[j - n]);
    }
    lemma_find_is(s, sep, n + i, n + at);
    if at < y.len() {
        lemma_split_behind(x, y, sep, at + 1);
        assert(s.subrange(n + i, n + at) =~= y.subrange(i, at));
    } else {
        assert(s.skip(n + i) =~= y.skip(i));
    }
}

/// The parts of two texts with a separator between them are those of the one
/// and those of the other.
proof fn lemma_split_joined(x: Seq<u8>, y: Seq<u8>, sep: u8, i: int)
    requires
        0 <= i <= x.len(),
    ensures
        split_from(x + seq![sep] + y, sep, i) == split_from(x, sep, i) + split(y, sep),
    decreases x.len() - i,
{
    let s = x + seq![sep] + y;
    lemma_find(x, sep, i);
    let at = find(x, sep, i);
    assert forall|j: int| 0 <= j < x.len() implies s[j] == x[j] by {}
    assert(s[x.len() as int] == sep);
    lemma_find_is(s, sep, i, at);
    if at < x.len() {
        lemma_split_joined(x, y, sep, at + 1);
        assert(s.subrange(i, at) =~= x.subrange(i, at));
    } else {
        lemma_split_behind(x, y, sep, 0);
        assert(s.subrange(i, at) =~= x.skip(i));
    }
    assert(split_from(s, sep, i) =~= split_from(x, sep, i) + split(y, sep));
}

proof fn lemma_te_tokens_first(lines: Seq<Seq<u8>>)
    requires
        lines.len() > 0,
    ensures
        te_tokens(lines) == split(lines[0], ',' as u8) + te_tokens(lines.skip(1)),
    decreases lines.len(),
{
    let comma = ',' as u8;
    if lines.len() == 1 {
        assert(lines.drop_last() =~= Seq::<Seq<u8>>::empty());
        assert(lines.skip(1) =~= Seq::<Seq<u8>>::empty());
        assert(te_tokens(lines) =~= split(lines[0], comma) + te_tokens(lines.skip(1)));
    } else {
        lemma_te_tokens_first(lines.drop_last());
        assert(lines.drop_last().skip(1) =~= lines.skip(1).drop_last());
        assert(lines.skip(1).last() == lines.last());
        assert(te_tokens(lines) =~= split(lines[0], comma) + te_tokens(lines.skip(1)));
    }
}

/// The lines of `Transfer-Encoding` are one list: joined by commas into one
/// line they name the same codings, and so lead to the same framing.
pub proof fn law_coding_lines_are_one_list(lines: Seq<Seq<u8>>)
    requires
        lines.len() > 0,
    ensures
        te_tokens(seq![joined(lines, ',' as u8)]) == te_tokens(lines),
    decreases lines.len(),
{
    let comma = ',' as u8;
    let one = seq![joined(lines, comma)];
    lemma_te_tokens_first(one);
    lemma_te_tokens_first(lines);
    assert(one.skip(1) =~= Seq::<Seq<u8>>::empty());
    assert(te_tokens(one) =~= split(joined(lines, comma), comma));
    if lines.len() == 1 {
        assert(lines.skip(1) =~= Seq::<Seq<u8>>::empty());
        assert(te_tokens(lines) =~= split(lines[0], comma));
    } else {
        let more = lines.skip(1);
        let rest = joined(more, comma);
        law_coding_lines_are_one_list(more);
        lemma_te_tokens_first(seq![rest]);
        assert(seq![rest].skip(1) =~= Seq::<Seq<u8>>::empty());
        assert(te_tokens(seq![rest]) =~= split(rest, comma));
        lemma_split_joined(lines[0], rest, comma, 0);
    }
}

} // verus!
